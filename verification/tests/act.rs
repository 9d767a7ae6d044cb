use rocom_pets::act::{scripts, Beat};

#[test]
fn steps_are_in_time_order_and_fit_the_length() {
    // A script runs front to back: a step out of order would be skipped.
    for script in scripts() {
        let mut last = 0u32;
        let mut first = true;
        for step in &script.steps {
            assert!(
                first || step.at_ms >= last,
                "{}: the step at {} ms comes after {} ms",
                script.id,
                step.at_ms,
                last
            );
            assert!(step.role < script.cast.len(), "{}: role out of range", script.id);
            last = step.at_ms;
            first = false;
        }
        assert!(
            last < script.length_ms,
            "{}: the last step at {last} ms is past the length {} ms",
            script.id,
            script.length_ms
        );
        // the two roles must be two different pets on stage
        assert_ne!(script.cast[0], script.cast[1], "{}: the roles coincide", script.id);
    }
}

#[test]
fn the_sweep_scene_is_cast_and_timed_as_written() {
    let all = scripts();
    assert_eq!(all.len(), 1);
    let s = &all[0];
    assert_eq!(s.id, "peel_commands_cleaner");
    assert_eq!(s.cast, [3758, 3604]);
    assert_eq!(s.max_distance_pct, 250);
    assert_eq!(s.cooldown_ms, 90_000);
    assert_eq!(s.length_ms, 11_500);
    let times: Vec<u32> = s.steps.iter().map(|st| st.at_ms).collect();
    assert_eq!(times, vec![0, 200, 900, 1100, 2000, 3600, 5200, 6200, 7800, 9400, 9600]);
    assert!(matches!(s.steps[1].beat, Beat::Play("CallOut")));
    assert!(matches!(s.steps[4].beat, Beat::Approach { gap_pct: 130, running: true }));
    assert!(matches!(s.steps[8].beat, Beat::GoHome { running: false }));
    assert!(matches!(s.steps[10].beat, Beat::Play("Happy")));
}
