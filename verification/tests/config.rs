use rocom_pets::config::{clamp_fps, default_fps, expand_path, DEFAULT_FPS, FPS_MAX, FPS_MIN};

#[test]
fn tilde_is_expanded() {
    assert_eq!(expand_path("~/packs/x", Some("/home/tester")), "/home/tester/packs/x");
    assert_eq!(expand_path("/abs/x", Some("/home/tester")), "/abs/x");
}

#[test]
fn tilde_without_a_home_stays() {
    assert_eq!(expand_path("~/packs/x", None), "~/packs/x");
    // only a leading `~/` is expanded
    assert_eq!(expand_path("~packs", Some("/home/t")), "~packs");
    assert_eq!(expand_path("a/~/b", Some("/home/t")), "a/~/b");
    // a home with a trailing separator gets no second one
    assert_eq!(expand_path("~/x", Some("/home/t/")), "/home/t/x");
    // an absolute remainder stands alone, as `Path::join` has it
    assert_eq!(expand_path("~//etc", Some("/home/t")), "/etc");
    assert_eq!(expand_path("~/", Some("/home/t")), "/home/t/");
}

#[test]
fn the_frame_rate_is_pulled_into_range() {
    assert_eq!(default_fps(), DEFAULT_FPS);
    assert_eq!(DEFAULT_FPS, 30);
    assert_eq!(clamp_fps(0), FPS_MIN);
    assert_eq!(clamp_fps(9), 10);
    assert_eq!(clamp_fps(10), 10);
    assert_eq!(clamp_fps(60), 60);
    assert_eq!(clamp_fps(240), 240);
    assert_eq!(clamp_fps(241), FPS_MAX);
    assert_eq!(clamp_fps(u32::MAX), 240);
}
