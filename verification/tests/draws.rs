use rocom_pets::draws::{face_kind, partition_draws, DrawFlags};

fn plain() -> DrawFlags {
    DrawFlags {
        glassy_inner: false,
        special_opaque: false,
        paint_order: false,
        effect: false,
        translucent: false,
        alpha_opacity: false,
        fake_fluid: false,
        additive: false,
        outline: None,
        matcap: false,
    }
}

#[test]
fn each_draw_goes_to_its_pass_in_order() {
    let flags = vec![
        plain(),                                                   // 0 opaque body, outline by default
        DrawFlags { glassy_inner: true, translucent: true, ..plain() }, // 1 glassy inner wins over blending
        DrawFlags { special_opaque: true, ..plain() },             // 2
        DrawFlags { paint_order: true, ..plain() },                // 3
        DrawFlags { translucent: true, outline: Some(true), matcap: true, ..plain() }, // 4 glass with outline
        DrawFlags { effect: true, ..plain() },                     // 5 inner effect
        DrawFlags { effect: true, additive: true, ..plain() },     // 6 additive effect
        DrawFlags { outline: Some(false), ..plain() },             // 7 opaque without outline
        DrawFlags { alpha_opacity: true, outline: Some(true), ..plain() }, // 8 glass, no matcap
    ];
    let draws: Vec<(u32, u32, usize)> = (0..9).map(|m| (m as u32 * 3, 3, m)).chain([(27, 6, 0)]).collect();
    let r = partition_draws(&draws, &flags);
    let mats = |v: &Vec<(u32, u32, usize)>| v.iter().map(|d| d.2).collect::<Vec<_>>();
    assert_eq!(mats(&r.glassy_inner), vec![1]);
    assert_eq!(mats(&r.special_opaque), vec![2]);
    assert_eq!(mats(&r.paint_order), vec![3]);
    assert_eq!(mats(&r.opaque), vec![0, 7, 0]);
    assert_eq!(mats(&r.glass), vec![4, 8]);
    assert_eq!(mats(&r.inner_effect), vec![5]);
    assert_eq!(mats(&r.effect), vec![6]);
    assert_eq!(mats(&r.outline), vec![0, 0, 4]);
    assert_eq!(r.opaque[2], (27, 6, 0));
    let total = r.glassy_inner.len() + r.special_opaque.len() + r.paint_order.len() + r.opaque.len()
        + r.glass.len() + r.inner_effect.len() + r.effect.len();
    assert_eq!(total, draws.len());
    assert!(flags[8].blended() && !flags[7].blended());
}

#[test]
fn faces_are_marked_by_kind() {
    assert_eq!(face_kind(false, false), 0);
    assert_eq!(face_kind(true, false), 1);
    assert_eq!(face_kind(true, true), 2);
    assert_eq!(face_kind(false, true), 2);
}
