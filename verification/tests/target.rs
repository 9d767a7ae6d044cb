use rocom_pets::target::{factor, render_size, supersample, SUPERSAMPLE, SUPERSAMPLE_MAX_SIDE};

#[test]
fn a_desktop_sized_canvas_gets_supersampled() {
    assert_eq!(factor((384, 384), 2048), SUPERSAMPLE);
    assert_eq!(factor((1024, 1024), 2048), SUPERSAMPLE);
}

#[test]
fn an_oversized_canvas_falls_back_to_one() {
    assert_eq!(factor((1025, 800), 2048), 1);
    // a small machine: the device limit itself is 2048
    assert_eq!(factor((1500, 1500), 2048), 1);
}

#[test]
fn the_long_side_decides() {
    assert_eq!(factor((100, 1600), 2048), 1);
}

#[test]
fn an_empty_canvas_counts_as_one_pixel() {
    assert_eq!(factor((0, 0), 2), SUPERSAMPLE);
    assert_eq!(factor((0, 0), 1), 1);
    assert_eq!(render_size((0, 0), 8192), (2, 2));
}

#[test]
fn saturation_at_the_top_of_the_range() {
    // the doubled side saturates at u32::MAX, which only an unlimited limit admits
    assert_eq!(factor((u32::MAX, 1), u32::MAX), SUPERSAMPLE);
    assert_eq!(factor((u32::MAX, 1), u32::MAX - 1), 1);
}

#[test]
fn render_size_takes_the_device_limit_into_account() {
    assert_eq!(render_size((384, 200), 16384), (768, 400));
    assert_eq!(render_size((1024, 10), 16384), (2048, 20));
    assert_eq!(render_size((1025, 10), 16384), (1025, 10));
    // a device that only allows 1024 px textures
    assert_eq!(render_size((600, 300), 1024), (600, 300));
    assert_eq!(render_size((512, 300), 1024), (1024, 600));
    assert!(SUPERSAMPLE_MAX_SIDE == 2048);
}

#[test]
fn a_canvas_reports_the_factor_it_was_opened_with() {
    for (size, limit) in [((384, 384), 16384), ((1500, 20), 16384), ((0, 7), 4096), ((300, 300), 500)] {
        let render = render_size(size, limit);
        let cap = if SUPERSAMPLE_MAX_SIDE <= limit { SUPERSAMPLE_MAX_SIDE } else { limit };
        assert_eq!(supersample(render, size), factor(size, cap));
    }
    assert_eq!(supersample((10, 10), (0, 0)), 10);
    assert_eq!(supersample((0, 0), (10, 10)), 1);
}
