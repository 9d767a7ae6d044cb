use rocom_pets::platform::{stage_ex_style, WS_EX_NOACTIVATE, WS_EX_NOREDIRECTIONBITMAP, WS_EX_TOOLWINDOW, WS_EX_TOPMOST, WS_EX_TRANSPARENT};

#[test]
fn passthrough_only_adds_the_transparent_style() {
    let base = WS_EX_NOREDIRECTIONBITMAP | WS_EX_TOPMOST | WS_EX_TOOLWINDOW | WS_EX_NOACTIVATE;
    assert_eq!(stage_ex_style(false), base);
    assert_eq!(stage_ex_style(true), base | WS_EX_TRANSPARENT);
    assert_eq!(stage_ex_style(false), 0x0820_0088);
    assert_eq!(stage_ex_style(true), 0x0820_00a8);
}
