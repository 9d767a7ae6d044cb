use rocom_pets::control::{
    code_of, control_from_message, control_of, is_tray_message, pack_play, write_tip, Control,
    SettingsPage, PLAY_CODE, WM_CONTROL, WM_TRAY,
};

#[test]
fn plain_commands_survive_a_message() {
    for c in [
        Control::TogglePassthrough,
        Control::ToggleMute,
        Control::Recall,
        Control::Quit,
        Control::Reload,
        Control::OpenSettings(SettingsPage::Packs),
    ] {
        let code = code_of(c).expect("a plain command has a code");
        assert_eq!(control_from_message(code as usize, 0), Some(c));
    }
    // the settings page does not travel: it opens on the pack page
    let code = code_of(Control::OpenSettings(SettingsPage::Common)).unwrap();
    assert_eq!(control_from_message(code as usize, 0), Some(Control::OpenSettings(SettingsPage::Packs)));
    // commands with in-process arguments have no code
    assert_eq!(code_of(Control::AddPet(3)), None);
    assert_eq!(code_of(Control::SwitchForm { slot: 1, form: 2 }), None);
    assert_eq!(code_of(Control::SetFps(60)), None);
    assert_eq!(control_of(0), None);
    assert_eq!(control_of(8), None);
}

#[test]
fn play_packs_slot_and_clip_into_one_word() {
    assert_eq!(code_of(Control::Play(1, 2)), Some(PLAY_CODE));
    let packed = pack_play(3, 17);
    assert_eq!(packed, (3 << 16) | 17);
    assert_eq!(control_from_message(PLAY_CODE as usize, packed as isize), Some(Control::Play(3, 17)));
    // arguments are cut to 16 bits each
    assert_eq!(pack_play(0x1_0001, 0x1_0002), (1 << 16) | 2);
}

#[test]
fn only_the_tray_message_is_a_tray_message() {
    assert!(is_tray_message(WM_TRAY));
    assert!(!is_tray_message(WM_CONTROL));
    assert!(!is_tray_message(0));
}

#[test]
fn tooltips_are_cut_to_fit_with_a_terminator() {
    let mut tip = vec![7u16; 6];
    write_tip(&mut tip, "宠物ab");
    assert_eq!(tip, vec![0x5ba0, 0x7269, 'a' as u16, 'b' as u16, 0, 7]);
    let mut small = vec![7u16; 3];
    write_tip(&mut small, "abcdef");
    assert_eq!(small, vec!['a' as u16, 'b' as u16, 0]);
    // a char outside the basic plane takes two units
    let mut wide = vec![1u16; 4];
    write_tip(&mut wide, "😀");
    assert_eq!(wide, vec![0xd83d, 0xde00, 0, 1]);
}
