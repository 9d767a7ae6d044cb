use rocom_pets::pack::resolve_face_card;

fn check_missing_card_fallback() {
    let full: Vec<u32> = (1..=8).collect();
    assert_eq!(resolve_face_card(&full, 5), 5, "use it when present");
    // a form without card 5 (sleepy): back to the default face
    let no_sleepy = [1, 2, 3, 4, 6, 7, 8];
    assert_eq!(resolve_face_card(&no_sleepy, 5), 2);
    // no card 1 but card 2 is there: the default face still shows
    let no_first = [2, 3, 4, 5, 6, 7, 8];
    assert_eq!(resolve_face_card(&no_first, 2), 2);
    // not even card 2: the smallest card rather than nothing
    assert_eq!(resolve_face_card(&[3, 6], 5), 3);
    // not a mesh face: unchanged
    assert_eq!(resolve_face_card(&[], 2), 2);
}

#[test]
fn gpu_a_missing_face_card_falls_back_instead_of_vanishing() {
    check_missing_card_fallback();
}

#[test]
fn view_a_missing_face_card_falls_back_instead_of_vanishing() {
    check_missing_card_fallback();
}
