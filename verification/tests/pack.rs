use rocom_pets::pack::{
    face_card, face_slot, face_track, face_tracks, fallback_name, file_name_of, file_stem_of,
    find_entry, form_index, sort_by_name, str_before, schema_supported, PackEntry, MAX_FACE_SLOTS, SUPPORTED_SCHEMA,
};

fn chars(s: &str) -> Vec<char> {
    s.chars().collect()
}

fn entry(name: &str, forms: &[&str], path: &str) -> PackEntry {
    PackEntry {
        name: name.to_string(),
        forms: forms.iter().map(|f| f.to_string()).collect(),
        path: path.to_string(),
        size: 0,
    }
}

#[test]
fn face_slots_are_fixed_numbers() {
    let names = ["eye", "eye_1", "mouth", "mouth_1", "dynamic1", "dynamic2", "dynamic3", "dynamic4"];
    for (i, n) in names.iter().enumerate() {
        assert_eq!(face_slot(n), Some(i));
    }
    assert_eq!(face_slot("dynamic5"), None);
    assert_eq!(face_slot("Eye"), None);
    assert_eq!(MAX_FACE_SLOTS, 8);
}

#[test]
fn face_curves_land_in_their_slots_with_cards_clamped() {
    assert_eq!(face_card(0), 1);
    assert_eq!(face_card(5), 5);
    assert_eq!(face_card(12), 8);
    assert_eq!(face_track(&vec![(0, 3), (500, 9), (900, -1)]), vec![(0, 3), (500, 8), (900, 1)]);
    let raw = vec![
        ("mouth".to_string(), vec![(0, 7)]),
        ("sparkle".to_string(), vec![(0, 2)]),
        ("eye".to_string(), vec![(0, 3), (1200, 2)]),
    ];
    let tracks = face_tracks(&raw);
    assert_eq!(tracks.len(), MAX_FACE_SLOTS);
    assert_eq!(tracks[0], vec![(0, 3), (1200, 2)]);
    assert_eq!(tracks[2], vec![(0, 7)]);
    assert!(tracks[1].is_empty() && tracks[4].is_empty());
}

#[test]
fn a_chain_reads_left_to_right() {
    assert_eq!(entry("喵喵", &["喵喵", "喵呜", "魔力猫"], "/p/喵喵").chain(), "喵喵 → 喵呜 → 魔力猫");
    assert_eq!(entry("火花", &[], "/p/火花").chain(), "火花");
}

#[test]
fn an_entry_answers_to_its_name_its_file_and_its_stem() {
    let entries = vec![
        entry("波波拉", &[], "/packs/bobola"),
        entry("喵喵", &[], "/packs/喵喵.rkpet"),
    ];
    assert_eq!(find_entry(&entries, "喵喵"), Some(1));
    assert_eq!(find_entry(&entries, "喵喵.rkpet"), Some(1));
    assert_eq!(find_entry(&entries, "bobola"), Some(0));
    assert_eq!(find_entry(&entries, "波波拉"), Some(0));
    assert_eq!(find_entry(&entries, "nobody"), None);
}

#[test]
fn file_names_as_path_sees_them() {
    assert_eq!(file_name_of("/a/b.rkpet"), Some(chars("b.rkpet")));
    assert_eq!(file_name_of("/a/b/"), Some(chars("b")));
    assert_eq!(file_name_of("/a/b/."), Some(chars("b")));
    assert_eq!(file_name_of("/a/.."), None);
    assert_eq!(file_name_of("/"), None);
    assert_eq!(file_stem_of("/a/b.rkpet"), Some(chars("b")));
    assert_eq!(file_stem_of("/a/.hidden"), Some(chars(".hidden")));
    assert_eq!(file_stem_of("/a/x.tar.gz"), Some(chars("x.tar")));
}

#[test]
fn unreadable_packs_are_listed_by_file() {
    assert_eq!(fallback_name("/packs/喵喵.rkpet", true), "喵喵");
    assert_eq!(fallback_name("/packs/喵喵.d", false), "喵喵.d");
    assert_eq!(fallback_name("/", false), "?");
}

#[test]
fn forms_are_found_by_asset_or_display_name() {
    let forms = vec![
        ("Gra_MiaoMiao1_001".to_string(), "喵喵".to_string()),
        ("Gra_MiaoMiao2_001".to_string(), "喵呜".to_string()),
    ];
    assert_eq!(form_index(&forms, None), Some(0));
    assert_eq!(form_index(&forms, Some("喵呜")), Some(1));
    assert_eq!(form_index(&forms, Some("Gra_MiaoMiao1_001")), Some(0));
    assert_eq!(form_index(&forms, Some("魔力猫")), None);
}

#[test]
fn newer_schemas_are_refused() {
    assert!(schema_supported(SUPPORTED_SCHEMA));
    assert!(schema_supported(0));
    assert!(!schema_supported(SUPPORTED_SCHEMA + 1));
}

#[test]
fn the_pack_list_is_sorted_by_name_keeping_ties_in_order() {
    let entries = vec![
        entry("喵喵", &[], "/p/b"),
        entry("火花", &[], "/p/a"),
        entry("Zed", &[], "/p/z"),
        entry("喵喵", &[], "/p/a"),
        entry("Alpha", &[], "/p/y"),
    ];
    let sorted = sort_by_name(entries);
    let seen: Vec<(&str, &str)> = sorted.iter().map(|e| (e.name.as_str(), e.path.as_str())).collect();
    assert_eq!(seen, vec![("Alpha", "/p/y"), ("Zed", "/p/z"), ("喵喵", "/p/b"), ("喵喵", "/p/a"), ("火花", "/p/a")]);
    assert!(sort_by_name(Vec::new()).is_empty());
}

#[test]
fn names_compare_as_strings_do() {
    for (a, b) in [("a", "b"), ("ab", "a"), ("a", "ab"), ("", "a"), ("", ""), ("喵", "火"), ("Z", "a"), ("same", "same")] {
        assert_eq!(str_before(a, b), a < b, "{a} vs {b}");
    }
}
