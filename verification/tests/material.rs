use rocom_pets::material::{face_slot_of, is_glassy_target, material_role};

fn parents(list: &[&str]) -> Vec<String> {
    list.iter().map(|p| p.to_string()).collect()
}

#[test]
fn glassy_targets_end_in_by_and_derive_from_the_object_family() {
    let object = parents(&["MI_P_Object_Trans", "M_P_Object"]);
    assert!(is_glassy_target("MI_Gra_Miaomiao1_001_By", &object));
    assert!(is_glassy_target("mi_gra_miaomiao1_001_by3", &object));
    assert!(!is_glassy_target("MI_Gra_Miaomiao1_001_By12", &object));
    assert!(!is_glassy_target("MI_Gra_Miaomiao1_001_Body", &object));
    assert!(!is_glassy_target("MI_Gra_Miaomiao1_001_By", &parents(&["M_P_Eyes"])));
    assert!(!is_glassy_target("MI_Gra_Miaomiao1_001_By", &vec![]));
}

#[test]
fn face_slots_prefer_the_exported_track() {
    assert_eq!(face_slot_of("MI_X_Es1", Some("eye_1")), 1);
    assert_eq!(face_slot_of("MI_X_Mh1", Some("bogus")), 2);
    assert_eq!(face_slot_of("MI_X_Mh", None), 2);
    assert_eq!(face_slot_of("MI_X_Mh2a", None), 0);
    assert_eq!(face_slot_of("MI_X_Dynamic", None), 4);
    assert_eq!(face_slot_of("MI_X_Dynamic3", None), 6);
    assert_eq!(face_slot_of("MI_X_dynamic9", None), 0);
    assert_eq!(face_slot_of("MI_X_Es", None), 0);
    assert_eq!(face_slot_of("Mh", None), 2);
}

#[test]
fn a_material_is_classified_by_name_and_parents() {
    let role = material_role("MI_Gra_X_Mh1", &parents(&["MI_P_Eyes_Mesh"]), None);
    assert_eq!(role.key, "mi_gra_x_mh1");
    assert!(role.face && role.face_cards);
    assert_eq!(role.face_slot, 2);
    assert!(!role.glassy_target);
    let body = material_role("MI_Gra_X_By", &parents(&["M_P_Object"]), Some("eye"));
    assert!(!body.face && !body.face_cards && body.glassy_target);
    assert_eq!(body.face_slot, 0);
}
