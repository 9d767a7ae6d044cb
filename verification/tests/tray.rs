use rocom_pets::control::{Control, TrayPet};
use rocom_pets::tray::{add_menu, menu, pet_menu, title, MenuEntry, ADD_CHUNK};

fn pet(name: &str, forms: &[&str], current: usize) -> TrayPet {
    TrayPet { name: name.to_string(), forms: forms.iter().map(|f| f.to_string()).collect(), current_form: current }
}

fn label(e: &MenuEntry) -> &str {
    match e {
        MenuEntry::Check { label, .. } | MenuEntry::Item { label, .. } | MenuEntry::Sub { label, .. } => label,
        _ => "",
    }
}

#[test]
fn the_menu_lists_state_pets_and_quit() {
    let pets = vec![pet("喵喵", &["喵喵", "喵呜", "魔力猫"], 1), pet("火花", &["火花"], 0)];
    let available = vec!["波波拉".to_string()];
    let items = menu(true, Some(false), &pets, &available);
    assert_eq!(items.len(), 9);
    assert!(matches!(&items[0], MenuEntry::Check { checked: true, action: Control::TogglePassthrough, .. }));
    assert!(matches!(&items[1], MenuEntry::Item { action: Control::Recall, .. }));
    assert!(matches!(&items[2], MenuEntry::Check { checked: false, action: Control::ToggleMute, .. }));
    assert!(matches!(&items[3], MenuEntry::Separator));
    assert_eq!(label(&items[4]), "喵喵");
    assert_eq!(label(&items[5]), "火花");
    assert_eq!(label(&items[6]), "加一只");
    assert!(matches!(&items[7], MenuEntry::Separator));
    assert!(matches!(&items[8], MenuEntry::Item { action: Control::Quit, .. }));
    // no audio device: no voice entry; no packs: no add entry
    let bare = menu(false, None, &vec![], &vec![]);
    assert_eq!(bare.len(), 5);
    assert_eq!(label(&bare[0]), "鼠标穿透");
    assert!(matches!(&bare[2], MenuEntry::Separator) && matches!(&bare[3], MenuEntry::Separator));
    assert_eq!(label(&bare[4]), "退出");
}

#[test]
fn a_pet_menu_offers_forms_only_for_a_chain() {
    match pet_menu(&pet("喵喵", &["喵喵", "喵呜"], 1), 4) {
        MenuEntry::Sub { label, items, .. } => {
            assert_eq!(label, "喵喵");
            assert_eq!(items.len(), 3);
            match &items[0] {
                MenuEntry::Forms { slot, selected, options } => {
                    assert_eq!((*slot, *selected), (4, 1));
                    assert_eq!(options, &vec!["喵喵".to_string(), "喵呜".to_string()]);
                }
                _ => panic!("a choice of form first"),
            }
            assert!(matches!(&items[2], MenuEntry::Item { action: Control::RemovePet(4), .. }));
        }
        _ => panic!("a sub-menu"),
    }
    match pet_menu(&pet("火花", &["火花"], 0), 0) {
        MenuEntry::Sub { items, .. } => {
            assert_eq!(items.len(), 1);
            assert!(matches!(&items[0], MenuEntry::Item { action: Control::RemovePet(0), .. }));
        }
        _ => panic!("a sub-menu"),
    }
}

#[test]
fn long_pack_lists_are_cut_into_chunks() {
    let short: Vec<String> = (0..3).map(|i| format!("p{i}")).collect();
    let flat = add_menu(&short);
    assert_eq!(flat.len(), 3);
    assert!(matches!(&flat[2], MenuEntry::Item { action: Control::AddPet(2), .. }));

    let long: Vec<String> = (0..50).map(|i| format!("p{i:02}")).collect();
    let chunks = add_menu(&long);
    assert_eq!(chunks.len(), 3);
    assert_eq!(label(&chunks[0]), "p00 … p23");
    assert_eq!(label(&chunks[2]), "p48 … p49");
    match &chunks[1] {
        MenuEntry::Sub { items, .. } => {
            assert_eq!(items.len(), ADD_CHUNK);
            assert!(matches!(&items[0], MenuEntry::Item { action: Control::AddPet(24), .. }));
        }
        _ => panic!("a chunk is a sub-menu"),
    }
    let exact: Vec<String> = (0..48).map(|i| format!("q{i}")).collect();
    assert_eq!(add_menu(&exact).len(), 2);
}

#[test]
fn the_title_names_who_is_on_stage() {
    assert_eq!(title(&vec![]), "rocom-pets");
    assert_eq!(title(&vec![pet("喵喵", &[], 0)]), "rocom-pets — 喵喵");
    assert_eq!(title(&vec![pet("喵喵", &[], 0), pet("火花", &[], 0), pet("a", &[], 0)]), "rocom-pets — 喵喵 等 3 只");
}
