use rocom_pets::glassy::{
    assets_ready, common_assets, Glassy, GlassyCatalog, GlassyColor, GlassyParticle, HiddenGlass,
    Mutation, SharedTextures,
};

const DEFAULT_MAIN_TEX: &str = "Tex_PetGlassy_007_D";

/// A few rows of the game's tables, as the tests below need them.
fn catalog() -> GlassyCatalog {
    GlassyCatalog {
        colors: vec![
            GlassyColor { id: 1, name: "纯白".to_string(), ui_color_1: 0xffffff, ui_color_2: 0xeeeeee },
            GlassyColor { id: 33, name: "亮X暗 - 浅紫橙".to_string(), ui_color_1: 0xc8a2ff, ui_color_2: 0xffa050 },
        ],
        particles: vec![
            GlassyParticle { id: 1, name: "四角星".to_string(), tex: "Tex_PetGlassyStar_004".to_string() },
            GlassyParticle { id: 3, name: "圆点".to_string(), tex: "Tex_PetGlassyStar_001".to_string() },
        ],
        hidden: vec![
            HiddenGlass {
                id: 1,
                name: "暗夜拾光".to_string(),
                season: true,
                main_tex: "T_PetGlassyNoiseS1_001".to_string(),
                star_tex: "T_PetGlassyStarS1_001".to_string(),
                season_pets: vec![3001, 3002],
            },
            HiddenGlass {
                id: 3,
                name: "铅字幻梦".to_string(),
                season: true,
                main_tex: "T_PetGlassyNoiseS3_001".to_string(),
                star_tex: "T_PetGlassyStarS3_001".to_string(),
                season_pets: vec![3230, 3231, 3232, 3233],
            },
            HiddenGlass {
                id: 1000,
                name: "黑白".to_string(),
                season: false,
                main_tex: "T_PetGlassyNoise_BW".to_string(),
                star_tex: "T_PetGlassyStar_BW".to_string(),
                season_pets: vec![],
            },
        ],
    }
}

#[test]
fn glass_value_roundtrip() {
    let cat = catalog();
    let g = Glassy::Common { color: 33, particle: 1 };
    assert_eq!(g.glass_value(), 1_048_609);
    assert_eq!(Glassy::from_glass_info(1, 1_048_609), Some(g));
    assert_eq!(g.label(&cat), "四角星 · 亮X暗 - 浅紫橙");
}

#[test]
fn season_art_only_for_the_listed_pets() {
    let cat = catalog();
    let qz = Glassy::Hidden { id: 3 };
    assert!(qz.uses_season_art(&cat, 3232), "listed pet");
    assert!(!qz.uses_season_art(&cat, 3438), "not on the list: the generic override");
    // the permanent look has no seasonal art
    assert!(!Glassy::Hidden { id: 1000 }.uses_season_art(&cat, 3232));
    // common looks never do
    assert!(!Glassy::Common { color: 1, particle: 1 }.uses_season_art(&cat, 3232));
}

#[test]
fn only_the_textures_this_look_needs() {
    let cat = catalog();
    let shiny = Mutation { shiny: true, glassy: None };
    assert!(shiny.shared_assets(&cat).is_empty(), "shiny needs no shared texture");

    let common = Mutation { shiny: false, glassy: Some(Glassy::Common { color: 1, particle: 1 }) };
    assert_eq!(common.shared_assets(&cat), vec![DEFAULT_MAIN_TEX.to_string(), "Tex_PetGlassyStar_004".to_string()]);

    let season = cat.hidden.iter().find(|h| h.season).expect("a seasonal look");
    let dressed = Mutation { shiny: true, glassy: Some(Glassy::Hidden { id: season.id }) };
    assert_eq!(
        dressed.shared_assets(&cat),
        vec![season.main_tex.clone(), season.star_tex.clone(), DEFAULT_MAIN_TEX.to_string()],
        "hidden looks still need the shared pattern for the outline"
    );

    let plain = cat.hidden.iter().find(|h| !h.season).expect("a permanent look");
    assert_eq!(
        Mutation { shiny: false, glassy: Some(Glassy::Hidden { id: plain.id }) }.shared_assets(&cat).len(),
        3,
        "the permanent look brings its own set, and the shared pattern too"
    );
}

#[test]
fn config_strings_round_trip() {
    let cat = catalog();
    let common = Glassy::Common { color: 33, particle: 3 };
    for m in [
        Mutation { shiny: true, glassy: None },
        Mutation { shiny: false, glassy: Some(common) },
        Mutation { shiny: true, glassy: Some(common) },
        Mutation { shiny: true, glassy: Some(Glassy::Hidden { id: 1000 }) },
        Mutation { shiny: false, glassy: Some(Glassy::Hidden { id: 3 }) },
    ] {
        let text = m.to_config(&cat).expect("every non-plain look can be written");
        assert_eq!(Mutation::from_config(&text, &cat), Some(m), "{text}");
    }
    assert_eq!(
        Mutation { shiny: false, glassy: Some(common) }.to_config(&cat).as_deref(),
        Some("炫彩:3/33")
    );
    assert_eq!(
        Mutation { shiny: true, glassy: Some(Glassy::Hidden { id: 1000 }) }.to_config(&cat).as_deref(),
        Some("异色+炫彩:黑白")
    );
    // the plain look is not written
    assert_eq!(Mutation::default().to_config(&cat), None);
    // what is not understood is refused, not taken as plain
    assert_eq!(Mutation::from_config("炫彩:不存在的款", &cat), None);
    assert_eq!(Mutation::from_config("闪光", &cat), None);
    assert_eq!(Mutation::from_config("", &cat), None);
    // one axis given twice is refused
    assert_eq!(Mutation::from_config("异色+异色", &cat), None);
    assert_eq!(Mutation::from_config("炫彩:黑白+炫彩:3/33", &cat), None);
}

#[test]
fn shiny_and_glassy_are_independent() {
    let cat = catalog();
    let shiny_only = Mutation { shiny: true, glassy: None };
    assert!(shiny_only.glassy.is_none());
    assert!(!shiny_only.is_plain());

    let both = Mutation { shiny: true, glassy: Some(Glassy::Hidden { id: 3 }) };
    assert!(!both.shared_assets(&cat).is_empty());
    assert_eq!(both.label(&cat), "异色 · 铅字幻梦");
}

#[test]
fn unknown_entries_are_marked_not_dropped() {
    let cat = catalog();
    assert_eq!(Glassy::Common { color: 99, particle: 1 }.label(&cat), "四角星 · ?");
    assert_eq!(Glassy::from_glass_info(2, 1000), Some(Glassy::Hidden { id: 1000 }));
    assert_eq!(Glassy::from_glass_info(3, 1000), None);
    assert!(Mutation::default().is_plain());
    // an unknown hidden id is written as its number
    assert_eq!(
        Mutation { shiny: false, glassy: Some(Glassy::Hidden { id: 77 }) }.to_config(&cat).as_deref(),
        Some("炫彩:77")
    );
}

#[test]
fn shared_textures_store_and_report_what_is_missing() {
    let cat = catalog();
    let mut store = SharedTextures::new();
    assert_eq!(store.embedded_count(), 0);
    assert!(!assets_ready(&cat, &store));
    let look = Mutation { shiny: false, glassy: Some(Glassy::Common { color: 1, particle: 3 }) };
    assert_eq!(
        look.missing_assets(&cat, &store),
        vec![DEFAULT_MAIN_TEX.to_string(), "Tex_PetGlassyStar_001".to_string()]
    );
    store.put(DEFAULT_MAIN_TEX, vec![1, 2, 3]);
    assert!(store.has(DEFAULT_MAIN_TEX));
    assert_eq!(store.get(DEFAULT_MAIN_TEX), Some(vec![1, 2, 3]));
    assert_eq!(look.missing_assets(&cat, &store), vec!["Tex_PetGlassyStar_001".to_string()]);
    // putting again replaces
    store.put(DEFAULT_MAIN_TEX, vec![9]);
    assert_eq!(store.embedded(DEFAULT_MAIN_TEX), Some(&vec![9]));
    assert_eq!(store.embedded_count(), 1);
    for name in common_assets(&cat) {
        store.put_shared(&name, vec![0]);
    }
    assert!(store.has_shared("Tex_PetGlassyStar_004"));
    assert_eq!(store.shared("nope"), None);
    assert!(assets_ready(&cat, &store));
    assert!(look.missing_assets(&cat, &store).is_empty());
    assert_eq!(common_assets(&cat).len(), 3);
}
