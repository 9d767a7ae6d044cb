use rocom_pets::persona::{
    all, angry, clenched, crying, default_face, dizzy, emotes, face_for_clip, sleepy, smile,
    surprised, Expression, Persona, FACE_COLS, FACE_ROWS,
};

#[test]
fn default_is_the_baseline_and_multiplies_to_one() {
    // the baseline persona is 100% on every tendency, or it is just another persona
    let p = Persona::default();
    assert_eq!(p.id, "peaceful");
    assert_eq!(
        (p.sleepy_pct, p.bored_pct, p.emote_pct, p.run_pct, p.social_pct),
        (100, 100, 100, 100, 100)
    );
    assert_eq!(p.saved_id(), None, "the default persona is not stored");
    // the baseline has no favourite: it plays all six emotes
    assert_eq!(p.emote_pool().len(), emotes().len());
}

#[test]
fn ids_are_unique_and_round_trip() {
    for persona in all() {
        assert_eq!(Persona::by_id(persona.id), persona);
        // people editing the file by hand copy the display name
        assert_eq!(Persona::by_id(persona.name), persona);
    }
}

#[test]
fn an_unknown_persona_falls_back_to_default() {
    assert_eq!(Persona::by_id("乖巧"), Persona::default());
}

#[test]
fn every_emote_in_a_persona_is_a_real_one() {
    let known = emotes();
    for persona in all() {
        for name in persona.emote_pool() {
            assert!(known.contains(&name), "{}: emote {name} is not a known one", persona.name);
        }
        if persona.default_emote.is_some() {
            // the favourite comes first: picking an emote weights that position
            assert_eq!(persona.emote_pool().first().copied(), persona.default_emote);
        }
    }
}

#[test]
fn the_five_game_faces_are_all_represented() {
    let faces: Vec<&str> = all().iter().map(|p| p.face.name).collect();
    for want in ["默认", "微笑", "困倦", "哭哭", "生气"] {
        assert!(faces.contains(&want), "no persona wears the face {want}");
    }
}

#[test]
fn no_two_personas_share_a_non_default_face() {
    let mut seen = Vec::new();
    for persona in all() {
        let face = persona.face.name;
        if face == default_face().name {
            continue;
        }
        assert!(!seen.contains(&face), "two personas wear the face {face}");
        seen.push(face);
    }
    // the default-face personas differ by temperament: sleepiest / least sleepy >= 3
    let sleepy: Vec<u32> = all()
        .iter()
        .filter(|p| p.face.name == default_face().name)
        .map(|p| p.sleepy_pct)
        .collect();
    let lo = *sleepy.iter().min().unwrap();
    let hi = *sleepy.iter().max().unwrap();
    assert!(hi >= 3 * lo, "the default-face personas are too alike: {sleepy:?}");
}

#[test]
fn every_face_cell_is_inside_the_atlas() {
    for persona in all() {
        let (col, row) = persona.face.cell;
        assert!(col < FACE_COLS && row < FACE_ROWS, "{}: cell {:?} out of the atlas", persona.name, persona.face.cell);
    }
    // the default face is the top-left cell
    assert_eq!(default_face().cell, (0, 0));
    for face in [smile(), surprised(), angry(), sleepy(), crying(), clenched(), dizzy()] {
        let (col, row) = face.cell;
        assert!(col < FACE_COLS && row < FACE_ROWS, "{}: cell {:?} out of the atlas", face.name, face.cell);
    }
}

#[test]
fn face_cards_are_one_per_cell_and_never_number_one() {
    let faces = [default_face(), smile(), surprised(), angry(), sleepy(), crying(), clenched(), dizzy()];
    for face in faces {
        let card = face.card();
        assert!((2..=8).contains(&card), "{}: card {card} not in 2..8", face.name);
    }
    // only seven mesh faces: default and smile share card 2
    assert_eq!(default_face().card(), smile().card());
    let others = [surprised(), angry(), sleepy(), crying(), clenched(), dizzy()];
    let mut seen = vec![default_face().card()];
    for face in others {
        assert!(!seen.contains(&face.card()), "{}: card {} taken twice", face.name, face.card());
        seen.push(face.card());
    }
    // cards read the atlas by rows: (col, row) -> col + 2 row + 1
    assert_eq!(angry().card(), 4, "angry is at (1,1)");
    assert_eq!(clenched().card(), 7, "clenched is at (0,3)");
}

#[test]
fn cards_round_trip_through_from_card() {
    for face in [smile(), surprised(), angry(), sleepy(), crying(), clenched(), dizzy()] {
        assert_eq!(Expression::from_card(face.card()), Some(face), "card {} should be {}", face.card(), face.name);
    }
    // card 1 is the persona's own face, not a specific cell
    assert_eq!(Expression::from_card(1), None);
    assert_eq!(Expression::from_card(0), None);
    assert_eq!(Expression::from_card(9), None);
    // the game's curve values are card x 100
    assert_eq!(Expression::from_card(200 / 100), Some(smile()), "Happy=200");
    assert_eq!(Expression::from_card(400 / 100), Some(angry()), "Anger=400");
    assert_eq!(Expression::from_card(600 / 100), Some(crying()), "Sad=600");
    assert_eq!(Expression::from_card(700 / 100), Some(clenched()), "Fear=700");
}

#[test]
fn actions_map_to_the_faces_they_say_they_do() {
    for (clip, want) in [
        ("Anger", angry()),
        ("Sad", crying()),
        ("Fear", clenched()),
        ("Shock", surprised()),
        ("Happy", smile()),
        ("Relax", smile()),
        ("Show", smile()),
        ("CallOut", smile()),
        ("Alert", angry()),
        ("SleepStart", sleepy()),
        ("SleepLoop", sleepy()),
        ("SleepEnd", sleepy()),
        ("SleepStand", sleepy()),
    ] {
        let got = face_for_clip(clip);
        assert_eq!(got, Some(want), "{clip} should be {}", want.name);
    }
    for clip in ["Idle", "Walk", "Run", "JumpFall"] {
        assert_eq!(face_for_clip(clip), None, "{clip} keeps the face");
    }
}

#[test]
fn favourites_come_first_without_repeats() {
    let naive = Persona::by_id("naive");
    assert_eq!(naive.emote_pool(), vec!["Happy", "Show", "Anger"]);
    let playful = Persona::by_id("调皮");
    assert_eq!(playful.emote_pool(), vec!["Happy"]);
    let timid = Persona::by_id("timid");
    assert_eq!(timid.emote_pool(), vec!["Sad", "Fear"]);
    assert_eq!(timid.saved_id(), Some("timid".to_string()));
}
