use progress_engine::colors::Colors;
use progress_engine::legality::{
    commander_route, has_basic_supertype, identity_fits_within, is_background, is_legendary_creature,
    says_it_can_be_your_commander, CommanderLegality, CommanderRoute, Legalities, Legality, LegalityWord,
};
use progress_engine::outside::{outside_library, OutsideLibrary};

fn colors(letters: &str) -> Colors {
    Colors::from_letters(letters).expect("colour letters should parse")
}

fn ci(letters: &[&str]) -> Vec<String> {
    letters.iter().map(|s| s.to_string()).collect()
}

#[test]
fn a_word_the_index_grows_later_is_unknown_rather_than_illegal() {
    for word in ["restricted", "future", ""] {
        let w = LegalityWord::new(word);
        assert_eq!(w.commander(), CommanderLegality::Unknown, "word {word:?}");
        assert_eq!(w.commander().permits_play(), None, "word {word:?}");
    }
    assert!(LegalityWord::new("").is_empty());
    assert_eq!(LegalityWord::new("legal").as_str(), "legal");
}

#[test]
fn the_three_words_the_index_actually_uses() {
    let cases = [
        ("legal", CommanderLegality::Legal, Some(true)),
        ("not_legal", CommanderLegality::NotLegal, Some(false)),
        ("banned", CommanderLegality::Banned, Some(false)),
    ];
    for (word, want, playable) in cases {
        assert_eq!(CommanderLegality::from_word(word), want);
        assert_eq!(want.permits_play(), playable);
    }
}

#[test]
fn the_ordinary_route_to_the_command_zone_is_a_legendary_creature() {
    assert_eq!(
        commander_route(
            "Thrasios, Triton Hero",
            "Legendary Creature — Merfolk Wizard",
            "Partner (You can have two commanders if both have partner.)"
        ),
        Some(CommanderRoute::LegendaryCreature)
    );
}

#[test]
fn ordinary_cards_cannot_command() {
    let cases = [
        ("The One Ring", "Legendary Artifact"),
        ("Reclamation Sage", "Creature — Elf Shaman"),
        ("Jace, the Mind Sculptor", "Legendary Planeswalker — Jace"),
        (
            "Delver of Secrets // Insectile Aberration",
            "Creature — Human Wizard // Legendary Creature — Human Insect",
        ),
    ];
    for (name, type_line) in cases {
        assert_eq!(commander_route(name, type_line, ""), None, "{name}");
    }
}

#[test]
fn a_card_that_grants_itself_the_command_zone_in_its_own_text() {
    assert_eq!(
        commander_route(
            "Aminatou, the Fateshifter",
            "Legendary Planeswalker — Aminatou",
            "+1: Draw a card, then put a card from your hand on top of your library.\nAminatou, the Fateshifter can be your commander."
        ),
        Some(CommanderRoute::SaysSo)
    );
    assert_eq!(
        commander_route(
            "Svega, the Unconventional",
            "Legendary Planeswalker — Svega",
            "Landfall — Whenever a land enters under your control, put a loyalty counter on target planeswalker.\nSvega can be your commander."
        ),
        Some(CommanderRoute::SaysSo)
    );
    assert_eq!(
        commander_route(
            "Ransack, the Lab",
            "Sorcery",
            "Spell commander (This card can be your commander. In Limited, it can partner like other monocolored legends.)\nLook at the top three cards of your library."
        ),
        Some(CommanderRoute::SaysSo)
    );
}

#[test]
fn a_background_commands_as_a_background_not_by_its_reminder_text() {
    assert_eq!(
        commander_route(
            "Wizard from Beyond",
            "Legendary Enchantment — Background",
            "Create a Character (Any nonlegendary creature can choose this as its Background. It becomes legendary and can be your commander.)\nCommander creatures you own are Clerics, Rogues, Warriors, and Wizards in addition to their other types."
        ),
        Some(CommanderRoute::Background)
    );
}

#[test]
fn a_grant_must_name_the_card_it_is_printed_on() {
    assert_eq!(commander_route("Cid", "Sorcery", "Lucid can be your commander."), None);
    assert!(!says_it_can_be_your_commander("Cid", "Lucid can be your commander."));
    assert!(says_it_can_be_your_commander("Cid", "(Cid can be your commander.)"));
}

#[test]
fn colour_identity_inside_and_outside_the_deck_s_colours() {
    let kodamas_reach = ci(&["G"]);
    assert!(identity_fits_within(&kodamas_reach, colors("BG")));
    assert!(identity_fits_within(&kodamas_reach, colors("G")));
    assert!(!identity_fits_within(&kodamas_reach, colors("WU")));
    let trophy = ci(&["B", "G"]);
    assert!(identity_fits_within(&trophy, colors("BG")));
    assert!(!identity_fits_within(&trophy, colors("G")));
}

#[test]
fn a_colourless_card_fits_every_identity_and_an_empty_one_admits_only_those() {
    let sol_ring = ci(&[]);
    assert!(identity_fits_within(&sol_ring, colors("WUBRG")));
    assert!(identity_fits_within(&sol_ring, colors("G")));
    assert!(identity_fits_within(&sol_ring, Colors::default()));
    assert!(!identity_fits_within(&ci(&["G"]), Colors::default()));
}

#[test]
fn type_line_words_are_whole_words_on_the_front_face() {
    assert!(is_legendary_creature("Legendary Creature — Elf"));
    assert!(!is_legendary_creature("Creature — Elf // Legendary Creature — Elf"));
    assert!(has_basic_supertype("Basic Snow Land — Forest"));
    assert!(!has_basic_supertype("Land — Forest Basic"));
    assert!(is_background("Legendary Enchantment — Background"));
    assert!(!is_background("Background Enchantment"));
}

#[test]
fn legalities_read_one_letter_per_format() {
    let words = vec![
        ("commander".to_string(), "banned".to_string()),
        ("vintage".to_string(), "restricted".to_string()),
        ("modern".to_string(), "legal".to_string()),
        ("someday".to_string(), "legal".to_string()),
    ];
    let l = Legalities::from_words(&words);
    assert_eq!(l.get("commander"), Some(Legality::Banned));
    assert_eq!(l.get("vintage"), Some(Legality::Restricted));
    assert_eq!(l.get("modern"), Some(Legality::Legal));
    assert_eq!(l.get("pauper"), Some(Legality::Unknown));
    assert_eq!(l.get("pauperr"), None);
    assert_eq!(l.commander(), CommanderLegality::Banned);
    assert!(!l.is_silent());
    assert!(Legalities::default().is_silent());
    assert_eq!(Legalities::default().get("modern"), Some(Legality::Unknown));
    assert_eq!(Legality::Restricted.permits_play(), Some(true));
    assert_eq!(Legality::from_word("not_legal").permits_play(), Some(false));
}

#[test]
fn cards_outside_the_library_are_found_by_whole_word() {
    assert_eq!(outside_library("Plane — Dominaria"), Some(OutsideLibrary::Plane));
    assert_eq!(outside_library("Legendary Planeswalker — Jace"), None);
    assert_eq!(outside_library("Artifact — Attraction"), Some(OutsideLibrary::Attraction));
    assert_eq!(outside_library("Creature — Elf // Scheme"), Some(OutsideLibrary::Scheme));
    assert_eq!(OutsideLibrary::Stickers.as_str(), "Stickers");
}

/// A card as an index that wrote only these fields would hold it.
fn indexed(name: &str, type_line: &str, any_number: Option<bool>, commander_legal: &str) -> progress_engine::index::Card {
    progress_engine::index::Card {
        name: name.to_string(),
        oracle_id: None,
        layout: String::new(),
        ci: Vec::new(),
        colors: Vec::new(),
        type_line: type_line.to_string(),
        mana_cost: String::new(),
        cmc: "0".to_string(),
        oracle: String::new(),
        full_oracle: None,
        keywords: Vec::new(),
        produces: Vec::new(),
        rarity: String::new(),
        set: String::new(),
        faces: Vec::new(),
        legalities: Legalities::default(),
        commander_legal: LegalityWord::new(commander_legal),
        any_number,
        game_changer: None,
        reserved: None,
        tags: Vec::new(),
    }
}

#[test]
fn an_absent_legality_field_is_unknown_rather_than_illegal() {
    let solemn = indexed("Solemn Simulacrum", "Artifact Creature — Golem", None, "");
    assert_eq!(solemn.commander_legality(), CommanderLegality::Unknown);
    assert_eq!(solemn.may_be_played_in_commander(), None);
}

#[test]
fn the_basic_supertype_lifts_the_limit_whatever_any_number_says() {
    for type_line in [
        "Basic Land — Forest",
        "Basic Land",
        "Basic Snow Land — Island",
        "Basic Snow Land",
        "Basic Creature — Shapeshifter",
    ] {
        for any_number in [Some(false), None] {
            let c = indexed("Whatever", type_line, any_number, "");
            assert_eq!(
                c.may_appear_any_number_of_times(),
                Some(true),
                "type line {type_line:?} with {any_number:?}"
            );
        }
    }
}

#[test]
fn a_land_that_merely_has_a_basic_land_type_is_still_singleton() {
    for type_line in ["Land — Mountain Forest", "Land Creature — Forest Dryad", "Snow Land"] {
        let c = indexed("Whatever", type_line, Some(false), "");
        assert_eq!(c.may_appear_any_number_of_times(), Some(false), "type line {type_line:?}");
    }
}

#[test]
fn a_card_that_says_so_may_be_repeated() {
    let petitioners = indexed("Persistent Petitioners", "Creature — Human Advisor", Some(true), "legal");
    assert_eq!(petitioners.may_appear_any_number_of_times(), Some(true));
}

#[test]
fn an_absent_any_number_is_unknown_rather_than_a_singleton_violation() {
    let petitioners = indexed("Persistent Petitioners", "Creature — Human Advisor", None, "");
    assert_eq!(petitioners.may_appear_any_number_of_times(), None);
}

#[test]
fn the_format_table_is_read_before_the_older_single_word() {
    let mut c = indexed("Whatever", "Creature", None, "banned");
    assert_eq!(c.commander_legality(), CommanderLegality::Banned);
    c.legalities = Legalities::from_words(&[("commander".to_string(), "legal".to_string())]);
    assert_eq!(c.commander_legality(), CommanderLegality::Legal);
    assert_eq!(c.may_be_played_in_commander(), Some(true));
    assert_eq!(c.commander_route(), None);
    assert!(c.identity_fits_within(colors("w")));
    assert_eq!(c.full_oracle(), "");
    c.full_oracle = Some("Flying (It can't be blocked.)".to_string());
    assert_eq!(c.full_oracle(), "Flying (It can't be blocked.)");
    assert_eq!(c.outside_library(), None);
}
