use progress_engine::grouping::GroupingError;
use progress_engine::index::{Card, Index, SCHEMA};
use progress_engine::legality::{Legalities, LegalityWord};
use progress_engine::library::{
    is_land, mana_source, DeckLine, Library, LibraryError, ManaDetail, Marked, Placement,
};
use progress_engine::mana::{ManaSource, Palette};
use progress_engine::matching::Order;
use progress_engine::outside::OutsideLibrary;
use progress_engine::report::{
    cannot_price_mana, stale_index_note, tag_gap_refusal,
};
use progress_engine::index::TagGap;
use progress_engine::text::{insert_sorted, text_less};

fn compare(a: String, b: String) -> Option<Order> {
    let x: f64 = a.parse().ok()?;
    let y: f64 = b.parse().ok()?;
    x.partial_cmp(&y).map(|o| match o {
        std::cmp::Ordering::Less => Order::Less,
        std::cmp::Ordering::Equal => Order::Equal,
        std::cmp::Ordering::Greater => Order::Greater,
    })
}

fn card(name: &str, type_line: &str, cmc: &str, produces: &[&str], tags: &[&str]) -> Card {
    Card {
        name: name.to_string(),
        oracle_id: None,
        layout: "normal".to_string(),
        ci: Vec::new(),
        colors: Vec::new(),
        type_line: type_line.to_string(),
        mana_cost: String::new(),
        cmc: cmc.to_string(),
        oracle: String::new(),
        full_oracle: None,
        keywords: Vec::new(),
        produces: produces.iter().map(|s| s.to_string()).collect(),
        rarity: String::new(),
        set: String::new(),
        faces: Vec::new(),
        legalities: Legalities::default(),
        commander_legal: LegalityWord::default(),
        any_number: None,
        game_changer: None,
        reserved: None,
        tags: tags.iter().map(|s| s.to_string()).collect(),
    }
}

fn index(tags: &[&str], schema: Option<u32>) -> Index {
    Index {
        cards: vec![
            card("Island", "Basic Land — Island", "0", &["U"], &[]),
            card("Hallowed Fountain", "Land — Plains Island", "0", &["W", "U"], &["conditional-tapland"]),
            card("Azorius Guildgate", "Land — Gate", "0", &["W", "U"], &["tapland"]),
            card("Opt", "Instant", "1", &[], &[]),
            card("Thassa's Oracle", "Creature — Merfolk Wizard", "2", &[], &[]),
            card("Teferi, Hero of Dominaria", "Legendary Planeswalker — Teferi", "5", &[], &[]),
            card("Sticker Sheet", "Stickers", "0", &[], &[]),
            card("Breya, Etherium Shaper", "Legendary Artifact Creature — Construct", "6", &[], &[]),
        ],
        schema,
        updated_at: Some("2024-01-01".to_string()),
        tags: tags.iter().map(|s| s.to_string()).collect(),
    }
}

fn line(name: &str, qty: u32, commander: bool, outside: bool) -> DeckLine {
    DeckLine { name: name.to_string(), categories: vec!["Main".to_string()], qty, commander, outside }
}

fn library(tags: &[&str], schema: Option<u32>) -> Library {
    let lines = vec![
        line("Breya, Etherium Shaper", 1, true, false),
        line("island", 30, false, false),
        line("Hallowed Fountain", 1, false, false),
        line("Azorius Guildgate", 1, false, false),
        line("Opt", 4, false, false),
        line("Thassa's Oracle", 1, false, true),
        line("Sticker Sheet", 1, false, false),
        line("Teferi, Hero of Dominaria", 1, false, false),
    ];
    match Library::join(&lines, &index(tags, schema), b"deck text") {
        Ok(l) => l,
        Err(unknown) => panic!("unknown: {unknown:?}"),
    }
}

#[test]
fn a_decklist_is_joined_line_by_line_to_the_index() {
    let lib = library(&["tapland", "conditional-tapland"], Some(SCHEMA));
    assert_eq!(lib.commander_names(), vec!["Breya, Etherium Shaper".to_string()]);
    let names: Vec<&str> = lib.entries.iter().map(|e| e.card.name.as_str()).collect();
    assert_eq!(names, vec!["Island", "Hallowed Fountain", "Azorius Guildgate", "Opt", "Teferi, Hero of Dominaria"]);
    assert_eq!(lib.size(), 30 + 1 + 1 + 4 + 1);
    assert_eq!(lib.excluded.len(), 1);
    assert_eq!(lib.excluded[0].name, "Sticker Sheet");
    assert_eq!(lib.excluded[0].card_type, OutsideLibrary::Stickers);
    assert_eq!(lib.entries[1].categories, vec!["Main".to_string()]);
    assert!(!lib.index_is_stale);
    assert_eq!(lib.index_updated_at.as_deref(), Some("2024-01-01"));
    assert_eq!(lib.deck_sha256.len(), 64);
    assert!(lib.has_lands());
    assert_eq!(Placement::Library, Placement::Library);
}

#[test]
fn unknown_cards_are_refused_together_in_list_order() {
    let lines = vec![line("Island", 1, false, false), line("Nonesuch", 1, false, false), line("Also Missing", 2, false, true)];
    match Library::join(&lines, &index(&[], Some(SCHEMA)), b"") {
        Ok(_) => panic!("unknown cards must be refused"),
        Err(unknown) => assert_eq!(unknown, vec!["Nonesuch".to_string(), "Also Missing".to_string()]),
    }
}

#[test]
fn a_library_is_grouped_by_what_each_card_matches() {
    let lib = library(&[], Some(SCHEMA));
    let queries = vec!["t:land".to_string(), "mv<=1".to_string()];
    let marked = vec![Marked { label: "picked".to_string(), members: vec![false, false, false, true, true] }];
    let g = lib.grouping_for(&queries, &marked, ManaDetail::Ignored, &compare).expect("groups");
    assert_eq!(g.queries(), &vec!["t:land".to_string(), "mv<=1".to_string(), "picked".to_string()]);
    assert_eq!(g.group_masks(), &vec![0b011u64, 0b110, 0b100]);
    assert_eq!(g.group_sizes(), &vec![32u32, 4, 1]);
    assert_eq!(g.population(), 37);
}

#[test]
fn modelling_mana_splits_lands_by_what_they_make() {
    let lib = library(&[], Some(SCHEMA));
    let queries = vec!["t:land".to_string()];
    let g = lib.grouping_for(&queries, &[], ManaDetail::Modelled, &compare).expect("groups");
    assert_eq!(g.group_masks(), &vec![1u64, 1, 0]);
    assert_eq!(g.group_sizes(), &vec![30u32, 2, 5]);
}

#[test]
fn a_bad_query_is_refused_by_name_and_too_many_names_by_the_grouping() {
    let lib = library(&[], Some(SCHEMA));
    let queries = vec!["t:land".to_string(), "zz:top".to_string()];
    match lib.grouping_for(&queries, &[], ManaDetail::Ignored, &compare) {
        Err(LibraryError::Query { query, .. }) => assert_eq!(query, "zz:top"),
        other => panic!("expected a query refusal, got {other:?}"),
    }
    let many: Vec<String> = (0..65).map(|i| format!("name:x{i}")).collect();
    match lib.grouping_for(&many, &[], ManaDetail::Ignored, &compare) {
        Err(LibraryError::Grouping(GroupingError::TooManyQueries(65))) => {}
        other => panic!("expected too many queries, got {other:?}"),
    }
}

#[test]
fn the_pilots_taplands_are_named_sorted_and_once() {
    let lines = vec![
        line("Hallowed Fountain", 1, false, false),
        line("Azorius Guildgate", 1, false, false),
        line("Hallowed Fountain", 1, false, false),
    ];
    let mut idx = index(&[], Some(SCHEMA));
    idx.cards.push(card("Breeding Pool", "Land — Forest Island", "0", &["G", "U"], &["conditional-tapland"]));
    let mut lines = lines;
    lines.push(line("Breeding Pool", 1, false, false));
    let lib = Library::join(&lines, &idx, b"").expect("known");
    assert_eq!(lib.conditional_taplands(), vec!["Breeding Pool".to_string(), "Hallowed Fountain".to_string()]);
}

#[test]
fn non_lands_matching_and_counts_read_the_same_queries() {
    let lib = library(&[], Some(SCHEMA));
    assert_eq!(
        lib.non_lands_matching("mv>=0", &compare).expect("parses"),
        vec!["Opt".to_string(), "Teferi, Hero of Dominaria".to_string()]
    );
    assert_eq!(lib.non_lands_matching("t:land", &compare).expect("parses"), Vec::<String>::new());
    assert_eq!(lib.matching("t:land", &compare).expect("parses"), 32);
    assert_eq!(lib.matching("mv=5", &compare).expect("parses"), 1);
    assert!(matches!(lib.matching("", &compare), Err(LibraryError::Query { .. })));
}

#[test]
fn a_land_is_a_card_with_the_word_land_on_either_face() {
    assert!(is_land(&card("Island", "Basic Land — Island", "0", &[], &[])));
    assert!(is_land(&card("Agadeem's Awakening", "Sorcery // Land", "1", &[], &[])));
    assert!(!is_land(&card("Landscaper", "Creature — Landscaper", "1", &[], &[])));
    assert!(!is_land(&card("Opt", "Instant", "1", &[], &[])));
}

#[test]
fn a_source_says_what_it_makes_and_whether_it_arrives_tapped() {
    assert_eq!(mana_source(&card("Opt", "Instant", "1", &["U"], &[])), ManaSource::Spell);
    assert_eq!(
        mana_source(&card("Fountain", "Land", "0", &["W", "U"], &["conditional-tapland"])),
        ManaSource::Land { enters_tapped: true, produces: Palette::from_letters(&["W", "U"]) }
    );
    assert_eq!(
        mana_source(&card("Island", "Basic Land — Island", "0", &["U"], &[])),
        ManaSource::Land { enters_tapped: false, produces: Palette::from_letters(&["U"]) }
    );
}

#[test]
fn the_legality_checks_read_the_library_as_a_deck() {
    let lib = library(&[], Some(SCHEMA));
    let deck = lib.deck();
    assert_eq!(deck.entries.len(), lib.entries.len());
    assert_eq!(deck.commanders[0].card.name, "Breya, Etherium Shaper");
    assert_eq!(deck.entries[0].qty, 30);
}

#[test]
fn a_stale_index_and_a_missing_tapland_tag_are_said_rather_than_priced() {
    let stale = library(&[], None);
    assert!(stale.index_is_stale);
    assert!(stale_index_note(&stale).expect("a note").starts_with("note: this index was built before"));
    assert!(cannot_price_mana(&stale).expect("a refusal").starts_with("this index was built before it recorded"));

    let untagged = library(&["surveil"], Some(SCHEMA));
    assert_eq!(stale_index_note(&untagged), None);
    let refusal = cannot_price_mana(&untagged).expect("a refusal");
    assert!(refusal.starts_with("this index does not carry otag:tapland or otag:conditional-tapland, so"), "{refusal}");
    assert!(refusal.contains("This index carries: surveil."), "{refusal}");

    let half = library(&["tapland"], Some(SCHEMA));
    assert!(cannot_price_mana(&half).expect("a refusal").starts_with("this index does not carry otag:conditional-tapland, so"));

    let full = library(&["tapland", "conditional-tapland"], Some(SCHEMA));
    assert_eq!(cannot_price_mana(&full), None);
}

#[test]
fn a_tag_gap_refusal_names_the_tags_and_what_the_index_has() {
    let lib = library(&["surveil", "scry"], Some(SCHEMA));
    let not_carried = tag_gap_refusal(&TagGap::NotCarried(vec!["mill".to_string()]), &lib);
    assert_eq!(
        not_carried,
        "this index does not carry otag:mill, so counting it would be zero by construction\n      rather than by measurement. This index carries: surveil, scry.\n      Check the spelling; a tag outside that list has to be added to pe-scryfall's\n      standard tags and fetched by `progress-engine sync`."
    );
    let none = tag_gap_refusal(&TagGap::NoneFetched(vec!["surveil".to_string(), "mill".to_string()]), &lib);
    assert!(none.starts_with("this index carries no oracle tags at all, so otag:surveil, otag:mill would match nothing here\n"));
}

#[test]
fn text_sorts_by_character_and_a_prefix_first() {
    let c = |s: &str| s.chars().collect::<Vec<char>>();
    assert!(text_less(&c("Island"), &c("Plains")));
    assert!(text_less(&c("Is"), &c("Island")));
    assert!(!text_less(&c("Island"), &c("Island")));
    assert!(text_less(&c("Zebra"), &c("apple")));
    let mut v: Vec<String> = Vec::new();
    for s in ["b", "a", "c", "a", "ab"] {
        insert_sorted(&mut v, s.to_string());
    }
    assert_eq!(v, vec!["a", "ab", "b", "c"]);
}
