use progress_engine::index::{keyname, urlencode, KeywordVocabulary};
use progress_engine::library::{exclusion_note, Excluded};
use progress_engine::outside::OutsideLibrary;

#[test]
fn a_name_is_keyed_trimmed_and_lowercased() {
    assert_eq!(keyname("  Sol Ring\t"), "sol ring");
    assert_eq!(keyname("ÆTHERSNIPE"), "æthersnipe");
    assert_eq!(keyname("Rogue's Passage"), "rogue's passage");
}

#[test]
fn the_vocabulary_ignores_case_and_knows_whether_it_knows_anything() {
    let v = KeywordVocabulary::from_keywords(&["Flying".to_string(), "Double strike".to_string()]);
    assert!(v.contains("flying"));
    assert!(v.contains("DOUBLE STRIKE"));
    assert!(!v.contains("double"));
    assert!(!v.is_empty());
    assert!(KeywordVocabulary::from_keywords(&[]).is_empty());
}

#[test]
fn a_tag_is_percent_encoded_outside_the_unreserved_set() {
    assert_eq!(urlencode("surveil-land"), "surveil-land");
    assert_eq!(urlencode("a b"), "a%20b");
    assert_eq!(urlencode("x/y~z"), "x%2Fy~z");
    assert_eq!(urlencode("\n"), "%0A");
    assert_eq!(urlencode("é"), "%E9");
    assert_eq!(urlencode("→"), "%2192");
}

#[test]
fn excluded_cards_are_listed_with_their_count_and_type() {
    assert_eq!(exclusion_note(&[]), None);
    let one = [Excluded { name: "Sol Talisman".into(), qty: 1, card_type: OutsideLibrary::Stickers }];
    assert_eq!(
        exclusion_note(&one).unwrap(),
        "note: 1 card never in the library and not counted: 1x Sol Talisman (Stickers)"
    );
    let two = [
        Excluded { name: "Lair".into(), qty: 2, card_type: OutsideLibrary::Dungeon },
        Excluded { name: "Plane X".into(), qty: 1, card_type: OutsideLibrary::Plane },
    ];
    assert_eq!(
        exclusion_note(&two).unwrap(),
        "note: 3 cards never in the library and not counted: 2x Lair (Dungeon), 1x Plane X (Plane)"
    );
}
