use progress_engine::deck::{check, is_token, Deck, DeckCard, DeckEntry, Violation};
use progress_engine::legality::{Legalities, LegalityWord};

fn card(name: &str, type_line: &str, oracle: &str, ci: &[&str]) -> DeckCard {
    DeckCard {
        name: name.to_string(),
        type_line: type_line.to_string(),
        oracle: oracle.to_string(),
        ci: ci.iter().map(|s| s.to_string()).collect(),
        legalities: Legalities::from_words(&[("commander".to_string(), "legal".to_string())]),
        commander_legal: LegalityWord::new(""),
        any_number: Some(false),
    }
}

fn entry(qty: u32, card: DeckCard) -> DeckEntry {
    DeckEntry { qty, card }
}

fn hundred(mut entries: Vec<DeckEntry>, commanders: Vec<DeckEntry>) -> Deck {
    let have: u32 = entries.iter().map(|e| e.qty).sum::<u32>() + commanders.iter().map(|e| e.qty).sum::<u32>();
    entries.push(DeckEntry {
        qty: 100 - have,
        card: DeckCard { any_number: Some(true), ..card("Plains", "Basic Land — Plains", "", &["W"]) },
    });
    Deck { entries, commanders }
}

fn rules(v: &[Violation]) -> Vec<&str> {
    v.iter().map(|v| v.rule).collect()
}

fn teshar() -> DeckCard {
    card("Teshar, Ancestor's Apostle", "Legendary Creature — Bird Cleric", "Flying", &["W"])
}

#[test]
fn a_list_with_no_commander_gets_no_checks() {
    let deck = Deck { entries: vec![entry(4, card("Bolt", "Instant", "", &["R"]))], commanders: vec![] };
    assert!(check(&deck).is_empty());
}

#[test]
fn a_legal_hundred_card_list_has_nothing_to_say() {
    let deck = hundred(vec![entry(1, card("Swords", "Instant", "", &["W"]))], vec![entry(1, teshar())]);
    assert!(check(&deck).is_empty(), "{:?}", check(&deck));
}

#[test]
fn a_commander_that_cannot_command_is_named() {
    let deck = hundred(vec![], vec![entry(1, card("Sol Ring", "Artifact", "{T}: Add {C}{C}.", &[]))]);
    let found = check(&deck);
    assert_eq!(rules(&found), vec!["commander"]);
    assert_eq!(found[0].card.as_deref(), Some("Sol Ring"));
    assert!(found[0].detail.starts_with("Sol Ring is nominated as a commander"));
}

#[test]
fn a_card_outside_the_identity_is_named_with_both_identities() {
    let deck = hundred(vec![entry(1, card("Counterspell", "Instant", "", &["U"]))], vec![entry(1, teshar())]);
    let found = check(&deck);
    assert_eq!(rules(&found), vec!["color_identity"]);
    assert_eq!(
        found[0].detail,
        "Counterspell has colour identity U, which is outside W — the identity of Teshar, Ancestor's Apostle"
    );
}

#[test]
fn a_colourless_commander_leaves_the_identity_rule_unchecked() {
    let golos = card("Golos", "Legendary Artifact Creature — Golem", "", &[]);
    let deck = hundred(vec![entry(1, card("Counterspell", "Instant", "", &["U"]))], vec![entry(1, golos)]);
    assert!(check(&deck).is_empty());
}

#[test]
fn a_second_copy_breaks_singleton_but_basics_do_not() {
    let deck = hundred(vec![entry(2, card("Swords", "Instant", "", &["W"]))], vec![entry(1, teshar())]);
    let found = check(&deck);
    assert_eq!(rules(&found), vec!["singleton"]);
    assert_eq!(
        found[0].detail,
        "2x Swords — Commander is singleton outside basic lands and the cards that say otherwise"
    );
}

#[test]
fn banned_and_not_legal_are_different_mistakes() {
    let mut banned = card("Black Lotus", "Artifact", "", &[]);
    banned.legalities = Legalities::from_words(&[("commander".to_string(), "banned".to_string())]);
    let mut silent = card("Playtest", "Artifact", "", &[]);
    silent.legalities = Legalities::from_words(&[]);
    silent.commander_legal = LegalityWord::new("not_legal");
    let deck = hundred(vec![entry(1, banned), entry(1, silent)], vec![entry(1, teshar())]);
    let found = check(&deck);
    assert_eq!(rules(&found), vec!["format_legality", "format_legality"]);
    assert_eq!(found[0].detail, "Black Lotus is banned in Commander");
    assert_eq!(found[1].detail, "Playtest is not legal in Commander");
}

#[test]
fn the_deck_size_counts_the_command_zone() {
    let deck = Deck {
        entries: vec![entry(97, DeckCard { any_number: Some(true), ..card("Plains", "Basic Land — Plains", "", &["W"]) })],
        commanders: vec![entry(1, teshar())],
    };
    let found = check(&deck);
    assert_eq!(rules(&found), vec!["deck_size"]);
    assert_eq!(found[0].card, None);
    assert_eq!(
        found[0].detail,
        "a Commander deck is 100 cards; this list has 98 (97 in the library plus 1 in the command zone)"
    );
}

#[test]
fn a_token_shadowing_a_card_is_no_data_at_all() {
    assert!(is_token("Token Creature — Elf Druid"));
    assert!(is_token("Land // token Artifact"));
    assert!(!is_token("Creature — Tokenkeeper"));
    let elves = card("Llanowar Elves", "Token Creature — Elf Druid", "", &[]);
    let deck = hundred(vec![entry(3, elves)], vec![entry(1, teshar())]);
    assert!(check(&deck).is_empty());
}
