use progress_engine::engine::Plan;
use progress_engine::report::{
    assumed_tapped_note, battlefield_refusal, effect_notes, estimate_scope, land_drop_note,
    mana_beside_effects_refusal, method_of, query_notes, sampled_note, sha256_hex,
    unknown_keyword_refusal, verdict_line, zone_notes, EffectUse, Estimated, LandDropUse, QueryMatch,
    ZoneUse,
};

#[test]
fn nothing_estimated_is_one_false_flag_per_question() {
    let e = Estimated::none(Plan { criteria: 2, expectations: 1 });
    assert_eq!(e.criteria, vec![false, false]);
    assert_eq!(e.expectations, vec![false]);
    assert!(!e.any());
    assert!(!e.all());
    let mixed = Estimated { criteria: vec![true, false], expectations: vec![] };
    assert!(mixed.any());
    assert!(!mixed.all());
    let every = Estimated { criteria: vec![true], expectations: vec![true] };
    assert!(every.all());
    assert!(Estimated::default().all(), "vacuously");
}

#[test]
fn an_answer_says_which_engine_gave_it() {
    assert_eq!(method_of(true), "sampled");
    assert_eq!(method_of(false), "exact");
}

#[test]
fn sha256_is_the_known_digest_in_lowercase_hex() {
    assert_eq!(
        sha256_hex(b"abc"),
        "ba7816bf8f01cfea414140de5dae2223b00361a396177a9cb410ff61f20015ad"
    );
    assert_eq!(
        sha256_hex(b""),
        "e3b0c44298fc1c149afbf4c8996fb92427ae41e4649b934ca495991b7852b855"
    );
}

#[test]
fn refusals_name_what_they_refuse() {
    let kw = unknown_keyword_refusal(&["tramp".to_string(), "flyng".to_string()]);
    assert!(kw.starts_with("no card in this index has kw:tramp, kw:flyng, so counting it"));
    assert!(kw.ends_with("rebuild with: progress-engine sync"));

    let one = battlefield_refusal("cat:\"Ramp\"", &["Sol Ring".to_string()]);
    assert!(one.starts_with(
        "`zone = \"battlefield\"` in query \"cat:\\\"Ramp\\\"\" is only answerable for lands, and this query matches 1\n      that is not: Sol Ring.\n"
    ));
    let two = battlefield_refusal("t:artifact", &["Sol Ring".to_string(), "Mind Stone".to_string()]);
    assert!(two.contains("matches 2\n      that are not: Sol Ring, Mind Stone."));

    let mana = mana_beside_effects_refusal();
    assert!(mana.contains("[land_drop]\n      prefer = ['otag:surveil', 't:land -otag:tapland']"));
}

#[test]
fn a_query_that_matched_nothing_is_called_out() {
    let notes = query_notes(&[
        QueryMatch { query: "t:land".to_string(), cards: 36 },
        QueryMatch { query: "o:\"Add {W}\"".to_string(), cards: 0 },
    ]);
    assert_eq!(notes, "note: query \"o:\\\"Add {W}\\\"\" matched no cards in this deck\n");
    assert_eq!(query_notes(&[]), "");
}

#[test]
fn a_zone_nothing_reaches_is_zero_by_construction() {
    let notes = zone_notes(&[
        ZoneUse { zone: "hand", reachable: true, asked_by: "t1".to_string() },
        ZoneUse { zone: "graveyard", reachable: false, asked_by: "fuel".to_string() },
        ZoneUse { zone: "battlefield", reachable: false, asked_by: "lands".to_string() },
    ]);
    assert_eq!(
        notes,
        "note: nothing routes a card to the graveyard in this run, so every count in\n      it is zero by construction rather than by measurement.\n      Asked by: \"fuel\"\n      Declare `to_graveyard` on an [[effect]] to route one there.\n\
         note: nothing routes a card to the battlefield in this run, so every count in\n      it is zero by construction rather than by measurement.\n      Asked by: \"lands\"\n      This deck holds no land, so nothing can be played.\n"
    );
}

#[test]
fn an_applied_effect_says_what_it_applied_to() {
    let notes = effect_notes(&[
        EffectUse {
            matches: "otag:surveil".to_string(),
            look: 1,
            on: "land_drop",
            to_graveyard: Some("-t:land".to_string()),
            source: "standard".to_string(),
            cards: vec!["Gloomlake Verge".to_string(), "Shadowy Backstreet".to_string()],
            copies: 2,
            live: true,
        },
        EffectUse {
            matches: "otag:scry".to_string(),
            look: 2,
            on: "draw",
            to_graveyard: None,
            source: "file".to_string(),
            cards: vec!["Temple".to_string()],
            copies: 1,
            live: false,
        },
    ]);
    assert_eq!(
        notes,
        "note: effect \"otag:surveil\" (look 1, on land_drop, -t:land to the graveyard)\n      applies to 2 cards: Gloomlake Verge, Shadowy Backstreet\n\
         note: effect \"otag:scry\" (look 2, on draw, everything stays on top)\n      applies to 1 card: Temple\n"
    );
}

#[test]
fn a_declared_priority_and_assumed_taplands_are_named() {
    let note = land_drop_note(&LandDropUse {
        prefer: vec!["otag:surveil".to_string(), "t:land -otag:tapland".to_string()],
        then: "any other land",
        tie_break: "the deeper look",
    });
    assert_eq!(
        note,
        "note: the land drop here is decided by the priority this file declared, and every\n      number below that depends on which land was played depends on it:\n      1. \"otag:surveil\"\n      2. \"t:land -otag:tapland\"\n      then any other land. Ties: the deeper look.\n"
    );
    assert_eq!(assumed_tapped_note(&[]), None);
    let one = assumed_tapped_note(&["Hallowed Fountain".to_string()]).expect("a note");
    assert!(one.starts_with("note: one land here let the pilot decide whether to enter tapped. This run assumes they do:\n      Hallowed Fountain.\n"));
    let two = assumed_tapped_note(&["A".to_string(), "B".to_string()]).expect("a note");
    assert!(two.starts_with("note: 2 lands here let"));
    assert!(two.ends_with("depends on one of these is a floor rather than a measurement.\n"));
}

#[test]
fn the_last_line_counts_the_assertions() {
    assert_eq!(verdict_line(true, 3, 0), "PASS: 3 of 3 assertions met");
    assert_eq!(verdict_line(false, 3, 2), "FAIL: 2 of 3 assertions missed");
}

#[test]
fn sampled_answers_say_so_and_name_themselves() {
    assert_eq!(
        sampled_note(200000),
        "note: sampled rather than enumerated, because --simulate asked for it. Every\n      percentage below is an estimate from 200000 hands, ± its standard error.\n"
    );
    let est = Estimated { criteria: vec![true, false], expectations: vec![true] };
    let names = est.names(&["t2 land".to_string(), "t3 land".to_string()], &["lands".to_string()]);
    assert_eq!(names, vec!["t2 land".to_string(), "lands".to_string()]);
    assert_eq!(
        estimate_scope(&names, 3),
        "2 of the 3 questions here needed that, and they are the ones\n          quoted with a ±:\n          t2 land\n          lands\n          Everything else below was enumerated exactly. A difference\n          smaller than a figure's ± is not a difference."
    );
    assert!(estimate_scope(&names, 2).starts_with("Every percentage below is an ESTIMATE"));
}

#[test]
fn a_run_is_exact_sampled_or_mixed() {
    assert_eq!(Estimated { criteria: vec![false], expectations: vec![false] }.method(), "exact");
    assert_eq!(Estimated { criteria: vec![true], expectations: vec![true] }.method(), "sampled");
    assert_eq!(Estimated { criteria: vec![true], expectations: vec![false] }.method(), "mixed");
    assert_eq!(Estimated { criteria: vec![], expectations: vec![] }.method(), "exact");
}
