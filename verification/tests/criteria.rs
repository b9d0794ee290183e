use progress_engine::criteria::{
    Bound, BranchSpec, ClauseSpec, Criteria, CriterionSpec, Destination, EffectLibrary, EffectSpec,
    CriteriaError, ErrorKind, ExpectSpec, FileSpec, Key, Place, Table, MAX_TURN,
};
use progress_engine::engine::{Evaluator, PathView};
use progress_engine::grouping::Grouping;
use progress_engine::zone::Zone;

fn clause(turn: i64, query: &str, min: Option<i64>, max: Option<i64>) -> ClauseSpec {
    ClauseSpec { turn: Some(turn), query: Some(query.to_string()), zone: None, min, max }
}

fn criterion(name: &str, require: Vec<ClauseSpec>) -> CriterionSpec {
    CriterionSpec { name: Some(name.to_string()), threshold_ok: true, require, any_of: None }
}

fn expect(name: &str, turn: i64, query: &str) -> ExpectSpec {
    ExpectSpec { name: Some(name.to_string()), turn: Some(turn), query: Some(query.to_string()), zone: None }
}

fn file(criterion: Vec<CriterionSpec>, expect: Vec<ExpectSpec>) -> FileSpec {
    FileSpec { criterion, expect, effect: Vec::new() }
}

fn parse(f: &FileSpec) -> Criteria {
    Criteria::parse(f, "test.criteria.toml").expect("should parse")
}

fn refuse(f: &FileSpec) -> ErrorKind {
    Criteria::parse(f, "test.criteria.toml").expect_err("should be refused").kind
}

#[test]
fn a_query_named_twice_is_one_query() {
    let c = parse(&file(
        vec![
            criterion("one", vec![clause(0, "t:land", Some(1), None)]),
            criterion("two", vec![clause(4, "t:land", Some(2), None)]),
        ],
        vec![expect("three", 2, "t:land")],
    ));
    assert_eq!(c.queries(), ["t:land"]);
    assert_eq!(c.horizon(), 4);
}

#[test]
fn the_whole_query_set_is_known_before_anything_runs() {
    let c = parse(&file(
        vec![criterion(
            "deep",
            vec![clause(0, "t:land", Some(1), None), clause(6, "cat:\"Ramp\"", Some(1), None)],
        )],
        vec![expect("wider", 1, "produces:g")],
    ));
    assert_eq!(c.queries(), ["t:land", "cat:\"Ramp\"", "produces:g"]);
    assert_eq!(c.asked_by("produces:g"), Some("wider"));
    assert_eq!(c.asked_by("t:land"), Some("deep"));
    assert_eq!(c.asked_by("nothing"), None);
    assert_eq!(c.zones(), [Zone::Hand]);
    assert_eq!(c.zone_asked_by(Zone::Hand), Some("deep"));
    assert_eq!(c.zone_asked_by(Zone::Graveyard), None);
    let plan = c.plan();
    assert_eq!((plan.criteria, plan.expectations), (1, 1));
}

#[test]
fn a_file_that_asks_nothing_is_refused() {
    assert_eq!(refuse(&file(Vec::new(), Vec::new())), ErrorKind::AsksNothing);
}

#[test]
fn a_criterion_with_no_clauses_is_refused_by_name() {
    assert_eq!(
        refuse(&file(vec![criterion("nothing at all", Vec::new())], Vec::new())),
        ErrorKind::NoClauses { criterion: 0 }
    );
}

#[test]
fn a_clause_with_neither_min_nor_max_is_refused_by_name() {
    assert_eq!(
        refuse(&file(vec![criterion("lands in opener", vec![clause(0, "t:land", None, None)])], Vec::new())),
        ErrorKind::NoBounds { at: Place::Clause { criterion: 0, clause: 0 } }
    );
}

#[test]
fn a_range_no_hand_can_satisfy_is_refused_rather_than_answered_zero() {
    assert_eq!(
        refuse(&file(vec![criterion("backwards", vec![clause(0, "t:land", Some(5), Some(2))])], Vec::new())),
        ErrorKind::EmptyRange { at: Place::Clause { criterion: 0, clause: 0 }, min: 5, max: 2 }
    );
}

#[test]
fn a_turn_that_is_not_a_turn_is_refused() {
    let negative = refuse(&file(vec![criterion("before the game", vec![clause(-1, "t:land", Some(1), None)])], Vec::new()));
    assert!(matches!(negative, ErrorKind::BadTurn { turn: -1, .. }), "{negative:?}");
    let far = refuse(&file(
        vec![criterion("long game", vec![clause(MAX_TURN as i64 + 1, "t:land", Some(1), None)])],
        Vec::new(),
    ));
    assert!(matches!(far, ErrorKind::BadTurn { .. }), "{far:?}");
}

#[test]
fn a_threshold_outside_zero_to_one_is_refused() {
    let mut c = criterion("percent, surely", vec![clause(0, "t:land", Some(2), None)]);
    c.threshold_ok = false;
    assert_eq!(refuse(&file(vec![c], Vec::new())), ErrorKind::BadThreshold { criterion: 0 });
}

#[test]
fn a_question_with_no_name_is_refused() {
    let mut c = criterion("x", vec![clause(0, "t:land", Some(2), None)]);
    c.name = None;
    assert_eq!(
        refuse(&file(vec![c], Vec::new())),
        ErrorKind::Unnamed { table: Table::Criterion, position: 1 }
    );
    let mut e = expect("x", 0, "t:land");
    e.name = None;
    assert_eq!(refuse(&file(Vec::new(), vec![e])), ErrorKind::Unnamed { table: Table::Expect, position: 1 });
}

#[test]
fn a_clause_missing_its_turn_or_its_query_is_refused_by_name() {
    let mut c = clause(0, "t:land", Some(1), None);
    c.turn = None;
    assert_eq!(
        refuse(&file(vec![criterion("which turn?", vec![c])], Vec::new())),
        ErrorKind::Missing { at: Place::Clause { criterion: 0, clause: 0 }, key: Key::Turn }
    );
    let mut e = expect("count what?", 0, "t:land");
    e.query = None;
    assert_eq!(
        refuse(&file(Vec::new(), vec![e])),
        ErrorKind::Missing { at: Place::Expectation(0), key: Key::Query }
    );
}

#[test]
fn the_file_names_itself_in_every_refusal() {
    let err = Criteria::parse(&file(vec![criterion("x", Vec::new())], Vec::new()), "decks/goblins.criteria.toml")
        .expect_err("should be refused");
    assert_eq!(err.origin, "decks/goblins.criteria.toml");
}

#[test]
fn a_count_below_zero_is_refused_naming_the_bound() {
    assert_eq!(
        refuse(&file(vec![criterion("x", vec![clause(0, "q", Some(1), Some(-3))])], Vec::new())),
        ErrorKind::BadCount { at: Place::Clause { criterion: 0, clause: 0 }, key: Bound::Max, value: -3 }
    );
}

#[test]
fn an_unmodelled_zone_is_refused() {
    let mut c = clause(0, "q", Some(1), None);
    c.zone = Some("battlefield".to_string());
    assert_eq!(
        refuse(&file(vec![criterion("x", vec![c])], Vec::new())),
        ErrorKind::BadZone { at: Place::Clause { criterion: 0, clause: 0 }, battlefield: true }
    );
}

#[test]
fn an_empty_any_of_and_an_empty_branch_are_refused() {
    let mut c = criterion("routes", Vec::new());
    c.any_of = Some(Vec::new());
    assert_eq!(refuse(&file(vec![c], Vec::new())), ErrorKind::EmptyAnyOf { criterion: 0 });
    let mut c = criterion("routes", Vec::new());
    c.any_of = Some(vec![BranchSpec { require: vec![clause(0, "q", Some(1), None)] }, BranchSpec { require: Vec::new() }]);
    assert_eq!(refuse(&file(vec![c], Vec::new())), ErrorKind::EmptyBranch { criterion: 0, position: 2 });
}

#[test]
fn a_disjunction_holds_when_any_branch_does() {
    let mut c = criterion("either", vec![clause(0, "a", Some(1), None)]);
    c.any_of = Some(vec![
        BranchSpec { require: vec![clause(0, "b", Some(2), None)] },
        BranchSpec { require: vec![clause(0, "c", Some(1), None)] },
    ]);
    let mut criteria = parse(&file(vec![c], vec![expect("how many a", 0, "a")]));
    assert_eq!(criteria.queries(), ["a", "b", "c"]);
    // One group per query, none overlapping.
    let g = Grouping::build(criteria.queries().to_vec(), vec![(1, 3), (2, 3), (4, 3)]).unwrap();
    let yes = vec![vec![1, 0, 1]];
    let no = vec![vec![1, 1, 0]];
    let out = criteria.evaluate(&PathView::new(&g, &yes)).unwrap();
    assert_eq!(out.held, vec![true]);
    assert_eq!(out.counted[0].get(), 1);
    let out = criteria.evaluate(&PathView::new(&g, &no)).unwrap();
    assert_eq!(out.held, vec![false]);
}

#[test]
fn effects_are_checked_and_kept_in_order() {
    let defs = FileSpec {
        criterion: Vec::new(),
        expect: Vec::new(),
        effect: vec![
            EffectSpec { matches: Some("t:land otag:surveil".into()), look: Some(1), on: Some("landdrop".into()), to_graveyard: Some("*".into()) },
            EffectSpec { matches: Some("name:Loam".into()), look: Some(2), on: Some("landdrop".into()), to_graveyard: Some("t:land".into()) },
        ],
    };
    let lib = EffectLibrary::parse(&defs, "the standard effect library").unwrap();
    assert_eq!(lib.entries().len(), 2);
    assert_eq!(lib.entries()[0].to_graveyard, Some(Destination::Everything));
    assert_eq!(lib.entries()[1].to_graveyard, Some(Destination::Matching("t:land".into())));
    assert_eq!(lib.entries()[1].origin, "the standard effect library");
    let later = EffectLibrary::parse(&FileSpec { criterion: Vec::new(), expect: Vec::new(), effect: vec![
        EffectSpec { matches: Some("x".into()), look: Some(3), on: Some("landdrop".into()), to_graveyard: None },
    ]}, "mine").unwrap();
    let both = lib.followed_by(later);
    assert_eq!(both.entries().len(), 3);
    assert_eq!(both.entries()[2].look, 3);
    assert!(!both.is_empty());
}

#[test]
fn an_effect_that_cannot_fire_is_refused() {
    let bad = |e: EffectSpec| EffectLibrary::parse(&FileSpec { criterion: Vec::new(), expect: Vec::new(), effect: vec![e] }, "f").unwrap_err().kind;
    assert_eq!(
        bad(EffectSpec { matches: Some("x".into()), look: Some(1), on: Some("cast".into()), to_graveyard: None }),
        ErrorKind::BadTrigger { effect: 0, needs_mana: true }
    );
    assert_eq!(
        bad(EffectSpec { matches: Some("x".into()), look: Some(11), on: Some("landdrop".into()), to_graveyard: None }),
        ErrorKind::BadLook { effect: 0, look: 11 }
    );
    assert_eq!(
        bad(EffectSpec { matches: None, look: Some(1), on: Some("landdrop".into()), to_graveyard: None }),
        ErrorKind::Missing { at: Place::Effect(0), key: Key::Match }
    );
}

/// A synthetic library where every query the file names has cards of its
/// own and nothing overlaps: `each` copies per query, the rest matching
/// nothing.
fn grouping_for(criteria: &Criteria, each: u32) -> Grouping {
    let queries = criteria.queries();
    let mut cards: Vec<(u64, u32)> = (0..queries.len()).map(|i| (1u64 << i, each)).collect();
    let used: u32 = cards.iter().map(|(_, qty)| qty).sum();
    cards.push((0, 99 - used));
    Grouping::build(queries.to_vec(), cards).expect("a grouping")
}

/// The opening seven, then one card per turn up to whatever the file asked
/// for.
fn gaps(criteria: &Criteria) -> Vec<u32> {
    let mut gaps = vec![7];
    gaps.extend(std::iter::repeat_n(1, criteria.horizon() as usize));
    gaps
}

#[test]
fn a_question_too_wide_to_enumerate_names_every_query_it_asks_about() {
    let criteria = parse(&file(
        vec![criterion(
            "far too much at once",
            ["a", "b", "c", "d", "e", "f", "g"].iter().map(|q| clause(8, q, Some(1), None)).collect(),
        )],
        Vec::new(),
    ));
    let grouping = grouping_for(&criteria, 6);
    let gaps = gaps(&criteria);
    let err = progress_engine::engine::preflight::<()>(&grouping, &gaps).expect_err("too wide");
    assert!(matches!(err, progress_engine::engine::RunError::TooWide { .. }));
    let msg = match err {
        progress_engine::engine::RunError::TooWide { paths, groups, queries } => {
            progress_engine::engine::too_wide_message(paths, groups, &queries)
        }
        _ => String::new(),
    };
    for query in ["a", "b", "c", "d", "e", "f", "g"] {
        assert!(msg.contains(query), "should name {query:?}: {msg}");
    }
}

#[test]
fn the_empty_effect_library_is_an_identity() {
    let empty = EffectLibrary::default();
    assert!(empty.is_empty());
    assert!(empty.clone().followed_by(EffectLibrary::default()).is_empty());
}

#[test]
fn a_refusal_names_the_file_the_place_and_the_problem() {
    let names = vec!["loam by five".to_string()];
    let e = CriteriaError {
        origin: "deck.toml".to_string(),
        kind: ErrorKind::BadCount { at: Place::Clause { criterion: 0, clause: 1 }, key: Bound::Min, value: -3 },
    };
    assert_eq!(
        e.message(&names),
        "deck.toml: criterion \"loam by five\", clause 2: `min = -3` is not a number of cards"
    );
    let missing = CriteriaError {
        origin: "f".to_string(),
        kind: ErrorKind::Missing { at: Place::Effect(0), key: Key::Look },
    };
    assert_eq!(missing.message(&names), "f: [[effect]] number 1: no `look`");
    let unnamed = CriteriaError {
        origin: "f".to_string(),
        kind: ErrorKind::Unnamed { table: Table::Expect, position: 2 },
    };
    assert_eq!(
        unnamed.message(&[]),
        "f: [[expect]] number 2 has no `name`, and a report refers to a question by its name"
    );
}
