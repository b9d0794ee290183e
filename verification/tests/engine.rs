use progress_engine::engine::{
    preflight, too_wide_message, Count, Expectation, NotACount, PathOutcomes, PathView, Plan, RunError, MAX_COUNT,
};
use progress_engine::grouping::{Grouping, GroupingError};
use progress_engine::zone::Zone;

fn q(names: &[&str]) -> Vec<String> {
    names.iter().map(|s| s.to_string()).collect()
}

#[test]
fn the_query_limit_is_enforced() {
    let queries: Vec<String> = (0..65).map(|i| format!("q{i}")).collect();
    assert_eq!(
        Grouping::build(queries, Vec::new()).unwrap_err(),
        GroupingError::TooManyQueries(65)
    );
}

#[test]
fn an_expectation_carries_only_its_name() {
    let e = Expectation {
        name: "lands in opener".into(),
    };
    assert_eq!(e.name, "lands in opener");
}

#[test]
fn a_count_has_a_bucket_up_to_the_limit() {
    assert_eq!(Count::new(0).unwrap().get(), 0);
    assert_eq!(Count::new(MAX_COUNT).unwrap().get(), MAX_COUNT);
    assert_eq!(Count::new(MAX_COUNT + 1).unwrap_err(), NotACount { value: MAX_COUNT + 1 });
}

#[test]
fn a_path_view_counts_by_zone() {
    // Two lands (bit 0) and three spells.
    let g = Grouping::build(q(&["land"]), vec![(1, 2), (0, 3)]).unwrap();
    let history = vec![vec![1, 2], vec![2, 2]];
    let view = PathView::new(&g, &history);
    assert_eq!(view.checkpoints(), 2);
    assert_eq!(view.count_in(0, 0, Zone::Hand), 1);
    assert_eq!(view.count_in(0, 0, Zone::Library), 1);
    assert_eq!(view.count_in(1, 0, Zone::Hand), 2);
    assert_eq!(view.count_in(1, 0, Zone::Library), 0);
    assert_eq!(view.count_in(1, 0, Zone::Graveyard), 0);
    // Out of range answers zero rather than panicking.
    assert_eq!(view.count_in(9, 0, Zone::Hand), 0);
    assert_eq!(view.count_in(0, 5, Zone::Library), 0);
}

#[test]
fn outcomes_fit_the_plan_they_were_made_for() {
    let plan = Plan { criteria: 2, expectations: 1 };
    let good = PathOutcomes { held: vec![true, false], counted: vec![Count::new(3).unwrap()] };
    let bad = PathOutcomes { held: vec![true], counted: vec![Count::new(3).unwrap()] };
    assert!(good.fits(plan));
    assert!(!bad.fits(plan));
}

#[test]
fn out_of_range_lookups_are_false_not_panics() {
    // A criterion asking about turn 9 of a 1-checkpoint run sees nothing
    // there, so it is false rather than a crash.
    let g = Grouping::build(q(&["land"]), vec![(0b1, 36), (0, 63)]).unwrap();
    let history = vec![vec![2, 5]];
    let view = PathView::new(&g, &history);
    assert!(!(view.count_in(9, 0, Zone::Hand) >= 1));

    let g2 = Grouping::build(q(&["land"]), vec![(0b1, 36), (0, 63)]).unwrap();
    assert_eq!(g2.matching_total(99), 0);
}

#[test]
fn impossibly_wide_questions_are_refused_not_hung() {
    let queries: Vec<String> = (0..20).map(|i| format!("q{i}")).collect();
    let cards: Vec<(u64, u32)> = (0..20).map(|i| (1u64 << i, 5)).collect();
    let g = Grouping::build(queries, cards).unwrap();
    let err = preflight::<()>(&g, &vec![40]).unwrap_err();
    assert!(matches!(err, RunError::TooWide { .. }));
    // The message must tell you what to do about it.
    let msg = match err {
        RunError::TooWide { paths, groups, queries } => too_wide_message(paths, groups, &queries),
        _ => String::new(),
    };
    assert!(msg.contains("too wide"), "{msg}");
}

#[test]
fn an_empty_library_is_refused_rather_than_enumerated() {
    let g = Grouping::build(q(&["land"]), Vec::new()).unwrap();
    let err = preflight::<()>(&g, &vec![7]).unwrap_err();
    assert!(matches!(err, RunError::EmptyLibrary));
}

#[test]
fn a_hand_bigger_than_the_library_is_refused_rather_than_answered_zero() {
    let g = Grouping::build(q(&["land"]), vec![(0b1, 1), (0, 1)]).unwrap();
    let err = preflight::<()>(&g, &vec![7]).unwrap_err();
    assert!(matches!(err, RunError::NotEnoughCards { population: 2, draws: 7 }));
}

#[test]
fn an_evaluator_that_answers_the_wrong_shape_is_refused() {
    // One answer where the run was set up for two criteria: the shape check
    // refuses it rather than filing answers under the wrong names.
    let answered = PathOutcomes { held: vec![true], counted: Vec::new() };
    let plan = Plan { criteria: 2, expectations: 0 };
    assert!(!answered.fits(plan));
    assert_eq!((answered.held.len(), answered.counted.len()), (1, 0));
}

#[test]
fn a_refusal_for_width_names_every_query() {
    let msg = too_wide_message(12_000_000, 3, &q(&["t:land", "mv<=2"]));
    assert_eq!(
        msg,
        "this question is too wide to answer exactly: 12000000 compositions across 3 groups.\nIt asks about 2 queries: t:land, mv<=2\nReduce the number of distinct queries, or ask about an earlier turn."
    );
    let g = Grouping::build(q(&["a"]), vec![(1, 60), (0, 40)]).unwrap();
    assert!(preflight::<()>(&g, &vec![7, 1, 1]).is_ok());
}
