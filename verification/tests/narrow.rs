use progress_engine::grouping::Grouping;
use progress_engine::mana::Palette;
use progress_engine::narrow::{partition, Casting, Effects, QuestionReads, Reads, Shared};
use progress_engine::schedule::{Reading, Schedule};

fn bit(i: usize) -> u64 {
    1u64 << i
}

fn count(queries: u64, turns: &[usize]) -> Reads {
    Reads { queries, demands: None, battlefield: false, turns: turns.to_vec() }
}

fn cast(queries: u64, pips: &[&str], turns: &[usize]) -> Reads {
    Reads {
        queries,
        demands: Some(Palette::from_letters(pips)),
        battlefield: false,
        turns: turns.to_vec(),
    }
}

fn nothing_shared() -> Shared {
    Shared { effects: None, land_drop: None, casting: None }
}

fn criteria(reads: Vec<Reads>) -> QuestionReads {
    QuestionReads { criteria: reads, expectations: Vec::new() }
}

#[test]
fn a_criterion_keeps_only_the_queries_it_names() {
    let reads = criteria(vec![count(bit(0), &[1]), count(bit(1), &[1])]);
    let classes = partition(&reads, &nothing_shared());
    assert_eq!(classes.len(), 2);
    assert_eq!(classes[0].keep(), bit(0));
    assert_eq!(classes[1].keep(), bit(1));
    assert_eq!(classes[0].pips(), None);
    assert_eq!(classes[1].pips(), None);
}

#[test]
fn a_cross_turn_criterion_keeps_both_its_turns() {
    let classes = partition(&criteria(vec![count(bit(0) | bit(1), &[1, 2])]), &nothing_shared());
    assert_eq!(classes.len(), 1);
    assert_eq!(classes[0].turns(), &[1, 2]);
    assert_eq!(classes[0].reading(), Reading::Cumulative);
}

#[test]
fn a_cast_clause_pays_for_the_manabase_and_nothing_else_does() {
    let reads = criteria(vec![cast(0, &["U"], &[3]), count(bit(0), &[3])]);
    let classes = partition(&reads, &nothing_shared());
    assert_eq!(classes.len(), 2);
    assert_eq!(classes[0].pips(), Some(Palette::from_letters(&["U"])));
    assert_eq!(classes[0].reading(), Reading::PerTurn);
    assert_eq!(classes[1].pips(), None, "counting Ramp cannot");
    assert_eq!(classes[1].reading(), Reading::Cumulative);
}

#[test]
fn a_history_reading_keeps_only_its_last_turn() {
    let reads = criteria(vec![cast(0, &["G"], &[2, 5, 3]), cast(0, &["G"], &[5, 1])]);
    let classes = partition(&reads, &nothing_shared());
    assert_eq!(classes.len(), 1, "both read the history up to turn 5");
    assert_eq!(classes[0].turns(), &[5]);
    assert_eq!(classes[0].criteria(), &[0, 1]);
}

#[test]
fn a_declared_priority_keeps_the_whole_palette() {
    let shared = Shared { effects: None, land_drop: Some(bit(3)), casting: None };
    let classes = partition(&criteria(vec![cast(0, &["W"], &[2])]), &shared);
    assert_eq!(classes[0].pips(), Some(Palette::all()));
    assert_eq!(classes[0].keep(), bit(3));
}

#[test]
fn a_declared_priority_costs_nothing_where_nothing_reads_the_drops() {
    let shared = Shared { effects: None, land_drop: Some(bit(3)), casting: None };
    let classes = partition(&criteria(vec![count(bit(0), &[2])]), &shared);
    assert_eq!(classes[0].keep(), bit(0));
}

#[test]
fn a_live_effect_is_kept_by_every_class() {
    let shared = Shared {
        effects: Some(Effects { queries: bit(9) | bit(10) | bit(11), on_the_drop: false }),
        land_drop: None,
        casting: None,
    };
    let classes = partition(&criteria(vec![count(bit(0), &[2])]), &shared);
    assert_eq!(classes[0].keep(), bit(0) | bit(9) | bit(10) | bit(11));
    assert_eq!(classes[0].reading(), Reading::Cumulative);
}

#[test]
fn an_effect_on_the_drop_reads_the_land_priority_too() {
    let shared = Shared {
        effects: Some(Effects { queries: bit(9), on_the_drop: true }),
        land_drop: Some(bit(3)),
        casting: None,
    };
    let classes = partition(&criteria(vec![count(bit(0), &[2])]), &shared);
    assert_eq!(classes[0].keep(), bit(0) | bit(3) | bit(9));
}

#[test]
fn a_budget_is_kept_by_every_class_and_prices_the_manabase() {
    let shared = Shared {
        effects: None,
        land_drop: None,
        casting: Some(Casting { queries: bit(7), demands: Palette::from_letters(&["U"]) }),
    };
    let classes = partition(&criteria(vec![count(bit(0), &[4])]), &shared);
    assert_eq!(classes[0].keep(), bit(0) | bit(7));
    assert_eq!(classes[0].pips(), Some(Palette::from_letters(&["U"])));
    assert_eq!(classes[0].reading(), Reading::PerTurn);
}

#[test]
fn a_budget_joins_its_colours_with_the_clauses_own() {
    let shared = Shared {
        effects: None,
        land_drop: None,
        casting: Some(Casting { queries: bit(7), demands: Palette::from_letters(&["U"]) }),
    };
    let classes = partition(&criteria(vec![cast(0, &["R"], &[4])]), &shared);
    assert_eq!(classes[0].pips(), Some(Palette::from_letters(&["U", "R"])));
}

#[test]
fn questions_reading_the_same_things_share_one_enumeration() {
    let reads = QuestionReads {
        criteria: vec![count(bit(0), &[2]), count(bit(0), &[2])],
        expectations: vec![count(bit(0), &[2]), count(bit(1), &[2])],
    };
    let classes = partition(&reads, &nothing_shared());
    assert_eq!(classes.len(), 2);
    assert_eq!(classes[0].criteria(), &[0, 1]);
    assert_eq!(classes[0].expectations(), &[0]);
    assert_eq!(classes[1].criteria(), &[] as &[usize]);
    assert_eq!(classes[1].expectations(), &[1]);
}

#[test]
fn one_turn_is_one_checkpoint() {
    let classes = partition(&criteria(vec![count(bit(0), &[5])]), &nothing_shared());
    assert_eq!(classes[0].turns(), &[5]);
    let full = Schedule::build(5, false, Vec::new(), None);
    assert_eq!(full.gaps(), &[7, 0, 1, 1, 1, 1]);
    // Eleven cards seen by turn five, and nothing about the order.
    assert_eq!(classes[0].schedule(&full).gaps(), &[0, 0, 0, 0, 0, 11]);
}

#[test]
fn two_costs_in_one_question_join_their_demands() {
    let reads = criteria(vec![
        // Both clauses of one criterion: `{1}{U}` on turn 3, `{B}{B}` on turn 4.
        cast(0, &["U", "B"], &[3, 4]),
        // `{2}` on turn 4: a cost with no pips demands none.
        cast(0, &[], &[4]),
    ]);
    let classes = partition(&reads, &nothing_shared());
    assert_eq!(classes[0].pips(), Some(Palette::from_letters(&["UB"])));
    assert_eq!(classes[1].pips(), Some(Palette::empty()));
}

#[test]
fn a_battlefield_count_reads_the_whole_history() {
    let reads = criteria(vec![Reads { queries: bit(0), demands: None, battlefield: true, turns: vec![4] }]);
    let classes = partition(&reads, &nothing_shared());
    // One drop a turn, so five lands drawn is not five lands played, and the
    // totals at turn four cannot say which.
    assert_eq!(classes[0].reading(), Reading::PerTurn);
    // But nothing here asks what a land makes.
    assert_eq!(classes[0].pips(), None);
    let full = Schedule::build(5, false, Vec::new(), None);
    assert_eq!(classes[0].schedule(&full).gaps(), &[7, 0, 1, 1, 1, 0]);
}

#[test]
fn a_class_names_exactly_the_queries_it_keeps_in_grouping_order() {
    let names: Vec<String> = ["a", "b", "c", "d"].iter().map(|s| s.to_string()).collect();
    let g = Grouping::build(names, vec![(0b1111, 4), (0, 10)]).unwrap();
    let reads = criteria(vec![count(bit(0) | bit(2), &[1])]);
    let classes = partition(&reads, &nothing_shared());
    assert_eq!(classes[0].queries(&g), vec!["a".to_string(), "c".to_string()]);
}
