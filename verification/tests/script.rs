use progress_engine::engine::PathView;
use progress_engine::grouping::Grouping;
use progress_engine::script::{CountTable, Discovery, JsError, Next, MAX_DISCOVERY_ROUNDS};

fn s(v: &[&str]) -> Vec<String> {
    v.iter().map(|x| x.to_string()).collect()
}

#[test]
fn a_script_failure_says_which_kind_it_was() {
    assert_eq!(JsError::Load("bad token".into()).message(), "loading criteria: bad token");
    assert_eq!(JsError::Eval("boom".into()).message(), "evaluating criteria: boom");
    assert_eq!(JsError::NoCriteria.message(), "criteria file registered no criterion() calls");
}

#[test]
fn a_grouped_query_answers_its_count_and_an_unknown_one_is_recorded_once() {
    let mut t = CountTable::new();
    t.set_queries(s(&["t:land", "cat:ramp"]));
    t.set_counts(vec![vec![2, 0], vec![3, 1]]);
    assert_eq!(t.count(1, "cat:ramp".into()), 1);
    assert_eq!(t.count(0, "t:land".into()), 2);
    // Past the counts it has: zero rather than a panic.
    assert_eq!(t.count(7, "t:land".into()), 0);
    assert_eq!(t.max_checkpoint(), 7);
    assert_eq!(t.count(2, "o:draw".into()), 0);
    assert_eq!(t.count(2, "o:draw".into()), 0);
    assert_eq!(t.take_discovered(), s(&["o:draw"]));
    assert_eq!(t.take_discovered(), Vec::<String>::new());
    t.count(1, "kw:flying".into());
    t.set_queries(s(&["t:land", "cat:ramp", "kw:flying"]));
    assert_eq!(t.take_discovered(), Vec::<String>::new());
    assert_eq!(t.queries(), &s(&["t:land", "cat:ramp", "kw:flying"]));
}

#[test]
fn a_path_fills_the_table_with_hand_counts() {
    let g = Grouping::build(s(&["land"]), vec![(1, 2), (0, 3)]).unwrap();
    let history = vec![vec![1, 2], vec![2, 2]];
    let view = PathView::new(&g, &history);
    let mut t = CountTable::new();
    t.set_queries(s(&["land"]));
    t.read_path(&view);
    assert_eq!(t.count(0, "land".into()), 1);
    assert_eq!(t.count(1, "land".into()), 2);
}

#[test]
fn discovery_regroups_until_a_run_finds_nothing_new() {
    let mut d = Discovery::start(s(&["t:land"]));
    assert_eq!(d.queries(), &s(&["t:land"]));
    assert_eq!(d.after_round(s(&["cat:ramp"])), Next::Regroup(s(&["t:land", "cat:ramp"])));
    assert_eq!(d.after_round(Vec::new()), Next::Settled);
    assert_eq!(d.queries(), &s(&["t:land", "cat:ramp"]));
}

#[test]
fn discovery_gives_up_when_the_script_never_settles() {
    let mut d = Discovery::start(Vec::new());
    let mut last = Next::Settled;
    for i in 0..MAX_DISCOVERY_ROUNDS {
        last = d.after_round(vec![format!("q{i}")]);
    }
    assert_eq!(last, Next::DidNotSettle);
    assert_eq!(d.queries().len(), MAX_DISCOVERY_ROUNDS);
}
