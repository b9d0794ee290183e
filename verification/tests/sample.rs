use std::convert::Infallible;

use progress_engine::engine::{
    estimate_paths, preflight, Evaluator, PathOutcomes, PathView, Plan, RunError, MAX_PATHS,
};
use progress_engine::grouping::Grouping;
use progress_engine::sample::{deal, lay_out, reached_at, simulate, SimError, Tally};
use progress_engine::engine::Count;
use progress_engine::zone::Zone;

type Check = Box<dyn FnMut(&PathView<'_>) -> bool>;
struct Closures(Vec<Check>);

impl Evaluator for Closures {
    type Error = Infallible;
    fn evaluate(&mut self, view: &PathView<'_>) -> Result<PathOutcomes, Infallible> {
        Ok(PathOutcomes {
            held: self.0.iter_mut().map(|f| f(view)).collect(),
            counted: Vec::new(),
        })
    }
}

fn q(names: &[&str]) -> Vec<String> {
    names.iter().map(|s| s.to_string()).collect()
}

fn hand(v: &PathView<'_>, checkpoint: usize, query: usize) -> u32 {
    v.count_in(checkpoint, query, Zone::Hand)
}

/// The fraction of hands in which each criterion held.
fn sampled(g: &Grouping, gaps: &[u32], trials: u32, seed: u64, ev: &mut Closures) -> Vec<f64> {
    let plan = Plan { criteria: ev.0.len(), expectations: 0 };
    let tally = match simulate(g, &gaps.to_vec(), trials, seed, plan, ev) {
        Ok(t) => t,
        Err(_) => panic!("the run was refused"),
    };
    tally
        .hits
        .iter()
        .map(|&h| f64::from(h) / f64::from(trials))
        .collect()
}

fn standard_error(proportion: f64, trials: u32) -> f64 {
    (proportion * (1.0 - proportion) / f64::from(trials)).sqrt()
}

fn binomial(n: u32, k: u32) -> f64 {
    if k > n {
        return 0.0;
    }
    let mut r = 1.0;
    for i in 0..k {
        r = r * f64::from(n - i) / f64::from(i + 1);
    }
    r
}

/// Every composition of `draws` over `groups`, with its exact probability.
fn compositions(groups: &[u32], draws: u32) -> Vec<(Vec<u32>, f64)> {
    fn go(groups: &[u32], idx: usize, left: u32, cur: &mut Vec<u32>, w: f64, out: &mut Vec<(Vec<u32>, f64)>) {
        if idx == groups.len() {
            if left == 0 {
                out.push((cur.clone(), w));
            }
            return;
        }
        for take in 0..=left.min(groups[idx]) {
            cur.push(take);
            go(groups, idx + 1, left - take, cur, w * binomial(groups[idx], take), out);
            cur.pop();
        }
    }
    let total: u32 = groups.iter().sum();
    let mut out = Vec::new();
    go(groups, 0, draws, &mut Vec::new(), 1.0 / binomial(total, draws), &mut out);
    out
}

/// The exact probability that a checkpoint path satisfies `pred`.
fn exact_path(groups: &[u32], gaps: &[u32], pred: &dyn Fn(&[Vec<u32>]) -> bool) -> f64 {
    fn go(groups: &[u32], gaps: &[u32], drawn: &mut Vec<u32>, hist: &mut Vec<Vec<u32>>, p: f64, pred: &dyn Fn(&[Vec<u32>]) -> bool) -> f64 {
        if hist.len() == gaps.len() {
            return if pred(hist) { p } else { 0.0 };
        }
        let available: Vec<u32> = groups.iter().zip(drawn.iter()).map(|(a, b)| a - b).collect();
        let mut total = 0.0;
        for (take, w) in compositions(&available, gaps[hist.len()]) {
            for (d, t) in drawn.iter_mut().zip(take.iter()) {
                *d += t;
            }
            hist.push(drawn.clone());
            total += go(groups, gaps, drawn, hist, p * w, pred);
            hist.pop();
            for (d, t) in drawn.iter_mut().zip(take.iter()) {
                *d -= t;
            }
        }
        total
    }
    go(groups, gaps, &mut vec![0; groups.len()], &mut Vec::new(), 1.0, pred)
}

const TRIALS: u32 = 200_000;

#[test]
fn the_shuffler_reproduces_the_documented_land_distribution() {
    let g = Grouping::build(q(&["land"]), vec![(0b1, 36), (0, 63)]).unwrap();
    let mut ev = Closures(
        (0..=7u32)
            .map(|k| Box::new(move |v: &PathView<'_>| hand(v, 0, 0) >= k) as Check)
            .collect(),
    );
    let at_least = sampled(&g, &[7], TRIALS, 0xC0FFEE, &mut ev);
    let pmf: Vec<f64> = (0..=7)
        .map(|k| at_least[k] - at_least.get(k + 1).copied().unwrap_or(0.0))
        .collect();
    let mean: f64 = pmf.iter().enumerate().map(|(k, p)| k as f64 * p).sum();
    let ex2: f64 = pmf.iter().enumerate().map(|(k, p)| (k * k) as f64 * p).sum();
    let sd = (ex2 - mean * mean).sqrt();
    let tolerance = 3.0 * 1.2331 / f64::from(TRIALS).sqrt();
    assert!((mean - 2.5455).abs() < tolerance, "mean {mean} outside {tolerance} of 2.5455");
    assert!((sd - 1.2331).abs() < 0.02, "sd was {sd}");
}

#[test]
fn sampling_agrees_with_the_exact_engine() {
    let cases: [(&[(u64, u32)], u32); 3] = [
        (&[(0b01, 6), (0b10, 8), (0, 85)], 11),
        (&[(0b01, 6), (0b10, 12), (0, 81)], 11),
        (&[(0b11, 2), (0b01, 4), (0b10, 6), (0, 87)], 9),
    ];
    for (cards, draws) in cases {
        let g = Grouping::build(q(&["a", "b"]), cards.to_vec()).unwrap();
        let masks = g.group_masks().clone();
        let matching = |c: &[u32], query: usize| -> u32 {
            c.iter().zip(masks.iter()).filter(|(_, m)| *m & (1 << query) != 0).map(|(n, _)| *n).sum()
        };
        let exact: f64 = compositions(g.group_sizes(), draws)
            .into_iter()
            .filter(|(c, _)| matching(c, 0) >= 1 && matching(c, 1) >= 1)
            .map(|(_, p)| p)
            .sum();
        let mut ev = Closures(vec![Box::new(|v: &PathView<'_>| hand(v, 0, 0) >= 1 && hand(v, 0, 1) >= 1)]);
        let got = sampled(&g, &[draws], TRIALS, 42, &mut ev)[0];
        let se = standard_error(got, TRIALS);
        assert!((got - exact).abs() < 4.0 * se, "sampled {got} vs exact {exact}");
    }
}

#[test]
fn checkpoints_agree_with_the_exact_engine() {
    let g = Grouping::build(q(&["land", "dork"]), vec![(0b01, 36), (0b10, 10), (0, 53)]).unwrap();
    let pred = |h: &[Vec<u32>]| h[0][0] >= 1 && h[0][1] >= 1 && h[1][0] >= 2;
    let exact = exact_path(g.group_sizes(), &[7, 1], &pred);
    let mut ev = Closures(vec![Box::new(|v: &PathView<'_>| {
        hand(v, 0, 0) >= 1 && hand(v, 0, 1) >= 1 && hand(v, 1, 0) >= 2
    })]);
    let got = sampled(&g, &[7, 1], TRIALS, 7, &mut ev)[0];
    let se = standard_error(got, TRIALS);
    assert!((got - exact).abs() < 4.0 * se, "sampled {got} vs exact {exact}");
}

#[test]
fn the_same_seed_deals_the_same_hands() {
    let g = Grouping::build(q(&["land"]), vec![(0b1, 36), (0, 63)]).unwrap();
    let run = |seed: u64| {
        let mut ev = Closures(vec![Box::new(|v: &PathView<'_>| hand(v, 0, 0) >= 3)]);
        sampled(&g, &[7], 5_000, seed, &mut ev)[0]
    };
    assert_eq!(run(123), run(123));
    assert_ne!(run(123), run(124), "different seeds should deal differently");
}

#[test]
fn drawing_the_whole_library_is_not_an_infinite_loop() {
    let g = Grouping::build(q(&["land"]), vec![(0b1, 4), (0, 6)]).unwrap();
    let mut ev = Closures(vec![Box::new(|v: &PathView<'_>| hand(v, 0, 0) == 4)]);
    let p = sampled(&g, &[10], 100, 1, &mut ev)[0];
    assert_eq!(p, 1.0, "drawing every card must find every land");
}

#[test]
fn a_hand_bigger_than_the_library_is_refused_rather_than_clamped() {
    let g = Grouping::build(q(&["land"]), vec![(0b1, 1), (0, 1)]).unwrap();
    let mut ev = Closures(vec![Box::new(|v: &PathView<'_>| hand(v, 0, 0) >= 1)]);
    let plan = Plan { criteria: 1, expectations: 0 };
    let err = simulate(&g, &vec![7], 100, 1, plan, &mut ev).err().unwrap();
    assert!(matches!(err, SimError::NotEnoughCards { population: 2, draws: 7 }));

    let exact = preflight::<Infallible>(&g, &vec![7]).err().unwrap();
    assert!(
        matches!(exact, RunError::NotEnoughCards { population: 2, draws: 7 }),
        "same question, same answer"
    );
}

#[test]
fn zero_trials_is_refused_rather_than_divided_by() {
    let g = Grouping::build(q(&["land"]), vec![(0b1, 36), (0, 63)]).unwrap();
    let mut ev = Closures(vec![Box::new(|v: &PathView<'_>| hand(v, 0, 0) >= 1)]);
    let plan = Plan { criteria: 1, expectations: 0 };
    assert!(matches!(
        simulate(&g, &vec![7], 0, 1, plan, &mut ev).err().unwrap(),
        SimError::NoTrials
    ));
}

#[test]
fn a_checkpoint_reached_before_any_draw_sees_an_empty_hand() {
    let g = Grouping::build(q(&["land"]), vec![(0b1, 1)]).unwrap();
    let criteria = || {
        Closures(vec![
            Box::new(|v: &PathView<'_>| hand(v, 0, 0) >= 1),
            Box::new(|v: &PathView<'_>| hand(v, 1, 0) >= 1),
            Box::new(|v: &PathView<'_>| hand(v, 2, 0) >= 1),
        ])
    };
    let got = sampled(&g, &[0, 1, 0], 100, 1, &mut criteria());
    assert_eq!(got, vec![0.0, 1.0, 1.0], "{got:?}");

    let exact: Vec<f64> = (0..3)
        .map(|c| exact_path(g.group_sizes(), &[0, 1, 0], &move |h: &[Vec<u32>]| h[c][0] >= 1))
        .collect();
    assert_eq!(exact, got, "same question, same answer");
}

#[test]
fn a_run_that_answers_the_wrong_number_of_questions_is_refused() {
    let g = Grouping::build(q(&["land"]), vec![(0b1, 3), (0, 3)]).unwrap();
    let mut ev = Closures(vec![Box::new(|v: &PathView<'_>| hand(v, 0, 0) >= 1)]);
    let plan = Plan { criteria: 2, expectations: 0 };
    match simulate(&g, &vec![2], 10, 1, plan, &mut ev) {
        Err(SimError::WrongShape { plan: p, held, counted }) => {
            assert_eq!(p, plan);
            assert_eq!((held, counted), (1, 0));
        }
        _ => panic!("expected a shape refusal"),
    }
}

#[test]
fn the_library_is_laid_out_group_by_group() {
    assert_eq!(lay_out(&vec![2, 0, 3]), vec![0, 0, 2, 2, 2]);
    assert_eq!(reached_at(&vec![7, 1, 0, 2]), vec![7, 8, 8, 10]);
}

#[test]
fn a_deal_counts_each_group_among_the_cards_dealt_by_each_checkpoint() {
    // Swap slot 0 with 4 (a 2 comes up), then slot 1 with 1 (a 0 stays).
    let mut deck = vec![0, 0, 1, 1, 2];
    let history = deal(&mut deck, &vec![4, 1], &vec![0, 1, 2, 2], 3);
    assert_eq!(deck, vec![2, 0, 1, 1, 0]);
    assert_eq!(
        history,
        vec![vec![0, 0, 0], vec![0, 0, 1], vec![1, 0, 1], vec![1, 0, 1]]
    );
}

#[test]
fn a_question_too_wide_to_enumerate_is_refused_before_it_starts() {
    // Forty groups of one card, drawing twenty: C(59, 39) compositions.
    let cards: Vec<(u64, u32)> = (0..40u64).map(|m| (m, 1)).collect();
    let names: Vec<String> = (0..6).map(|i| format!("q{i}")).collect();
    let g = Grouping::build(names.clone(), cards).unwrap();
    let paths = estimate_paths(40, &vec![20]);
    assert!(paths > MAX_PATHS);
    match preflight::<Infallible>(&g, &vec![20]) {
        Err(RunError::TooWide { paths: p, groups, queries }) => {
            assert_eq!(p, paths);
            assert_eq!(groups, 40);
            assert_eq!(queries, names);
        }
        _ => panic!("expected a width refusal"),
    }
    assert!(matches!(
        preflight::<Infallible>(&Grouping::build(q(&["land"]), vec![]).unwrap(), &vec![1]),
        Err(RunError::EmptyLibrary)
    ));
}

#[test]
fn the_path_estimate_is_the_binomial_when_nothing_saturates() {
    // Compositions of 7 over 3 groups: C(9, 2) = 36; of 1 over 3: 3.
    assert_eq!(estimate_paths(3, &vec![7]), 36);
    assert_eq!(estimate_paths(3, &vec![7, 1]), 108);
    assert_eq!(estimate_paths(1, &vec![7, 1]), 1);
    assert_eq!(estimate_paths(0, &vec![]), 1);
}

#[test]
fn recording_a_hand_adds_exactly_that_hand() {
    let plan = Plan { criteria: 2, expectations: 1 };
    let mut t = Tally::empty(plan);
    t.record(&PathOutcomes { held: vec![true, false], counted: vec![Count::new(2).unwrap()] });
    t.record(&PathOutcomes { held: vec![true, true], counted: vec![Count::new(0).unwrap()] });
    assert_eq!(t.trials, 2);
    assert_eq!(t.hits, vec![2, 1]);
    assert_eq!(t.counts[0][0], 1);
    assert_eq!(t.counts[0][1], 0);
    assert_eq!(t.counts[0][2], 1);
}

#[test]
fn answers_of_the_wrong_shape_are_refused_and_leave_the_tally_alone() {
    let plan = Plan { criteria: 2, expectations: 0 };
    let mut t = Tally::empty(plan);
    assert_eq!(t.take(plan, &PathOutcomes { held: vec![true, true], counted: Vec::new() }), Ok(()));
    assert_eq!(t.take(plan, &PathOutcomes { held: vec![true], counted: Vec::new() }), Err((1, 0)));
    assert_eq!(t.trials, 1);
    assert_eq!(t.hits, vec![1, 1]);
}
