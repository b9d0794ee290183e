use progress_engine::colors::Colors;
use progress_engine::cost::ManaCost;

#[test]
fn printed_and_shorthand_costs_are_the_same_multiset() {
    let printed = ManaCost::parse("{2}{W}{W}");
    let short = ManaCost::parse("2WW");
    for c in [&printed, &short] {
        assert_eq!(c.generic(), 2);
        assert_eq!(c.count_of("W"), 2);
        assert_eq!(c.symbol_count(), 2);
    }
    assert!(printed.is_subset_of(&short) && short.is_subset_of(&printed));
}

#[test]
fn hybrids_are_put_in_wubrg_order_and_markers_stay_last() {
    let c = ManaCost::parse("{U/W}{w/u}{W/P}{2/G}");
    assert_eq!(c.count_of("W/U"), 2);
    assert_eq!(c.count_of("U/W"), 0);
    assert_eq!(c.count_of("W/P"), 1);
    assert_eq!(c.count_of("2/G"), 1);
    assert_eq!(c.generic(), 0, "{{2/G}} is a symbol, not two generic");
}

#[test]
fn generic_adds_up_across_braces_and_digits() {
    assert_eq!(ManaCost::parse("{10}").generic(), 10);
    assert_eq!(ManaCost::parse("1{1}").generic(), 2);
    let split = ManaCost::parse("{1}{R} // {1}{U}");
    assert_eq!(split.generic(), 2);
    assert_eq!(split.count_of("R"), 1);
    assert_eq!(split.count_of("U"), 1);
    assert_eq!(ManaCost::parse("{X}{R}").count_of("X"), 1);
}

#[test]
fn inclusion_is_scryfalls_more_symbols_rule() {
    let small = ManaCost::parse("{1}{W}");
    let big = ManaCost::parse("{2}{W}{W}");
    assert!(small.is_subset_of(&big));
    assert!(!big.is_subset_of(&small));
    assert!(!ManaCost::parse("{G}").is_subset_of(&ManaCost::parse("{2}{W}")));
    assert!(ManaCost::parse("").is_subset_of(&small));
}

#[test]
fn devotion_counts_each_symbol_naming_a_colour_once() {
    let c = ManaCost::parse("{U/B}{U}{2}{X}");
    assert_eq!(c.devotion_to(Colors(2 | 4)), 2);
    assert_eq!(c.devotion_to(Colors(2)), 2);
    assert_eq!(c.devotion_to(Colors(4)), 1);
    assert_eq!(c.devotion_to(Colors(1)), 0);
    assert_eq!(c.colors(), Colors(2 | 4));
    assert_eq!(ManaCost::parse("{2/W}{W/P}").devotion_to(Colors(1)), 2);
}

#[test]
fn a_devotion_term_needs_symbols_that_agree() {
    assert!(ManaCost::parse("{U}{U}").symbols_agree_on_colors());
    assert!(!ManaCost::parse("{U}{B}").symbols_agree_on_colors());
    assert!(!ManaCost::parse("{X}").symbols_agree_on_colors());
    assert!(ManaCost::parse("").symbols_agree_on_colors());
}

#[test]
fn a_cost_of_nothing_is_empty() {
    assert!(ManaCost::parse("").is_empty());
    assert!(ManaCost::parse("{0}").is_empty());
    assert!(!ManaCost::parse("{C}").is_empty());
    assert!(!ManaCost::parse("1").is_empty());
}

#[test]
fn the_empty_cost_is_in_every_cost_and_equality_ignores_order() {
    let empty = ManaCost::default();
    assert_eq!(empty.generic(), 0);
    assert_eq!(empty.symbol_count(), 0);
    assert!(empty.is_subset_of(&ManaCost::parse("{W}")));
    assert!(empty.is_subset_of(&empty));
    assert!(ManaCost::parse("{W}").is_subset_of(&ManaCost::parse("{2}{W}{W}")));
    assert!(!ManaCost::parse("{2}{W}{W}").is_subset_of(&ManaCost::parse("{W}")));
    assert!(!ManaCost::parse("{1}").is_subset_of(&ManaCost::parse("{W}")));
    assert!(ManaCost::parse("{U}{W}") == ManaCost::parse("{W}{U}"));
    assert!(ManaCost::parse("{U}") != ManaCost::parse("{W}"));
}
