use progress_engine::mana::{Constraint, Cost, CostError, Palette, Pip, Source};

/// A pool as `(what it makes, does it enter tapped, how many)`.
fn pool(sources: &[(&str, bool, u32)]) -> (Vec<Source>, Vec<u32>) {
    sources
        .iter()
        .map(|(letters, tapped, count)| {
            (
                Source {
                    produces: Palette::from_letters(&[*letters]),
                    tapped: *tapped,
                },
                *count,
            )
        })
        .unzip()
}

fn pays(cost: &Cost, sources: &[(&str, bool, u32)], constraint: Constraint) -> bool {
    let (kinds, counts) = pool(sources);
    cost.payable(&kinds, &counts, constraint)
}

#[test]
fn one_dual_land_does_not_pay_two_pips_and_two_lands_do() {
    let cost = Cost::parse("{W}{U}").unwrap();
    let fountain: &[(&str, bool, u32)] = &[("WU", false, 1)];
    let with_island: &[(&str, bool, u32)] = &[("WU", false, 1), ("U", false, 1)];
    let (kinds, _) = pool(fountain);
    assert!(kinds[0].produces.makes(Pip::White));
    assert!(kinds[0].produces.makes(Pip::Blue));
    assert!(!pays(&cost, fountain, Constraint::Anything));
    assert!(pays(&cost, with_island, Constraint::Anything));
}

#[test]
fn generic_takes_any_source_and_pips_do_not() {
    let cost = Cost::parse("{1}{W}").unwrap();
    assert!(pays(
        &cost,
        &[("W", false, 1), ("U", false, 1)],
        Constraint::Anything
    ));
    assert!(!pays(&cost, &[("U", false, 2)], Constraint::Anything));
    let colorless = Cost::parse("{C}").unwrap();
    assert!(!pays(&colorless, &[("G", false, 3)], Constraint::Anything));
    assert!(pays(&colorless, &[("C", false, 1)], Constraint::Anything));
}

#[test]
fn a_payment_can_be_made_to_use_a_named_source() {
    let cost = Cost::parse("{W}{U}").unwrap();
    let sources: &[(&str, bool, u32)] = &[("WU", false, 1), ("U", false, 1)];
    assert!(pays(&cost, sources, Constraint::Includes(1)));
    assert!(!pays(
        &cost,
        &[("WU", false, 2), ("U", false, 0)],
        Constraint::Includes(1)
    ));
    assert!(pays(&cost, &[("WU", true, 2)], Constraint::Anything));
    assert!(!pays(
        &cost,
        &[("WU", true, 2)],
        Constraint::IncludesUntapped
    ));
    let one_and_a_white = Cost::parse("{1}{W}").unwrap();
    assert!(pays(
        &one_and_a_white,
        &[("W", true, 1), ("U", false, 1)],
        Constraint::IncludesUntapped
    ));
}

#[test]
fn a_symbol_the_gate_cannot_pay_is_refused_by_name() {
    for text in ["{X}{U}", "{W/U}", "{2/W}", "{U/P}"] {
        let err = Cost::parse(text).unwrap_err();
        assert!(
            matches!(err, CostError::Unpayable { .. }),
            "{text} should be refused: {err:?}"
        );
    }
    assert!(matches!(
        Cost::parse("").unwrap_err(),
        CostError::Empty { .. }
    ));
    assert_eq!(Cost::parse("{0}").unwrap().total(), 0);
}

#[test]
fn both_spellings_of_a_cost_read_the_same() {
    let braced = Cost::parse("{1}{W}{U}").unwrap();
    let shorthand = Cost::parse("1WU").unwrap();
    assert_eq!(braced.total(), shorthand.total());
    assert_eq!(braced.pips(), shorthand.pips());
    assert_eq!(braced.generic(), shorthand.generic());
}

#[test]
fn the_unpayable_symbol_is_named() {
    match Cost::parse("{1}{W/U}") {
        Err(CostError::Unpayable { text, symbol }) => {
            assert_eq!(text, "{1}{W/U}");
            assert_eq!(symbol, "W/U");
        }
        other => panic!("expected a refusal, got {other:?}"),
    }
}

#[test]
fn a_cost_over_the_limit_is_too_large() {
    match Cost::parse("{101}") {
        Err(CostError::TooLarge { total, .. }) => assert_eq!(total, 101),
        other => panic!("expected a refusal, got {other:?}"),
    }
    assert_eq!(Cost::parse("{100}").unwrap().total(), 100);
}

#[test]
fn a_cost_keeps_how_it_was_written() {
    let cost = Cost::parse("2WW").unwrap();
    assert_eq!(cost.as_str(), "2WW");
    assert_eq!(cost.total(), 4);
    assert_eq!(cost.generic(), 2);
    assert_eq!(cost.pips(), [2, 0, 0, 0, 0, 0]);
    assert!(!cost.is_free());
}

#[test]
fn palettes_read_their_letters() {
    let p = Palette::from_letters(&["WU", "g"]);
    assert!(p.makes(Pip::White));
    assert!(p.makes(Pip::Blue));
    assert!(p.makes(Pip::Green));
    assert!(!p.makes(Pip::Red));
    assert!(Palette::from_letters(&[]).is_empty());
}
