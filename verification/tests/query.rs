use progress_engine::colors::{Cmp, Colors};
use std::cmp::Ordering;

#[test]
fn colors_parse_from_letters() {
    assert_eq!(Colors::from_letters("wu"), Colors::from_letters("UW"));
    assert!(Colors::from_letters("c").is_some());
    assert!(Colors::from_letters("z").is_none());
}

#[test]
fn identity_joins_its_letters() {
    let ci = vec!["W".to_string(), "U".to_string()];
    assert_eq!(Colors::from_identity(&ci), Colors(3));
    // A stray character makes no identity at all rather than a partial one.
    let bad = vec!["W".to_string(), "X".to_string()];
    assert_eq!(Colors::from_identity(&bad), Colors(0));
    assert!(Colors(1).is_subset_of(Colors(3)));
    assert!(!Colors(3).is_subset_of(Colors(1)));
}

#[test]
fn comparisons_read_orderings() {
    assert!(Cmp::Le.test_ord(Ordering::Equal));
    assert!(Cmp::Le.test_ord(Ordering::Less));
    assert!(!Cmp::Le.test_ord(Ordering::Greater));
    assert!(Cmp::Ne.test_ord(Ordering::Greater));
    assert!(!Cmp::Ne.test_ord(Ordering::Equal));
}

use progress_engine::colors::IsProperty;
use progress_engine::query::{is_number, lex, parse, ParseError, Query, Rarity, Token};

fn term(s: &str) -> Token {
    Token::Term(s.chars().collect())
}

#[test]
fn unsupported_syntax_errors_rather_than_matching_nothing() {
    for term in ["cube:vintage", "edhrecrank<=100", "cn:5", "year>=2020"] {
        assert!(
            matches!(parse(term), Err(ParseError::UnknownKey { .. })),
            "{term} should be refused by name"
        );
    }
    assert!(matches!(parse("is:shockland"), Err(ParseError::UnknownIsProperty { .. })));
    assert!(matches!(parse("is:tapland"), Err(ParseError::UnknownIsProperty { .. })));
    assert!(matches!(parse("f:pauperr"), Err(ParseError::BadFormat { .. })));
    assert!(matches!(parse("r:legendary"), Err(ParseError::BadRarity { .. })));
    assert!(matches!(parse("mv<=notanumber"), Err(ParseError::BadNumber { .. })));
    assert!(matches!(parse("id<=xyz"), Err(ParseError::BadColors { .. })));
    assert!(matches!(parse("t:"), Err(ParseError::MissingValue { .. })));
    assert!(matches!(parse("(t:land"), Err(ParseError::UnbalancedParen)));
    assert!(matches!(parse("t:land)"), Err(ParseError::UnbalancedParen)));
    assert!(matches!(parse("   "), Err(ParseError::Empty)));
}

#[test]
fn otag_parses_and_is_checked_against_the_index_not_the_parser() {
    assert!(matches!(parse("otag:surveil-land"), Ok(Query::Tag(t)) if t == "surveil-land"));
    assert!(matches!(parse("oracletag:tapland"), Ok(Query::Tag(t)) if t == "tapland"));
}

#[test]
fn error_messages_name_the_offending_term() {
    let err = parse("cube:vintage").unwrap_err().message();
    assert!(err.contains("cube"), "message should name the key: {err}");

    let err = parse("f:pauperr").unwrap_err().message();
    assert!(err.contains("pauperr"), "message should name the value: {err}");
    assert!(err.contains("paupercommander"), "message should list formats: {err}");

    let err = parse("is:tapland").unwrap_err().message();
    assert!(err.contains("tapland"), "message should name the property: {err}");
    assert!(err.contains("vanilla"), "message should list properties: {err}");
}

#[test]
fn bare_word_is_a_name_substring() {
    assert_eq!(parse("Senu").unwrap(), Query::Name("Senu".into()));
}

#[test]
fn kw_takes_a_value_not_a_comparison() {
    assert!(matches!(parse("kw>=flying"), Err(ParseError::NoComparison { .. })));
    assert!(matches!(parse("kw!=flying"), Err(ParseError::NoComparison { .. })));
    assert!(matches!(parse("kw:"), Err(ParseError::MissingValue { .. })));
    let err = parse("kw<flying").unwrap_err().message();
    assert!(err.contains("kw<flying"), "message should name the term: {err}");
    assert_eq!(parse("kw=flying").unwrap(), Query::Keyword("flying".into()));
}

#[test]
fn the_lexer_splits_on_spaces_and_parentheses_and_keeps_quotes_together() {
    let tokens = lex(&"t:land (o:\"Add {W}\" OR -name:x) and cat:ramp".chars().collect::<Vec<_>>());
    let shown: Vec<String> = tokens.iter().map(|t| format!("{t:?}")).collect();
    let expected: Vec<String> = [
        term("t:land"),
        Token::LParen,
        term("o:Add {W}"),
        Token::Or,
        Token::Minus,
        term("name:x"),
        Token::RParen,
        term("cat:ramp"),
    ]
    .iter()
    .map(|t| format!("{t:?}"))
    .collect();
    assert_eq!(shown, expected);
    // A quoted `or` is a value, and a quote left open runs to the end.
    let quoted = lex(&"\"or\" name:\"Rogue's".chars().collect::<Vec<_>>());
    let shown: Vec<String> = quoted.iter().map(|t| format!("{t:?}")).collect();
    assert_eq!(shown, vec![format!("{:?}", term("or")), format!("{:?}", term("name:Rogue's"))]);
}

#[test]
fn the_grammar_nests_and_inside_or_inside_parentheses() {
    let q = parse("t:creature -t:land or (o:flying o:menace)").unwrap();
    assert_eq!(
        q,
        Query::Or(vec![
            Query::And(vec![
                Query::Type("creature".into()),
                Query::Not(Box::new(Query::Type("land".into()))),
            ]),
            Query::And(vec![
                Query::Oracle("flying".into()),
                Query::Oracle("menace".into()),
            ]),
        ])
    );
    assert_eq!(parse("or t:land").unwrap_err(), ParseError::Unexpected("or".into()));
    assert_eq!(parse("t:land or").unwrap_err(), ParseError::Empty);
    assert_eq!(parse("()").unwrap_err(), ParseError::UnbalancedParen);
}

#[test]
fn comparisons_and_closed_sets_read_their_values() {
    assert_eq!(parse("mv<=2.5").unwrap(), Query::ManaValue(Cmp::Le, "2.5".into()));
    assert_eq!(parse("cmc:3").unwrap(), Query::ManaValue(Cmp::Eq, "3".into()));
    assert_eq!(parse("id:WU").unwrap(), Query::Identity(Cmp::Le, Colors(3)));
    assert_eq!(parse("id=wu").unwrap(), Query::Identity(Cmp::Eq, Colors(3)));
    assert_eq!(parse("r>=Rare").unwrap(), Query::Rarity(Cmp::Ge, Rarity::Rare));
    assert_eq!(parse("r:u").unwrap(), Query::Rarity(Cmp::Eq, Rarity::Uncommon));
    assert_eq!(parse("f:Commander").unwrap(), Query::Format("commander".into()));
    assert_eq!(parse("is:VANILLA").unwrap(), Query::Is(IsProperty::Vanilla));
    assert_eq!(
        parse("is:Tapland").unwrap_err(),
        ParseError::UnknownIsProperty { value: "tapland".into() }
    );
    assert_eq!(
        parse("Cube:x").unwrap_err(),
        ParseError::UnknownKey { key: "cube".into(), term: "Cube:x".into() }
    );
    // An operator after a non-letter key leaves a bare name.
    assert_eq!(parse("a1:b").unwrap(), Query::Name("a1:b".into()));
}

#[test]
fn numbers_follow_the_float_grammar() {
    let yes = ["2", "2.5", ".5", "5.", "+1", "-0", "1e3", "1E-3", "inf", "-Infinity", "NaN"];
    let no = ["", ".", "e3", "1e", "1.2.3", "two", "1 ", "--1", "infinit"];
    for s in yes {
        let c: Vec<char> = s.chars().collect();
        assert!(is_number(&c), "{s}");
        assert!(s.parse::<f64>().is_ok(), "{s}");
    }
    for s in no {
        let c: Vec<char> = s.chars().collect();
        assert!(!is_number(&c), "{s}");
        assert!(s.parse::<f64>().is_err(), "{s}");
    }
}
