use reggie::char_set::CharSet;
use reggie::element::{Literal, ZeroWidthLiteral};
use reggie::groups::GroupExt;
use reggie::pattern::Group;
use reggie::quantifiers::{Quantifier, G, Q};

#[test]
fn test_char_set_as_string() {
    let cs = CharSet::from_ranges(vec![('a', 'c'), ('e', 'g')]).unwrap();
    let expected = String::from("[a-ce-g]");
    assert_eq!(expected, cs.as_string())
}

#[test]
fn test_literal_min_match_len() {
    let l = Literal("foo".into());
    assert_eq!(3, l.min_match_len())
}

#[test]
fn test_literal_as_string() {
    let foo: String = "foo".into();
    let l = Literal(foo.clone());
    assert_eq!(foo, l.as_string());
}

#[test]
fn test_zwl_as_string() {
    assert_eq!(
        String::from("\\a"),
        ZeroWidthLiteral::InputStart.as_string()
    );
    assert_eq!(String::from("\\z"), ZeroWidthLiteral::InputEnd.as_string());
    assert_eq!(
        String::from("\\B"),
        ZeroWidthLiteral::NotWordBoundary.as_string()
    );
    assert_eq!(
        String::from("\\b"),
        ZeroWidthLiteral::WordBoundary.as_string()
    );
}

#[test]
fn test_group_ext_as_string() {
    assert_eq!(String::from("?:"), GroupExt::NonCapturing.as_string());
    assert_eq!(String::from("?>"), GroupExt::Atomic.as_string());
    assert_eq!(String::from("?="), GroupExt::PosLookahead.as_string());
    assert_eq!(String::from("?!"), GroupExt::NegLookahead.as_string());
    assert_eq!(String::from("?<="), GroupExt::PosLookbehind.as_string());
    assert_eq!(String::from("?<!"), GroupExt::NegLookbehind.as_string());
}

#[test]
fn test_group_as_string_named_backref() {
    assert_eq!(
        String::from("(?P=foo)"),
        Group::NamedBackref { name: "foo".into() }.as_string()
    );
}

fn q(quantifier: Q, greed: G) -> Quantifier {
    Quantifier { quantifier, greed }
}

#[test]
fn test_quantifier_as_string() {
    assert_eq!(String::from("?"), q(Q::ZeroOrOne, G::Greedy).as_string());
    assert_eq!(String::from("??"), q(Q::ZeroOrOne, G::NonGreedy).as_string());
    assert_eq!(String::from("?+"), q(Q::ZeroOrOne, G::Possessive).as_string());
    assert_eq!(String::from("*"), q(Q::ZeroOrMore, G::Greedy).as_string());
    assert_eq!(String::from("+"), q(Q::OneOrMore, G::Greedy).as_string());
    assert_eq!(String::from("{1}"), q(Q::NExact(1), G::Greedy).as_string());
    assert_eq!(
        String::from("{2,}"),
        q(Q::NTimes { min: Some(2), max: None }, G::Greedy).as_string()
    );
    assert_eq!(
        String::from("{,2}"),
        q(Q::NTimes { min: None, max: Some(2) }, G::Greedy).as_string()
    );
    assert_eq!(
        String::from("{2,4}"),
        q(Q::NTimes { min: Some(2), max: Some(4) }, G::Greedy).as_string()
    );
}

#[test]
fn test_quantifier_is_greedy() {
    assert!(q(Q::ZeroOrOne, G::Greedy).is_greedy());
    assert!(!q(Q::ZeroOrOne, G::NonGreedy).is_greedy());
    assert!(q(Q::ZeroOrOne, G::Possessive).is_greedy());
}

#[test]
fn test_quantifier_is_finite() {
    assert!(q(Q::ZeroOrOne, G::Greedy).is_finite());
    assert!(!q(Q::ZeroOrMore, G::Greedy).is_finite());
    assert!(!q(Q::OneOrMore, G::Greedy).is_finite());
    assert!(q(Q::NExact(3), G::Greedy).is_finite());
    assert!(!q(Q::NTimes { min: Some(3), max: None }, G::Greedy).is_finite());
    assert!(q(Q::NTimes { min: None, max: Some(3) }, G::Greedy).is_finite());
    assert!(q(Q::NTimes { min: Some(2), max: Some(3) }, G::Greedy).is_finite());
}
