use reggie::element::{zwl_from_str, ZeroWidthLiteral};
use reggie::error::ReggieError;
use reggie::flags::{Flag, Flags, GroupFlags};
use reggie::group_indices::GroupIndices;
use reggie::groups::{GroupIndex, TernaryGroupId};
use reggie::pattern::{GroupRef, Pattern};
use reggie::quantifiers::{Quantifier, G, Q};
use reggie::text::{decimal_string, parse_usize};

#[test]
fn decimal_text() {
    assert_eq!("0", decimal_string(0));
    assert_eq!("7", decimal_string(7));
    assert_eq!("1024", decimal_string(1024));
    assert_eq!(usize::MAX.to_string(), decimal_string(usize::MAX));
}

#[test]
fn unsigned_parsing() {
    assert_eq!(Some(42), parse_usize("42"));
    assert_eq!(Some(42), parse_usize("+42"));
    assert_eq!(None, parse_usize(""));
    assert_eq!(None, parse_usize("+"));
    assert_eq!(None, parse_usize("4a"));
    assert_eq!(None, parse_usize("-1"));
    assert_eq!(Some(usize::MAX), parse_usize(&usize::MAX.to_string()));
    assert_eq!(None, parse_usize("99999999999999999999999"));
}

#[test]
fn group_index_from_text() {
    assert!(matches!(GroupIndex::from_text("12"), GroupIndex::Numbered(12)));
    match GroupIndex::from_text("year") {
        GroupIndex::Named(n) => assert_eq!("year", n),
        other => panic!("unexpected {:?}", other),
    }
}

#[test]
fn ternary_ids_print() {
    assert_eq!("3", TernaryGroupId::Numbered(3).as_string());
    assert_eq!("x", TernaryGroupId::Named("x".to_string()).as_string());
}

#[test]
fn flag_codes() {
    assert!(matches!(Flag::from_char('L'), Ok(Flag::Locale)));
    assert!(matches!(Flag::from_char('q'), Err(ReggieError::InvalidFlag { bad_flag: 'q' })));
    assert_eq!("x", Flag::Verbose.as_string());
}

#[test]
fn flags_print_in_fixed_order() {
    let f = Flags::from_text("xmia").unwrap();
    assert_eq!("?aimx", f.as_string());
    let mut g = Flags::new();
    assert!(g.is_empty());
    assert_eq!("?", g.as_string());
    g.add(Flag::Dotall);
    g.add(Flag::Ascii);
    g.add(Flag::Dotall);
    assert_eq!("?as", g.as_string());
    g.remove(&Flag::Ascii);
    assert_eq!("?s", g.as_string());
    assert!(matches!(Flags::from_text("iz"), Err(ReggieError::InvalidFlag { bad_flag: 'z' })));
}

#[test]
fn group_flags_print_and_combine() {
    let pos = Flags::from_text("i").unwrap();
    let neg = Flags::from_text("ms").unwrap();
    let g = GroupFlags::new(pos, neg).unwrap();
    assert_eq!("?i-ms", g.as_string());
    let only = GroupFlags::new(Flags::from_text("u").unwrap(), Flags::new()).unwrap();
    assert_eq!("?u", only.as_string());
    let empty = GroupFlags::empty();
    assert!(empty.is_empty());
    assert_eq!("?i-ms", empty.combine(&g).as_string());
    assert_eq!("?u", only.combine(&g).as_string());
    let clash = GroupFlags::new(Flags::from_text("im").unwrap(), Flags::from_text("m").unwrap());
    assert!(matches!(clash, Err(ReggieError::InvalidFlag { bad_flag: 'm' })));
    assert_eq!("?i", pos.combine(&neg).as_string());
    assert_eq!("?ms", Flags::new().combine(&neg).as_string());
}

#[test]
fn zero_width_escapes() {
    assert_eq!(Some(ZeroWidthLiteral::InputStart), zwl_from_str("\\A"));
    assert_eq!(Some(ZeroWidthLiteral::InputEnd), zwl_from_str("\\Z"));
    assert_eq!(Some(ZeroWidthLiteral::WordBoundary), zwl_from_str("\\b"));
    assert_eq!(None, zwl_from_str("\\q"));
    assert_eq!(None, zwl_from_str("b"));
}

#[test]
fn quantifier_setters_and_multiplier() {
    let mut q = Quantifier::new(Q::NTimes { min: Some(3), max: None });
    assert_eq!(3, q.min_len_multiplier());
    q.set_greed(G::NonGreedy);
    assert_eq!("{3,}?", q.as_string());
    q.set_quantifier(Q::NExact(12));
    assert_eq!("{12}?", q.as_string());
    assert_eq!(12, q.min_len_multiplier());
    assert_eq!(0, Quantifier::new(Q::NTimes { min: None, max: Some(4) }).min_len_multiplier());
    assert_eq!(0, Quantifier::new(Q::ZeroOrMore).min_len_multiplier());
    assert_eq!(1, Quantifier::new(Q::OneOrMore).min_len_multiplier());
}

#[test]
fn composing_patterns() {
    let a = Pattern::new_literal("ab".to_string(), None);
    let b = Pattern::new_literal("c".to_string(), Some(Quantifier::new(Q::OneOrMore)));
    let alt = a.alternate_with(b);
    assert_eq!("ab|c+", alt.as_string());
    assert_eq!(1, alt.min_match_len());
    assert!(!alt.is_finite());
    let g = alt.into_group().quantify(Quantifier::new(Q::ZeroOrOne));
    assert_eq!("(ab|c+)?", g.as_string());
    assert_eq!(1, g.groups_count());
    let flagged = g.with_flag(Flag::Ignorecase);
    assert_eq!("(?i)(ab|c+)?", flagged.as_string());
    let plain = flagged.without_flag(Flag::Ignorecase);
    assert_eq!("(ab|c+)?", plain.as_string());
    let parts = plain.components();
    assert_eq!(1, parts.len());

    let set = Pattern::new_character_set(vec![('a', 'f')], None).unwrap();
    let class = Pattern::new_character_class(reggie::char_set::CClass::D, Some(Quantifier::new(Q::NExact(2))));
    let seq = set.follow_with(class);
    assert_eq!("([a-f]\\d{2})", seq.as_string());
    assert_eq!(3, seq.min_match_len());
    assert!(Pattern::new_character_set(vec![('f', 'a')], None).is_err());

    let named = Pattern::new_group(
        vec![Pattern::new_literal("x".to_string(), None)],
        None,
        Some("n".to_string()),
        None,
    );
    assert_eq!("(?P<n>x)", named.as_string());
    let neg = GroupFlags::new(Flags::new(), Flags::from_text("i").unwrap()).unwrap();
    assert!(matches!(
        Pattern::new_literal("x".to_string(), None).with_flags(neg),
        Err(ReggieError::NegativePatternFlags)
    ));
    let pos = GroupFlags::new(Flags::from_text("m").unwrap(), Flags::new()).unwrap();
    let p = Pattern::new_alternatives(vec![
        Pattern::new_literal("x".to_string(), None),
        Pattern::new_literal("y".to_string(), None),
    ])
    .with_flags(pos)
    .unwrap();
    assert_eq!("(?m)x|y", p.as_string());
    assert!(p.flags().unwrap().contains(Flag::Multiline));
}

#[test]
fn group_indices_number_captures() {
    let inner = Pattern::new_group(vec![Pattern::new_literal("b".to_string(), None)], None, None, None);
    let outer = Pattern::new_group(
        vec![Pattern::new_literal("a".to_string(), None), inner],
        None,
        Some("o".to_string()),
        None,
    );
    let p = outer.follow_with(Pattern::new_literal("z".to_string(), None));
    assert_eq!("((?P<o>a(b))z)", p.as_string());
    let idx = GroupIndices::new(&p);
    assert_eq!(3, idx.len());
    assert_eq!(3, p.groups_count());
    match idx.get(2) {
        Some(GroupRef::Group(g)) => assert_eq!("(?P<o>a(b))", g.as_string()),
        _ => panic!("group 2"),
    }
    match idx.get(3) {
        Some(GroupRef::Group(g)) => assert_eq!("(b)", g.as_string()),
        _ => panic!("group 3"),
    }
    assert!(idx.get(4).is_none());
    assert!(matches!(idx.get(0), Some(GroupRef::Whole(_))));
}

#[test]
fn error_messages() {
    let e = ReggieError::UnexpectedInput { input: "|".to_string(), char_ix: 5 };
    assert_eq!("Unexpected input | at character 5", e.message());
    assert_eq!(
        "Unexpected end of input at character 12",
        ReggieError::UnexpectedEndOfInput { char_ix: 12 }.message()
    );
    assert_eq!("Invalid flag q", ReggieError::InvalidFlag { bad_flag: 'q' }.message());
    assert_eq!(
        "Invalid literal \\q",
        ReggieError::InvalidLiteral { bad_literal: "\\q".to_string() }.message()
    );
    assert_eq!(
        "Invalid ranges z-a, q-p",
        ReggieError::InvalidRanges { bad_ranges: vec![('z', 'a'), ('q', 'p')] }.message()
    );
    assert_eq!(
        "Invalid character class k",
        ReggieError::InvalidCharClass { bad_cclass: "k".to_string() }.message()
    );
    assert_eq!("Pattern flags must be positive", ReggieError::NegativePatternFlags.message());
}

#[test]
fn group_indices_find_names() {
    let p = Pattern::new_group(
        vec![Pattern::new_literal("a".to_string(), None)],
        None,
        Some("first".to_string()),
        None,
    )
    .follow_with(Pattern::new_group(
        vec![Pattern::new_literal("b".to_string(), None)],
        None,
        Some("second".to_string()),
        None,
    ));
    let idx = GroupIndices::new(&p);
    let second = idx.named("second").expect("named group");
    assert_eq!("(?P<second>b)", second.as_string());
    match idx.get(3) {
        Some(GroupRef::Group(g)) => assert!(std::ptr::eq(g, second)),
        _ => panic!("group 3"),
    }
    assert!(idx.named("third").is_none());
}
