use reggie::error::ReggieError;
use reggie::flags::Flag;
use reggie::node::{ParseNode, Rule};
use reggie::pattern::{Group, GroupRef, Pattern, SubPattern};

fn leaf(rule: Rule, text: &str) -> ParseNode {
    ParseNode { rule, text: text.to_string(), line: 1, col: 1, children: Vec::new() }
}

fn node(rule: Rule, children: Vec<ParseNode>) -> ParseNode {
    let text: String = children.iter().map(|c| c.text.as_str()).collect();
    ParseNode { rule, text, line: 1, col: 1, children }
}

fn sub(children: Vec<ParseNode>) -> ParseNode {
    node(Rule::SubPattern, children)
}

fn lit(s: &str) -> ParseNode {
    leaf(Rule::Literals, s)
}

fn class(letter: &str) -> ParseNode {
    node(Rule::CharClass, vec![leaf(Rule::Backslash, "\\"), leaf(Rule::SetLiteral, letter)])
}

fn quant(children: Vec<ParseNode>) -> ParseNode {
    node(Rule::Quantifier, children)
}

fn star() -> ParseNode {
    quant(vec![leaf(Rule::Asterisk, "*")])
}

fn plus() -> ParseNode {
    quant(vec![leaf(Rule::Plus, "+")])
}

fn braces(rule: Rule, body: &str) -> ParseNode {
    quant(vec![leaf(Rule::LBrace, "{"), leaf(rule, body), leaf(Rule::RBrace, "}")])
}

fn regex(children: Vec<ParseNode>) -> ParseNode {
    node(Rule::Regex, children)
}

fn plain_group(children: Vec<ParseNode>) -> ParseNode {
    let mut all = vec![leaf(Rule::LParens, "(")];
    all.extend(children);
    all.push(leaf(Rule::RParens, ")"));
    node(Rule::Group, all)
}

fn ext_group(ext: ParseNode, children: Vec<ParseNode>) -> ParseNode {
    let mut all = vec![
        leaf(Rule::LParens, "("),
        node(Rule::GroupExt, vec![leaf(Rule::QuestionMark, "?"), ext]),
    ];
    all.extend(children);
    all.push(leaf(Rule::RParens, ")"));
    node(Rule::Group, all)
}

fn named(name: &str, children: Vec<ParseNode>) -> ParseNode {
    let ext = node(
        Rule::Named,
        vec![leaf(Rule::Caret, "P<"), leaf(Rule::GroupName, name), leaf(Rule::Caret, ">")],
    );
    ext_group(ext, children)
}

fn build(n: &ParseNode) -> Pattern {
    Pattern::from_pair(n).expect("the tree builds")
}

fn single(items: Vec<ParseNode>) -> Pattern {
    build(&regex(vec![sub(items)]))
}

#[test]
fn round_trip_flags_and_class() {
    let flags = node(
        Rule::WholePatternFlags,
        vec![leaf(Rule::LParens, "(?"), leaf(Rule::Flags, "i"), leaf(Rule::RParens, ")")],
    );
    let set = node(
        Rule::CharSet,
        vec![
            leaf(Rule::LSq, "["),
            node(
                Rule::CharRange,
                vec![leaf(Rule::SetLiteral, "a"), leaf(Rule::Hyphen, "-"), leaf(Rule::SetLiteral, "z")],
            ),
            leaf(Rule::RSq, "]"),
        ],
    );
    let p = build(&regex(vec![flags, sub(vec![set, plus()])]));
    assert_eq!("(?i)[a-z]+", p.as_string());
    let f = p.flags().expect("whole-pattern flags");
    assert!(f.contains(Flag::Ignorecase));
    assert!(!f.contains(Flag::Multiline));
}

#[test]
fn finiteness_examples() {
    assert!(single(vec![lit("a"), braces(Rule::NBetween, "2,4")]).is_finite());
    assert!(!single(vec![lit("a"), star()]).is_finite());
    assert!(!single(vec![lit("a"), plus()]).is_finite());
    assert!(!single(vec![lit("a"), braces(Rule::NAtLeast, "3,")]).is_finite());
    assert!(single(vec![lit("a"), braces(Rule::NAtMost, ",5")]).is_finite());
    let alts = node(
        Rule::Alternatives,
        vec![sub(vec![lit("a")]), leaf(Rule::Pipe, "|"), sub(vec![lit("b")])],
    );
    let g = plain_group(vec![sub(vec![alts]), sub(vec![lit("b"), star()])]);
    let p = single(vec![g]);
    assert_eq!("(a|bb*)", p.as_string());
    assert!(!p.is_finite());
}

#[test]
fn min_match_len_examples() {
    assert_eq!(3, single(vec![lit("abc")]).min_match_len());
    assert_eq!(0, single(vec![lit("a"), star()]).min_match_len());
    assert_eq!(1, single(vec![lit("a"), plus()]).min_match_len());
    assert_eq!(2, single(vec![lit("a"), braces(Rule::NBetween, "2,5")]).min_match_len());
    let alts = node(
        Rule::Alternatives,
        vec![sub(vec![lit("a")]), leaf(Rule::Pipe, "|"), sub(vec![lit("bb")])],
    );
    let p = single(vec![alts]);
    assert_eq!("a|bb", p.as_string());
    assert_eq!(1, p.min_match_len());
}

#[test]
fn group_indexing_skips_non_capturing() {
    let g1 = plain_group(vec![sub(vec![lit("a")])]);
    let g2 = ext_group(leaf(Rule::Noncapturing, ":"), vec![sub(vec![lit("b")])]);
    let g3 = named("x", vec![sub(vec![lit("c")])]);
    let p = build(&regex(vec![sub(vec![g1]), sub(vec![g2]), sub(vec![g3])]));
    assert_eq!("(a)(?:b)(?P<x>c)", p.as_string());
    assert_eq!(2, p.groups_count());
    let first = match p.nth_group(1) {
        Some(GroupRef::Group(g)) => g,
        _ => panic!("group 1"),
    };
    assert_eq!("(a)", first.as_string());
    let second = match p.nth_group(2) {
        Some(GroupRef::Group(g)) => g,
        _ => panic!("group 2"),
    };
    assert_eq!("(?P<x>c)", second.as_string());
    assert!(p.nth_group(3).is_none());
    assert!(matches!(p.nth_group(0), Some(GroupRef::Whole(_))));
    let by_name = p.group_by_name("x").expect("named group");
    assert!(std::ptr::eq(by_name, second));
    assert!(p.group_by_name("y").is_none());
}

#[test]
fn group_flags_are_scoped() {
    let ext = node(Rule::Noncapturing, vec![leaf(Rule::Flags, "i-m")]);
    let g = ext_group(ext, vec![sub(vec![lit("foo")])]);
    let p = single(vec![g]);
    assert_eq!("(?i-m:foo)", p.as_string());
    let grp = match p.nth_group(0) {
        Some(GroupRef::Whole(Pattern::Pat(pat))) => match &pat.sub_patterns[0] {
            SubPattern::Quantified(q) => match &q.quantifiable {
                reggie::pattern::Quantifiable::Group(g) => g,
                _ => panic!("a group"),
            },
            _ => panic!("a quantified item"),
        },
        _ => panic!("the whole pattern"),
    };
    match grp {
        Group::Group { flags, .. } => {
            assert!(flags.pos().contains(Flag::Ignorecase));
            assert!(!flags.pos().contains(Flag::Multiline));
            assert!(flags.neg().contains(Flag::Multiline));
            assert!(!flags.neg().contains(Flag::Ignorecase));
        },
        _ => panic!("a general group"),
    }
    assert_eq!(0, p.groups_count());
}

#[test]
fn group_flags_on_and_off_fail() {
    let ext = node(Rule::Noncapturing, vec![leaf(Rule::Flags, "i-i")]);
    let g = ext_group(ext, vec![sub(vec![lit("foo")])]);
    let r = Pattern::from_pair(&regex(vec![sub(vec![g])]));
    assert!(matches!(r, Err(ReggieError::InvalidFlag { bad_flag: 'i' })));
}

#[test]
fn reversed_range_is_invalid() {
    let set = node(
        Rule::CharSet,
        vec![
            leaf(Rule::LSq, "["),
            node(
                Rule::CharRange,
                vec![leaf(Rule::SetLiteral, "z"), leaf(Rule::Hyphen, "-"), leaf(Rule::SetLiteral, "a")],
            ),
            leaf(Rule::RSq, "]"),
        ],
    );
    match Pattern::from_pair(&regex(vec![sub(vec![set])])) {
        Err(ReggieError::InvalidRanges { bad_ranges }) => assert_eq!(vec![('z', 'a')], bad_ranges),
        other => panic!("expected invalid ranges, got {:?}", other),
    }
}

#[test]
fn year_month_end_to_end() {
    let year = named("year", vec![sub(vec![class("d"), braces(Rule::NExact, "4")])]);
    let month = named("month", vec![sub(vec![class("d"), braces(Rule::NExact, "2")])]);
    let p = build(&regex(vec![sub(vec![year]), sub(vec![lit("-")]), sub(vec![month])]));
    assert_eq!(2, p.groups_count());
    assert_eq!(7, p.min_match_len());
    assert!(p.is_finite());
    assert_eq!(r"(?P<year>\d{4})-(?P<month>\d{2})", p.as_string());
    let y = p.group_by_name("year").expect("year");
    assert_eq!(r"(?P<year>\d{4})", y.as_string());
    match p.nth_group(2) {
        Some(GroupRef::Group(g)) => assert_eq!(r"(?P<month>\d{2})", g.as_string()),
        _ => panic!("group 2"),
    }
}

fn col_leaf(rule: Rule, text: &str, col: usize) -> ParseNode {
    ParseNode { rule, text: text.to_string(), line: 1, col, children: Vec::new() }
}

#[test]
fn conditional_groups() {
    let id = node(Rule::GroupId, vec![leaf(Rule::LParens, "("), leaf(Rule::NumberedGroupId, "1")]);
    let ext = node(
        Rule::Ternary,
        vec![
            id,
            leaf(Rule::RParens, ")"),
            sub(vec![lit("a")]),
            leaf(Rule::Pipe, "|"),
            sub(vec![lit("bc")]),
        ],
    );
    let g = node(
        Rule::Group,
        vec![
            leaf(Rule::LParens, "("),
            node(Rule::GroupExt, vec![leaf(Rule::QuestionMark, "?"), ext]),
            leaf(Rule::RParens, ")"),
        ],
    );
    let p = single(vec![g]);
    assert_eq!("(?(1)a|bc)", p.as_string());
    assert_eq!(0, p.groups_count());
    assert_eq!(1, p.min_match_len());
    assert!(p.is_finite());

    let id = node(Rule::GroupId, vec![leaf(Rule::LParens, "("), leaf(Rule::NamedGroupId, "x")]);
    let ext = node(Rule::Ternary, vec![id, leaf(Rule::RParens, ")"), sub(vec![lit("a"), star()])]);
    let g = node(
        Rule::Group,
        vec![
            leaf(Rule::LParens, "("),
            node(Rule::GroupExt, vec![leaf(Rule::QuestionMark, "?"), ext]),
            leaf(Rule::RParens, ")"),
        ],
    );
    let p = single(vec![g]);
    assert_eq!("(?(x)a*)", p.as_string());
    assert!(!p.is_finite());
}

#[test]
fn backreference_lookbehind_and_comment() {
    let backref = node(
        Rule::NamedBackref,
        vec![leaf(Rule::Caret, "P="), node(Rule::GroupName, vec![leaf(Rule::GroupName, "foo")])],
    );
    let g1 = ext_group(backref, vec![]);
    let g2 = ext_group(leaf(Rule::PosLookbehind, "<="), vec![sub(vec![lit("ab")])]);
    let comment = node(
        Rule::CommentGroup,
        vec![
            leaf(Rule::LParens, "("),
            leaf(Rule::QuestionMark, "?"),
            leaf(Rule::Caret, "#"),
            leaf(Rule::Comment, "note"),
            leaf(Rule::RParens, ")"),
        ],
    );
    let zw = leaf(Rule::ZeroWidthLiteral, "\\A");
    let p = build(&regex(vec![sub(vec![zw]), sub(vec![g1]), sub(vec![g2]), sub(vec![comment])]));
    assert_eq!("\\a(?P=foo)(?<=ab)(?#note)", p.as_string());
    assert_eq!(2, p.min_match_len());
    assert_eq!(0, p.groups_count());
}

#[test]
fn lazy_and_possessive_quantifiers() {
    let lazy = quant(vec![leaf(Rule::Asterisk, "*"), leaf(Rule::QuestionMark, "?")]);
    assert_eq!("a*?", single(vec![lit("a"), lazy]).as_string());
    let possessive = quant(vec![
        leaf(Rule::LBrace, "{"),
        leaf(Rule::NBetween, "1,3"),
        leaf(Rule::RBrace, "}"),
        leaf(Rule::Plus, "+"),
    ]);
    assert_eq!("a{1,3}+", single(vec![lit("a"), possessive]).as_string());
}

#[test]
fn braces_without_bounds_fail() {
    let q = quant(vec![leaf(Rule::LBrace, "{"), col_leaf(Rule::NBetween, ",", 3), leaf(Rule::RBrace, "}")]);
    match Pattern::from_pair(&regex(vec![sub(vec![lit("a"), q])])) {
        Err(ReggieError::UnexpectedInput { input, char_ix }) => {
            assert_eq!(",", input);
            assert_eq!(3, char_ix);
        }
        other => panic!("unexpected {:?}", other),
    }
}

#[test]
fn misplaced_and_missing_nodes_fail() {
    match Pattern::from_pair(&regex(vec![col_leaf(Rule::Pipe, "|", 5)])) {
        Err(ReggieError::UnexpectedInput { input, char_ix }) => {
            assert_eq!("|", input);
            assert_eq!(5, char_ix);
        }
        other => panic!("unexpected {:?}", other),
    }
    let empty = ParseNode { rule: Rule::SubPattern, text: String::new(), line: 1, col: 4, children: Vec::new() };
    assert!(matches!(
        Pattern::from_pair(&regex(vec![empty])),
        Err(ReggieError::UnexpectedEndOfInput { char_ix: 4 })
    ));
    assert!(matches!(
        Pattern::from_pair(&regex(vec![sub(vec![leaf(Rule::ZeroWidthLiteral, "\\q")])])),
        Err(ReggieError::InvalidLiteral { .. })
    ));
    let bad_class = node(Rule::CharClass, vec![leaf(Rule::Backslash, "\\"), leaf(Rule::SetLiteral, "k")]);
    assert!(matches!(
        Pattern::from_pair(&regex(vec![sub(vec![bad_class])])),
        Err(ReggieError::InvalidCharClass { .. })
    ));
}

#[test]
fn whole_pattern_flags_cannot_turn_off() {
    let flags = node(
        Rule::WholePatternFlags,
        vec![leaf(Rule::LParens, "(?"), leaf(Rule::Flags, "i-m"), leaf(Rule::RParens, ")")],
    );
    assert!(matches!(
        Pattern::from_pair(&regex(vec![flags, sub(vec![lit("a")])])),
        Err(ReggieError::NegativePatternFlags)
    ));
}

#[test]
fn negated_bracket_expression() {
    let set = node(
        Rule::CharSet,
        vec![
            leaf(Rule::LSq, "["),
            leaf(Rule::SetNegation, "^"),
            leaf(Rule::SetLiteral, "b"),
            class("d"),
            leaf(Rule::EscapedHyphen, "\\-"),
            leaf(Rule::RSq, "]"),
        ],
    );
    let p = single(vec![set]);
    assert_eq!("[\0-,.-/:-ac-\u{10ffff}]", p.as_string());
    assert_eq!(1, p.min_match_len());
}

#[test]
fn nearest_flag_scope_wins() {
    let inner = ext_group(
        node(Rule::Noncapturing, vec![leaf(Rule::Flags, "s")]),
        vec![sub(vec![lit("x")])],
    );
    let outer = ext_group(leaf(Rule::Noncapturing, ":"), vec![sub(vec![inner])]);
    let p = single(vec![outer]);
    assert_eq!("(?:(?s:x))", p.as_string());
    let g = match &p.components()[0] {
        Pattern::Sub(SubPattern::Quantified(q)) => match &q.quantifiable {
            reggie::pattern::Quantifiable::Group(g) => g.flags().as_string(),
            _ => panic!("a group"),
        },
        _ => panic!("a sub-pattern"),
    };
    assert_eq!("?s", g);
}

#[test]
fn nested_round_trip() {
    let alts = node(
        Rule::Alternatives,
        vec![
            sub(vec![lit("a")]),
            leaf(Rule::Pipe, "|"),
            sub(vec![
                lit("b"),
                quant(vec![
                    leaf(Rule::LBrace, "{"),
                    leaf(Rule::NAtLeast, "2,"),
                    leaf(Rule::RBrace, "}"),
                    leaf(Rule::QuestionMark, "?"),
                ]),
            ]),
        ],
    );
    let inner = named("n", vec![sub(vec![alts])]);
    let outer = ext_group(
        leaf(Rule::Noncapturing, ":"),
        vec![sub(vec![inner]), sub(vec![class("d")])],
    );
    let behind = ext_group(leaf(Rule::NegLookbehind, "<!"), vec![sub(vec![lit("x")])]);
    let id = node(Rule::GroupId, vec![leaf(Rule::LParens, "("), leaf(Rule::NamedGroupId, "n")]);
    let cond = node(
        Rule::Ternary,
        vec![id, leaf(Rule::RParens, ")"), sub(vec![lit("y")]), leaf(Rule::Pipe, "|"), sub(vec![lit("z")])],
    );
    let cond_group = node(
        Rule::Group,
        vec![
            leaf(Rule::LParens, "("),
            node(Rule::GroupExt, vec![leaf(Rule::QuestionMark, "?"), cond]),
            leaf(Rule::RParens, ")"),
        ],
    );
    let flags = node(
        Rule::WholePatternFlags,
        vec![leaf(Rule::LParens, "(?"), leaf(Rule::Flags, "xi"), leaf(Rule::RParens, ")")],
    );
    let p = build(&regex(vec![
        flags,
        sub(vec![outer, plus()]),
        sub(vec![behind]),
        sub(vec![cond_group]),
        sub(vec![leaf(Rule::ZeroWidthLiteral, "\\b")]),
    ]));
    let text = p.as_string();
    assert_eq!(r"(?ix)(?:(?P<n>a|b{2,}?)\d)+(?<!x)(?(n)y|z)\b", text);
    assert_eq!(1, p.groups_count());
    // (?:...)+ needs 2, the lookbehind's body 1, the yes branch 1
    assert_eq!(4, p.min_match_len());
    assert!(!p.is_finite());
}

#[test]
fn bracket_with_surrogate_edge_members() {
    let set = node(
        Rule::CharSet,
        vec![
            leaf(Rule::LSq, "["),
            leaf(Rule::SetLiteral, "\u{e000}"),
            leaf(Rule::SetLiteral, "\u{d7ff}"),
            leaf(Rule::RSq, "]"),
        ],
    );
    let p = single(vec![set]);
    assert_eq!("[\u{d7ff}-\u{e000}]", p.as_string());
}
