use vstd::prelude::*;
use crate::char_set::{CharClass, CharSet, CClass, cclass_of, cclass_parses, cp, in_range, in_ranges, range_set, ranges_set, valid_ranges};
use crate::element::{Element, Literal, ZeroWidthLiteral, zwl_from_str, zwl_of};
use crate::error::ReggieError;
use crate::flags::{Flags, GroupFlags, flags_in, all_flag_codes, flags_round_trip, lemma_same_flags_same_codes};
use crate::groups::{GroupExt, TernaryGroupId};
use crate::node::{ParseNode, Rule};
use crate::pattern::{Alternatives, Group, Pat, Pattern, Quantifiable, Quantified, SubPattern, all_wf, alts_text, concat_text, same_group, same_item, same_list, same_pat, same_seq, same_sub};
use crate::quantifiers::{G, Q, Quantifier};
use crate::text::{decimal, is_digit, lemma_decimal_parses, lemma_decimal_round_trip, parse_usize, parses_as_usize, parsed_usize};
use vstd::string::*;

verus! {

broadcast use vstd::std_specs::vec::axiom_vec_index_decreases;

/// Pushing a well-formed sub-pattern keeps a well-formed list well formed.
proof fn lemma_all_wf_push(v1: Vec<SubPattern>, v2: Vec<SubPattern>, n: int)
    requires
        0 <= n <= v1.len(),
        v2@ == v1@.push(v2@[v1.len() as int]),
        n <= v1.len(),
    ensures
        all_wf(v2, n) == all_wf(v1, n),
    decreases n,
{
    if n > 0 {
        lemma_all_wf_push(v1, v2, n - 1);
        assert(v2[n - 1] == v1[n - 1]);
    }
}

/// Pushing keeps the text of a prefix.
proof fn lemma_concat_push(v1: Vec<SubPattern>, v2: Vec<SubPattern>, n: int)
    requires
        0 <= n <= v1.len(),
        v2.len() == v1.len() + 1,
        forall|i: int| 0 <= i < v1.len() ==> v2@[i] == v1@[i],
    ensures
        concat_text(v2, n) == concat_text(v1, n),
        alts_text(v2, n) == alts_text(v1, n),
        forall|b: Vec<SubPattern>| #[trigger] same_list(v2, b, n) == same_list(v1, b, n),
    decreases n,
{
    if n > 0 {
        lemma_concat_push(v1, v2, n - 1);
        assert(v2[n - 1] == v1[n - 1]);
        assert(v2[0] == v1[0]);
        assert forall|b: Vec<SubPattern>| #[trigger] same_list(v2, b, n) == same_list(v1, b, n) by {
            assert(same_list(v2, b, n - 1) == same_list(v1, b, n - 1));
        }
    } else {
        assert forall|b: Vec<SubPattern>| #[trigger] same_list(v2, b, n) == same_list(v1, b, n) by {}
    }
}

fn push_wf(v: &mut Vec<SubPattern>, x: SubPattern)
    requires
        all_wf(*old(v), old(v).len() as int),
        x.wf(),
    ensures
        all_wf(*final(v), final(v).len() as int),
        final(v)@ == old(v)@.push(x),
{
    let ghost v1 = *v;
    v.push(x);
    proof {
        lemma_all_wf_push(v1, *v, v1.len() as int);
    }
}

/// The first character of a node's text.
fn first_char(node: &ParseNode) -> (r: Result<char, ReggieError>)
    ensures
        r matches Ok(c) ==> node.text@.len() > 0 && c == node.text@[0],
        r is Err <==> node.text@.len() == 0,
        r matches Err(e) ==> e == (ReggieError::UnexpectedEndOfInput { char_ix: node.col }),
{
    if node.text.as_str().unicode_len() == 0 {
        Err(ReggieError::unexpected_eoi(node.col))
    } else {
        Ok(node.text.as_str().get_char(0))
    }
}

/// Splits text at the first `sep`: what comes before and what comes after;
/// without one, all of it and nothing.
pub open spec fn split_first(s: Seq<char>, sep: char) -> (Seq<char>, Seq<char>) {
    if s.contains(sep) {
        let i = choose|i: int| 0 <= i < s.len() && s[i] == sep && forall|j: int| 0 <= j < i ==> s[j] != sep;
        (s.subrange(0, i), s.subrange(i + 1, s.len() as int))
    } else {
        (s, Seq::empty())
    }
}

/// Flag text split into the flags turned on and those turned off.
pub open spec fn split_dash(s: Seq<char>) -> (Seq<char>, Seq<char>) {
    split_first(s, '-')
}

/// Locates the first `sep` in `t`: its index, or the length when there is none.
fn find_first(t: &str, sep: char) -> (k: usize)
    ensures
        k <= t@.len(),
        k < t@.len() ==> t@[k as int] == sep,
        k < t@.len() ==> split_first(t@, sep) == (t@.subrange(0, k as int), t@.subrange(k + 1, t@.len() as int)),
        k == t@.len() ==> split_first(t@, sep) == (t@, Seq::<char>::empty()) && !t@.contains(sep),
{
    let n = t.unicode_len();
    let mut k: usize = 0;
    while k < n && t.get_char(k) != sep
        invariant
            k <= n,
            n == t@.len(),
            forall|j: int| 0 <= j < k ==> t@[j] != sep,
        decreases n - k,
    {
        k += 1;
    }
    proof {
        let s = t@;
        if k < n {
            assert(s[k as int] == sep);
            assert(s.contains(sep));
            let i = choose|i: int| 0 <= i < s.len() && s[i] == sep && forall|j: int| 0 <= j < i ==> s[j] != sep;
            assert(i == k) by {
                if i < k {
                    assert(s[i] != sep);
                }
                if i > k {
                    assert(s[k as int] != sep);
                }
            }
        } else {
            assert(!s.contains(sep));
        }
    }
    k
}

/// The count that a brace body states.
pub open spec fn count_of(node: ParseNode) -> Option<Q> {
    let t = node.text@;
    let lo = split_first(t, ',').0;
    let hi = split_first(t, ',').1;
    match node.rule {
        Rule::NExact => if parses_as_usize(t) {
            Some(Q::NExact(parsed_usize(t) as usize))
        } else {
            None
        },
        Rule::NBetween => if t.contains(',') && parses_as_usize(lo) && parses_as_usize(hi) {
            Some(Q::NTimes { min: Some(parsed_usize(lo) as usize), max: Some(parsed_usize(hi) as usize) })
        } else {
            None
        },
        Rule::NAtLeast => if t.contains(',') && parses_as_usize(lo) && hi.len() == 0 {
            Some(Q::NTimes { min: Some(parsed_usize(lo) as usize), max: None })
        } else {
            None
        },
        Rule::NAtMost => if t.contains(',') && lo.len() == 0 && parses_as_usize(hi) {
            Some(Q::NTimes { min: None, max: Some(parsed_usize(hi) as usize) })
        } else {
            None
        },
        _ => None,
    }
}

/// The repetition count of a quantifier node, from its first child (and the
/// brace body after it).
pub open spec fn base_of(node: ParseNode) -> Option<Q> {
    if node.children.len() == 0 {
        None
    } else {
        match node.children[0].rule {
            Rule::QuestionMark => Some(Q::ZeroOrOne),
            Rule::Asterisk => Some(Q::ZeroOrMore),
            Rule::Plus => Some(Q::OneOrMore),
            Rule::LBrace => if node.children.len() >= 2 {
                count_of(node.children[1])
            } else {
                None
            },
            _ => None,
        }
    }
}

/// Where the greediness suffix of a quantifier node starts.
pub open spec fn suffix_start(node: ParseNode) -> int {
    if node.children.len() > 0 && node.children[0].rule == Rule::LBrace {
        2
    } else {
        1
    }
}

/// Whether children `start..n` are all `?`, `+` or `}`.
pub open spec fn suffix_ok(v: Vec<ParseNode>, start: int, n: int) -> bool
    decreases n - start,
{
    if n <= start || n > v.len() {
        true
    } else {
        suffix_ok(v, start, n - 1) && (v[n - 1].rule == Rule::QuestionMark || v[n - 1].rule
            == Rule::Plus || v[n - 1].rule == Rule::RBrace)
    }
}

proof fn lemma_suffix_prefix(v: Vec<ParseNode>, start: int, m: int, n: int)
    requires
        start <= m <= n <= v.len(),
        suffix_ok(v, start, n),
    ensures
        suffix_ok(v, start, m),
    decreases n - m,
{
    if m < n {
        lemma_suffix_prefix(v, start, m, n - 1);
    }
}

/// The greediness after children `start..n`: the last `?` makes it lazy, the
/// last `+` possessive.
pub open spec fn greed_after(v: Vec<ParseNode>, start: int, n: int) -> G
    decreases n - start,
{
    if n <= start || n > v.len() {
        G::Greedy
    } else {
        match v[n - 1].rule {
            Rule::QuestionMark => G::NonGreedy,
            Rule::Plus => G::Possessive,
            _ => greed_after(v, start, n - 1),
        }
    }
}

/// The extension kind that a group-extension node names.
pub open spec fn ext_of(rule: Rule) -> Option<GroupExt> {
    match rule {
        Rule::Noncapturing => Some(GroupExt::NonCapturing),
        Rule::Atomic => Some(GroupExt::Atomic),
        Rule::PosLookahead => Some(GroupExt::PosLookahead),
        Rule::NegLookahead => Some(GroupExt::NegLookahead),
        Rule::PosLookbehind => Some(GroupExt::PosLookbehind),
        Rule::NegLookbehind => Some(GroupExt::NegLookbehind),
        _ => None,
    }
}

/// Whether a conditional group's identifier is the one an identifier node
/// gives: a number for a numbered one, the text for a named one.
pub open spec fn id_matches(id: TernaryGroupId, node: ParseNode) -> bool {
    match id {
        TernaryGroupId::Numbered(v) => node.rule == Rule::NumberedGroupId && parses_as_usize(
            node.text@,
        ) && v == parsed_usize(node.text@),
        TernaryGroupId::Named(s) => node.rule == Rule::NamedGroupId && s@ == node.text@,
    }
}

/// Whether an item is the kind that its node names.
pub open spec fn item_matches(q: Quantifiable, node: ParseNode) -> bool {
    match node.rule {
        Rule::CharSet => q matches Quantifiable::Element(Element::CharSet(cs)) && cs.chars()
            == bracket_chars(node),
        Rule::CharClass => q matches Quantifiable::Element(Element::CharClass(c)) && cclass_of(
            node.text@[1],
        ) == Some(c.class_kind()),
        Rule::Literals => q matches Quantifiable::Element(Element::Literal(l)) && l.0@ == node.text@,
        Rule::Group => q is Group,
        _ => false,
    }
}

/// Whether a conditional group is the one its node describes: the identifier
/// of its identifier node, and a no branch exactly when one is written.
pub open spec fn ternary_matches(g: Group, ext: ParseNode) -> bool {
    &&& g matches Group::Ternary { group_id, no_pat, .. }
    &&& ext.children.len() >= 3 && ext.children[0].children.len() >= 2
    &&& id_matches(g->group_id, ext.children[0].children[1])
    &&& (g->no_pat is Some <==> ext.children.len() > 3)
}

/// Whether a group is the kind that its extension node names.
pub open spec fn ext_node_matches(g: Group, ext: ParseNode) -> bool {
    match ext.rule {
        Rule::NamedBackref => g matches Group::NamedBackref { name } && ext.children.len() >= 2
            && ext.children[1].children.len() >= 1 && name@ == ext.children[1].children[0].text@,
        Rule::Named => g matches Group::Group { ext: None, name: Some(n), .. } && ext.children.len()
            >= 2 && n@ == ext.children[1].text@,
        Rule::Ternary => ternary_matches(g, ext),
        _ => ext_of(ext.rule) is Some && (g matches Group::Group { ext: Some(e), name: None, .. }
            && Some(e) == ext_of(ext.rule)),
    }
}

/// Whether a sub-pattern is the kind that its first node names.
pub open spec fn sub_matches(sp: SubPattern, node: ParseNode) -> bool {
    match node.rule {
        Rule::Alternatives => sp is Alternatives,
        Rule::Group | Rule::Literals | Rule::CharSet | Rule::CharClass => sp matches SubPattern::Quantified(
            q,
        ) && item_matches(q.quantifiable, node),
        Rule::ZeroWidthLiteral => sp matches SubPattern::ZeroWidthLiteral(z) && zwl_of(node.text@)
            == Some(z),
        Rule::CommentGroup => sp matches SubPattern::Comment(c) && node.children.len() >= 4 && c@
            == node.children[3].text@,
        _ => false,
    }
}

/// How many of the first `n` children are of the given kind.
pub open spec fn count_rule(v: Vec<ParseNode>, rule: Rule, n: int) -> nat
    decreases n,
{
    if n <= 0 || n > v.len() {
        0
    } else {
        count_rule(v, rule, n - 1) + if v[n - 1].rule == rule {
            1nat
        } else {
            0nat
        }
    }
}

/// Whether a child of a bracket expression has the parts its kind needs:
/// both bounds of a range, the text of a member, a known class escape.
pub open spec fn child_shaped(p: ParseNode) -> bool {
    match p.rule {
        Rule::SetNegation | Rule::LSq | Rule::RSq | Rule::Hyphen | Rule::EscapedHyphen | Rule::Caret => true,
        Rule::CharRange => p.children.len() >= 3 && p.children[0].text@.len() > 0
            && p.children[2].text@.len() > 0,
        Rule::SetLiteral => p.text@.len() > 0,
        Rule::CharClass => cclass_parses(p.text@),
        _ => false,
    }
}

/// A shaped child whose range, if it is one, runs upwards.
pub open spec fn child_ok(p: ParseNode) -> bool {
    child_shaped(p) && (p.rule == Rule::CharRange ==> cp(p.children[0].text@[0]) <= cp(
        p.children[2].text@[0],
    ))
}

pub open spec fn items_shaped(v: Vec<ParseNode>) -> bool {
    forall|k: int| 0 <= k < v.len() ==> #[trigger] child_shaped(v[k])
}

pub open spec fn items_ok(v: Vec<ParseNode>) -> bool {
    forall|k: int| 0 <= k < v.len() ==> #[trigger] child_ok(v[k])
}

proof fn lemma_child_fails(v: Vec<ParseNode>, i: int)
    requires
        0 <= i < v.len(),
        !child_ok(v[i]),
    ensures
        !items_ok(v),
        !child_shaped(v[i]) ==> !items_shaped(v),
{
    assert(!child_ok(v[i]));
    if !child_shaped(v[i]) {
        assert(!child_shaped(v[i]));
    }
}

/// Whether `p` is a range whose bounds, `bad`, run downwards.
pub open spec fn reversed_range(p: ParseNode, bad: Seq<(char, char)>) -> bool {
    &&& child_shaped(p)
    &&& p.rule == Rule::CharRange
    &&& bad == seq![(p.children[0].text@[0], p.children[2].text@[0])]
    &&& cp(p.children[0].text@[0]) > cp(p.children[2].text@[0])
}

/// Whether inline group flags `on[-off]` name only flags, none of them both
/// on and off.
pub open spec fn group_flags_ok(t: Seq<char>) -> bool {
    &&& all_flag_codes(split_dash(t).0)
    &&& all_flag_codes(split_dash(t).1)
    &&& flags_in(split_dash(t).0).disjoint(flags_in(split_dash(t).1))
}

/// Whether a group node is a non-capturing group whose inline flags are
/// refused.
pub open spec fn bad_group_flags(node: ParseNode) -> bool {
    &&& node.children.len() >= 2
    &&& node.children[1].rule == Rule::GroupExt
    &&& node.children[1].children.len() >= 2
    &&& node.children[1].children[1].rule == Rule::Noncapturing
    &&& node.children[1].children[1].children.len() > 0
    &&& !group_flags_ok(node.children[1].children[1].children[0].text@)
}

/// The characters one child of a bracket expression adds.
pub open spec fn item_chars(p: ParseNode) -> Set<char> {
    match p.rule {
        Rule::CharRange => range_set(p.children[0].text@[0], p.children[2].text@[0]),
        Rule::Hyphen | Rule::EscapedHyphen => range_set('-', '-'),
        Rule::SetLiteral => range_set(p.text@[0], p.text@[0]),
        Rule::Caret => range_set('^', '^'),
        Rule::CharClass => match cclass_of(p.text@[1]) {
            Some(k) => k.to_char_class_spec().chars(),
            None => Set::empty(),
        },
        _ => Set::empty(),
    }
}

/// The characters the first `n` children of a bracket expression add.
pub open spec fn items_chars(v: Vec<ParseNode>, n: int) -> Set<char>
    decreases n,
{
    if n <= 0 || n > v.len() {
        Set::empty()
    } else {
        items_chars(v, n - 1).union(item_chars(v[n - 1]))
    }
}

/// Whether one of the first `n` children negates the bracket expression.
pub open spec fn negation_in(v: Vec<ParseNode>, n: int) -> bool
    decreases n,
{
    if n <= 0 || n > v.len() {
        false
    } else {
        negation_in(v, n - 1) || v[n - 1].rule == Rule::SetNegation
    }
}

/// The characters of a bracket expression node.
pub open spec fn bracket_chars(node: ParseNode) -> Set<char> {
    let items = items_chars(node.children, node.children.len() as int);
    if negation_in(node.children, node.children.len() as int) {
        items.complement()
    } else {
        items
    }
}

impl Literal {
    /// A literal run from a `literals` node.
    pub fn from_pair(node: &ParseNode) -> (r: Result<Literal, ReggieError>)
        ensures
            r is Ok <==> node.rule == Rule::Literals,
            r matches Ok(l) ==> l.0@ == node.text@,
            r matches Err(e) ==> e matches ReggieError::UnexpectedInput { input, char_ix }
                && input@ == node.text@ && char_ix == node.col,
    {
        if node.rule == Rule::Literals {
            Ok(Literal(String::from_str(node.text.as_str())))
        } else {
            Err(ReggieError::unexpected_input(node))
        }
    }
}

impl ZeroWidthLiteral {
    /// An assertion from its escape text.
    pub fn from_pair(node: &ParseNode) -> (r: Result<ZeroWidthLiteral, ReggieError>)
        ensures
            r is Ok <==> zwl_of(node.text@) is Some,
            r matches Ok(z) ==> Some(z) == zwl_of(node.text@),
            r matches Err(e) ==> e matches ReggieError::InvalidLiteral { bad_literal }
                && bad_literal@ == node.text@,
    {
        match zwl_from_str(node.text.as_str()) {
            Some(z) => Ok(z),
            None => Err(ReggieError::InvalidLiteral { bad_literal: String::from_str(node.text.as_str()) }),
        }
    }
}

impl CharClass {
    /// A predefined class from its escape text, such as `\d`.
    pub fn from_pair(node: &ParseNode) -> (r: Result<CharClass, ReggieError>)
        ensures
            r is Ok <==> cclass_parses(node.text@),
            r matches Ok(c) ==> cclass_of(node.text@[1]) matches Some(k) && c == k.to_char_class_spec(),
            r matches Err(e) ==> e is InvalidCharClass,
    {
        match CClass::from_str(node.text.as_str()) {
            Ok(k) => Ok(k.to_char_class()),
            Err(e) => Err(e),
        }
    }
}

impl Element {
    /// An element from a bracket expression, a class escape or a literal run.
    pub fn from_pair(node: &ParseNode) -> (r: Result<Element, ReggieError>)
        ensures
            r matches Ok(e) ==> e.wf(),
            !(node.rule == Rule::CharSet || node.rule == Rule::CharClass || node.rule
                == Rule::Literals) ==> r is Err,
            node.rule == Rule::Literals ==> (r matches Ok(Element::Literal(l)) && l.0@ == node.text@),
            node.rule == Rule::CharClass ==> (r is Ok <==> cclass_parses(node.text@)),
            node.rule == Rule::CharClass && r is Ok ==> (r->Ok_0 matches Element::CharClass(c) && (cclass_of(
                node.text@[1],
            ) matches Some(k) && c == k.to_char_class_spec())),
            node.rule == Rule::CharSet ==> (r is Ok <==> items_ok(node.children)),
            node.rule == Rule::CharSet && r is Ok ==> (r->Ok_0 matches Element::CharSet(cs) && cs.chars()
                == bracket_chars(*node)),
    {
        match node.rule {
            Rule::CharSet => Ok(Element::CharSet(CharSet::from_pair(node)?)),
            Rule::CharClass => Ok(Element::CharClass(CharClass::from_pair(node)?)),
            Rule::Literals => Ok(Element::Literal(Literal::from_pair(node)?)),
            _ => Err(ReggieError::unexpected_input(node)),
        }
    }
}

impl Element {
    /// An element from a bracket-expression node.
    pub fn charset_from_pair(node: &ParseNode) -> (r: Result<Element, ReggieError>)
        ensures
            r matches Ok(e) ==> e is CharSet && e.wf(),
            r is Ok <==> node.rule == Rule::CharSet && items_ok(node.children),
            r matches Ok(Element::CharSet(cs)) ==> cs.chars() == bracket_chars(*node),
    {
        Ok(Element::CharSet(CharSet::from_pair(node)?))
    }

    /// An element from a literal-run node.
    pub fn literals_from_pair(node: &ParseNode) -> (r: Result<Element, ReggieError>)
        ensures
            r is Ok <==> node.rule == Rule::Literals,
            r matches Ok(e) ==> (e matches Element::Literal(l) && l.0@ == node.text@),
    {
        Ok(Element::Literal(Literal::from_pair(node)?))
    }
}

impl CharSet {
    /// A bracket expression: ranges, single members, escaped hyphens and
    /// predefined classes, complemented once at the end after a leading `^`.
    pub fn from_pair(node: &ParseNode) -> (r: Result<CharSet, ReggieError>)
        ensures
            r is Ok <==> node.rule == Rule::CharSet && items_ok(node.children),
            r matches Ok(cs) ==> cs.wf() && cs.chars() == bracket_chars(*node),
            r matches Err(e) ==> (e matches ReggieError::InvalidRanges { bad_ranges } ==> exists|k: int|
                0 <= k < node.children.len() && #[trigger] reversed_range(node.children[k], bad_ranges@)),
            node.rule == Rule::CharSet && items_shaped(node.children) && r is Err ==> r->Err_0 is InvalidRanges,
    {
        if node.rule != Rule::CharSet {
            return Err(ReggieError::unexpected_input(node));
        }
        let mut cs = CharSet::empty();
        let mut negated = false;
        let mut i: usize = 0;
        proof {
            assert(cs.chars() =~= Set::<char>::empty());
        }
        while i < node.children.len()
            invariant
                node.rule == Rule::CharSet,
                cs.wf(),
                i <= node.children.len(),
                cs.chars() == items_chars(node.children, i as int),
                negated == negation_in(node.children, i as int),
                forall|k: int| 0 <= k < i ==> #[trigger] child_ok(node.children[k]),
            decreases node.children.len() - i,
        {
            let ghost before = cs.chars();
            let p = &node.children[i];
            proof {
                if item_chars(*p) == Set::<char>::empty() {
                    assert(before.union(item_chars(*p)) =~= before);
                }
            }
            match p.rule {
                Rule::SetNegation => {
                    negated = true;
                },
                Rule::CharRange => {
                    if p.children.len() < 3 {
                        proof {
                            lemma_child_fails(node.children, i as int);
                        }
                        return Err(ReggieError::unexpected_eoi(p.col));
                    }
                    let low = match first_char(&p.children[0]) {
                        Ok(c) => c,
                        Err(e) => {
                            proof {
                                lemma_child_fails(node.children, i as int);
                            }
                            return Err(e);
                        },
                    };
                    let high = match first_char(&p.children[2]) {
                        Ok(c) => c,
                        Err(e) => {
                            proof {
                                lemma_child_fails(node.children, i as int);
                            }
                            return Err(e);
                        },
                    };
                    match cs.add_range(low, high) {
                        Ok(()) => {},
                        Err(e) => {
                            proof {
                                assert(reversed_range(*p, seq![(low, high)]));
                                lemma_child_fails(node.children, i as int);
                            }
                            return Err(e);
                        },
                    }
                },
                Rule::Hyphen | Rule::EscapedHyphen => {
                    cs.add_range('-', '-')?;
                },
                Rule::SetLiteral => {
                    let c = match first_char(p) {
                        Ok(c) => c,
                        Err(e) => {
                            proof {
                                lemma_child_fails(node.children, i as int);
                            }
                            return Err(e);
                        },
                    };
                    cs.add_range(c, c)?;
                },
                Rule::Caret => {
                    cs.add_range('^', '^')?;
                },
                Rule::CharClass => {
                    let cls = match CharClass::from_pair(p) {
                        Ok(c) => c,
                        Err(e) => {
                            proof {
                                lemma_child_fails(node.children, i as int);
                            }
                            return Err(e);
                        },
                    };
                    let other = cls.to_range();
                    cs.add_disjoint_range(&other);
                },
                Rule::LSq | Rule::RSq => {},
                _ => {
                    proof {
                        lemma_child_fails(node.children, i as int);
                    }
                    return Err(ReggieError::unexpected_input(p));
                },
            }
            i += 1;
        }
        if negated {
            Ok(cs.complement())
        } else {
            Ok(cs)
        }
    }
}

impl Quantifier {
    /// The count in braces: `n`, `m,n`, `m,` or `,n`.
    #[verifier::spinoff_prover]
    #[verifier::rlimit(60)]
    fn n_from_pair(node: &ParseNode) -> (r: Result<Q, ReggieError>)
        ensures
            r is Ok <==> count_of(*node) is Some,
            r matches Ok(q) ==> Some(q) == count_of(*node) && q.wf(),
    {
        let t = node.text.as_str();
        let n = t.unicode_len();
        match node.rule {
            Rule::NExact => match parse_usize(t) {
                Some(v) => Ok(Q::NExact(v)),
                None => Err(ReggieError::unexpected_input(node)),
            },
            Rule::NBetween | Rule::NAtLeast | Rule::NAtMost => {
                let k = find_first(t, ',');
                if k == n {
                    return Err(ReggieError::unexpected_eoi(node.col));
                }
                let lo_text = t.substring_char(0, k);
                let hi_text = t.substring_char(k + 1, n);
                let lo = parse_usize(lo_text);
                let hi = parse_usize(hi_text);
                match node.rule {
                    Rule::NBetween => match (lo, hi) {
                        (Some(a), Some(b)) => Ok(Q::NTimes { min: Some(a), max: Some(b) }),
                        _ => Err(ReggieError::unexpected_input(node)),
                    },
                    Rule::NAtLeast => match lo {
                        Some(a) => {
                            if hi_text.unicode_len() != 0 {
                                return Err(ReggieError::unexpected_input(node));
                            }
                            Ok(Q::NTimes { min: Some(a), max: None })
                        },
                        None => Err(ReggieError::unexpected_input(node)),
                    },
                    _ => match hi {
                        Some(b) => {
                            if lo_text.unicode_len() != 0 {
                                return Err(ReggieError::unexpected_input(node));
                            }
                            Ok(Q::NTimes { min: None, max: Some(b) })
                        },
                        None => Err(ReggieError::unexpected_input(node)),
                    },
                }
            },
            _ => Err(ReggieError::unexpected_input(node)),
        }
    }

    /// A quantifier node: `?`, `*`, `+` or a count in braces, then an optional
    /// `?` (lazy) or `+` (possessive).
    pub fn from_pair(node: &ParseNode) -> (r: Result<Quantifier, ReggieError>)
        ensures
            r is Ok <==> node.rule == Rule::Quantifier && base_of(*node) is Some && suffix_ok(
                node.children,
                suffix_start(*node),
                node.children.len() as int,
            ),
            r matches Ok(q) ==> q.wf() && Some(q.quantifier) == base_of(*node) && q.greed
                == greed_after(node.children, suffix_start(*node), node.children.len() as int),
    {
        if node.rule != Rule::Quantifier {
            return Err(ReggieError::unexpected_input(node));
        }
        let n = node.children.len();
        if n == 0 {
            return Err(ReggieError::unexpected_eoi(node.col));
        }
        let first = &node.children[0];
        let mut i: usize = 1;
        let mut q = match first.rule {
            Rule::QuestionMark => Quantifier::new(Q::ZeroOrOne),
            Rule::Asterisk => Quantifier::new(Q::ZeroOrMore),
            Rule::Plus => Quantifier::new(Q::OneOrMore),
            Rule::LBrace => {
                if n < 2 {
                    return Err(ReggieError::unexpected_eoi(node.col));
                }
                i = 2;
                Quantifier::new(Quantifier::n_from_pair(&node.children[1])?)
            },
            _ => {
                return Err(ReggieError::unexpected_input(first));
            },
        };
        assert(i == suffix_start(*node));
        assert(Some(q.quantifier) == base_of(*node));
        while i < n
            invariant
                q.wf(),
                n == node.children.len(),
                suffix_start(*node) <= i <= n,
                Some(q.quantifier) == base_of(*node),
                suffix_ok(node.children, suffix_start(*node), i as int),
                q.greed == greed_after(node.children, suffix_start(*node), i as int),
            decreases n - i,
        {
            let p = &node.children[i];
            match p.rule {
                Rule::QuestionMark => q.set_greed(G::NonGreedy),
                Rule::Plus => q.set_greed(G::Possessive),
                Rule::RBrace => {},
                _ => {
                    proof {
                        if suffix_ok(node.children, suffix_start(*node), n as int) {
                            lemma_suffix_prefix(node.children, suffix_start(*node), i + 1, n as int);
                        }
                    }
                    return Err(ReggieError::unexpected_input(p));
                },
            }
            i += 1;
        }
        Ok(q)
    }
}

impl Flags {
    /// Flags declared for the whole pattern: `(?` then a flags node. A set
    /// of flags turned off is refused.
    pub fn from_whole_pattern_pair(node: &ParseNode) -> (r: Result<Flags, ReggieError>)
        ensures
            r matches Ok(f) ==> node.children.len() >= 2 && f.set() == flags_in(
                node.children[1].text@,
            ),
            r is Ok <==> node.children.len() >= 2 && node.children[1].rule == Rule::Flags
                && !node.children[1].text@.contains('-') && all_flag_codes(node.children[1].text@),
            node.children.len() >= 2 && node.children[1].rule == Rule::Flags
                && node.children[1].text@.contains('-') ==> r == Err::<Flags, ReggieError>(
                ReggieError::NegativePatternFlags,
            ),
    {
        if node.children.len() < 2 {
            return Err(ReggieError::unexpected_eoi(node.col));
        }
        let f = &node.children[1];
        if f.rule != Rule::Flags {
            return Err(ReggieError::unexpected_input(f));
        }
        let t = f.text.as_str();
        if find_first(t, '-') < t.unicode_len() {
            return Err(ReggieError::NegativePatternFlags);
        }
        Flags::from_text(t)
    }
}

impl GroupFlags {
    /// Inline group flags `on[-off]`; a flag both turned on and off is refused.
    pub fn from_pair(node: &ParseNode) -> (r: Result<GroupFlags, ReggieError>)
        ensures
            r is Ok <==> all_flag_codes(split_dash(node.text@).0) && all_flag_codes(
                split_dash(node.text@).1,
            ) && flags_in(split_dash(node.text@).0).disjoint(flags_in(split_dash(node.text@).1)),
            r matches Ok(g) ==> g.wf() && g.pos_spec().set() == flags_in(split_dash(node.text@).0)
                && g.neg_spec().set() == flags_in(split_dash(node.text@).1),
            r matches Err(e) ==> e is InvalidFlag,
    {
        let t = node.text.as_str();
        let n = t.unicode_len();
        let k = find_first(t, '-');
        let pos_text = t.substring_char(0, k);
        let neg_text = if k < n {
            t.substring_char(k + 1, n)
        } else {
            t.substring_char(n, n)
        };
        proof {
            if k == n {
                assert(neg_text@ =~= Seq::<char>::empty());
                assert(pos_text@ =~= t@);
            }
        }
        let pos = Flags::from_text(pos_text)?;
        let neg = Flags::from_text(neg_text)?;
        match GroupFlags::new(pos, neg) {
            Ok(g) => Ok(g),
            Err(e) => Err(e),
        }
    }
}

impl SubPattern {
    /// A sub-pattern node: its first child decides the kind; a quantifier may
    /// follow an element or a group.
    pub fn from_pair(node: &ParseNode) -> (r: Result<SubPattern, ReggieError>)
        ensures
            r matches Ok(sp) ==> sp.wf() && sub_matches(sp, node.children[0]),
            forall|t: SubPattern| #[trigger] sub_tree(*node, t) ==> (r matches Ok(b) && b.text() == t.text()
                && same_sub(b, t)),
            node.children.len() == 0 ==> r == Err::<SubPattern, ReggieError>(
                ReggieError::UnexpectedEndOfInput { char_ix: node.col },
            ),
        decreases node, 3int,
    {
        if node.children.len() == 0 {
            return Err(ReggieError::unexpected_eoi(node.col));
        }
        let (sp, _next) = SubPattern::single_from_pair(node, 0)?;
        Ok(sp)
    }

    /// The sub-pattern that starts at child `i`, and the index of the child
    /// after it.
    pub fn single_from_pair(parent: &ParseNode, i: usize) -> (r: Result<(SubPattern, usize), ReggieError>)
        requires
            i < parent.children.len(),
        ensures
            r matches Ok((sp, next)) ==> sp.wf() && i < next <= parent.children.len() && sub_matches(
                sp,
                parent.children[i as int],
            ),
            i == 0 ==> forall|t: SubPattern| #[trigger] sub_tree(*parent, t) ==> (r matches Ok((b, next))
                && b.text() == t.text() && same_sub(b, t)),
        decreases parent, 2int,
    {
        let p = &parent.children[i];
        match p.rule {
            Rule::Alternatives => {
                let a = match Alternatives::from_pair(p) {
                    Ok(a) => a,
                    Err(e) => {
                        proof {
                            assert forall|t: SubPattern| i == 0 && #[trigger] sub_tree(*parent, t) implies false by {
                                lemma_sub_tree_head(*parent, t);
                                if let SubPattern::Alternatives(ta) = t {
                                    assert(alts_node_tree(*p, ta.0));
                                }
                            }
                        }
                        return Err(e);
                    },
                };
                proof {
                    assert forall|t: SubPattern| i == 0 && #[trigger] sub_tree(*parent, t) implies SubPattern::Alternatives(
                        a,
                    ).text() == t.text() && same_sub(SubPattern::Alternatives(
                        a,
                    ), t) by {
                        lemma_sub_tree_head(*parent, t);
                        if let SubPattern::Alternatives(ta) = t {
                            assert(alts_node_tree(*p, ta.0));
                        }
                    }
                }
                Ok((SubPattern::Alternatives(a), i + 1))
            },
            Rule::Group | Rule::Literals | Rule::CharSet | Rule::CharClass => {
                let (q, next) = match Quantified::from_pair(parent, i) {
                    Ok(x) => x,
                    Err(e) => {
                        proof {
                            assert forall|t: SubPattern| i == 0 && #[trigger] sub_tree(*parent, t) implies false by {
                                lemma_sub_tree_head(*parent, t);
                                if let SubPattern::Quantified(tq) = t {
                                    assert(quantified_tree(*parent, tq));
                                }
                            }
                        }
                        return Err(e);
                    },
                };
                proof {
                    assert forall|t: SubPattern| i == 0 && #[trigger] sub_tree(*parent, t) implies SubPattern::Quantified(
                        q,
                    ).text() == t.text() && same_sub(SubPattern::Quantified(
                        q,
                    ), t) by {
                        lemma_sub_tree_head(*parent, t);
                        if let SubPattern::Quantified(tq) = t {
                            assert(quantified_tree(*parent, tq));
                        }
                    }
                }
                Ok((SubPattern::Quantified(q), next))
            },
            Rule::ZeroWidthLiteral => {
                let z = match ZeroWidthLiteral::from_pair(p) {
                    Ok(z) => z,
                    Err(e) => {
                        proof {
                            assert forall|t: SubPattern| i == 0 && #[trigger] sub_tree(*parent, t) implies false by {
                                lemma_sub_tree_head(*parent, t);
                                if let SubPattern::ZeroWidthLiteral(tz) = t {
                                    zwl_round_trip(tz);
                                }
                            }
                        }
                        return Err(e);
                    },
                };
                proof {
                    assert forall|t: SubPattern| i == 0 && #[trigger] sub_tree(*parent, t) implies SubPattern::ZeroWidthLiteral(
                        z,
                    ).text() == t.text() && same_sub(SubPattern::ZeroWidthLiteral(
                        z,
                    ), t) by {
                        lemma_sub_tree_head(*parent, t);
                        if let SubPattern::ZeroWidthLiteral(tz) = t {
                            zwl_round_trip(tz);
                        }
                    }
                }
                Ok((SubPattern::ZeroWidthLiteral(z), i + 1))
            },
            Rule::CommentGroup => {
                if p.children.len() < 4 {
                    proof {
                        assert forall|t: SubPattern| i == 0 && #[trigger] sub_tree(*parent, t) implies false by {
                            lemma_sub_tree_head(*parent, t);
                        }
                    }
                    return Err(ReggieError::unexpected_eoi(p.col));
                }
                let c = String::from_str(p.children[3].text.as_str());
                proof {
                    assert forall|t: SubPattern| i == 0 && #[trigger] sub_tree(*parent, t) implies SubPattern::Comment(
                        c,
                    ).text() == t.text() && same_sub(SubPattern::Comment(
                        c,
                    ), t) by {
                        lemma_sub_tree_head(*parent, t);
                    }
                }
                Ok((SubPattern::Comment(c), i + 1))
            },
            _ => {
                proof {
                    assert forall|t: SubPattern| i == 0 && #[trigger] sub_tree(*parent, t) implies false by {
                        lemma_sub_tree_head(*parent, t);
                    }
                }
                Err(ReggieError::unexpected_input(p))
            },
        }
    }
}

impl Quantified {
    /// The element or group at child `i`, with the quantifier that follows
    /// it if there is one; also the index of the child after them.
    pub fn from_pair(parent: &ParseNode, i: usize) -> (r: Result<(Quantified, usize), ReggieError>)
        requires
            i < parent.children.len(),
        ensures
            r matches Ok((q, next)) ==> q.wf() && i < next <= parent.children.len() && item_matches(
                q.quantifiable,
                parent.children[i as int],
            ) && (q.quantifier is Some <==> (i + 1 < parent.children.len()
                && parent.children[i + 1].rule == Rule::Quantifier)) && next == (if q.quantifier is Some {
                i + 2
            } else {
                i + 1
            }),
            i == 0 ==> forall|q: Quantified| #[trigger] quantified_tree(*parent, q) ==> (r matches Ok((b, next))
                && b.text() == q.text() && next == parent.children.len() && b.quantifier == q.quantifier
                && same_item(b.quantifiable, q.quantifiable)),
        decreases parent, 1int,
    {
        let p = &parent.children[i];
        let quantifiable = match p.rule {
            Rule::CharSet => match CharSet::from_pair(p) {
                Ok(cs) => Quantifiable::Element(Element::CharSet(cs)),
                Err(e) => {
                    proof {
                        assert forall|q: Quantified| i == 0 && #[trigger] quantified_tree(*parent, q) implies false by {
                            if let Quantifiable::Element(Element::CharSet(cs)) = q.quantifiable {
                                cs.lemma_ranges();
                                lemma_bracket_tree_ok(*p, cs.ranges());
                            }
                        }
                    }
                    return Err(e);
                },
            },
            Rule::CharClass => match CharClass::from_pair(p) {
                Ok(c) => Quantifiable::Element(Element::CharClass(c)),
                Err(e) => {
                    proof {
                        assert forall|q: Quantified| i == 0 && #[trigger] quantified_tree(*parent, q) implies false by {
                            if let Quantifiable::Element(Element::CharClass(c)) = q.quantifiable {
                                class_round_trip(c);
                            }
                        }
                    }
                    return Err(e);
                },
            },
            Rule::Literals => Quantifiable::Element(Element::Literal(Literal::from_pair(p)?)),
            Rule::Group => match Group::from_pair(p) {
                Ok(g) => Quantifiable::Group(g),
                Err(e) => {
                    proof {
                        assert forall|q: Quantified| i == 0 && #[trigger] quantified_tree(*parent, q) implies false by {
                            if let Quantifiable::Group(g) = q.quantifiable {
                                assert(group_tree(*p, g));
                            }
                        }
                    }
                    return Err(e);
                },
            },
            _ => {
                return Err(ReggieError::unexpected_input(p));
            },
        };
        proof {
            assert forall|q: Quantified| i == 0 && #[trigger] quantified_tree(*parent, q) implies quantifiable.text()
                == q.quantifiable.text() && same_item(quantifiable, q.quantifiable) by {
                match q.quantifiable {
                    Quantifiable::Element(Element::CharSet(cs)) => {
                        if let Quantifiable::Element(Element::CharSet(b)) = quantifiable {
                            bracket_round_trip(cs, *p, b);
                        }
                    },
                    Quantifiable::Element(Element::CharClass(c)) => {
                        class_round_trip(c);
                    },
                    Quantifiable::Group(g) => {
                        assert(group_tree(*p, g));
                    },
                    _ => {},
                }
            }
        }
        if i + 1 < parent.children.len() && parent.children[i + 1].rule == Rule::Quantifier {
            let q = match Quantifier::from_pair(&parent.children[i + 1]) {
                Ok(q) => q,
                Err(e) => {
                    proof {
                        assert forall|t: Quantified| i == 0 && #[trigger] quantified_tree(*parent, t) implies false by {
                            if let Some(qq) = t.quantifier {
                                quantifier_round_trip(qq, parent.children[1]);
                            }
                        }
                    }
                    return Err(e);
                },
            };
            proof {
                assert forall|t: Quantified| i == 0 && #[trigger] quantified_tree(*parent, t) implies q.text()
                    == t.quantifier->Some_0.text() && t.quantifier is Some && t.quantifier == Some(q) by {
                    if let Some(qq) = t.quantifier {
                        quantifier_round_trip(qq, parent.children[1]);
                        assert(q == qq);
                    }
                }
            }
            Ok((Quantified { quantifiable, quantifier: Some(q) }, i + 2))
        } else {
            Ok((Quantified { quantifiable, quantifier: None }, i + 1))
        }
    }
}

/// Whether the children of an alternation node are the parse trees of `v`,
/// one per alternative with a `|` between each two.
pub open spec fn alts_node_tree(node: ParseNode, v: Vec<SubPattern>) -> bool
    decreases v, v.len() + 1,
{
    &&& node.children.len() == (if v.len() == 0 {
        0
    } else {
        2 * v.len() - 1
    })
    &&& alts_tree(node.children, v, v.len() as int)
}

/// In an alternation's parse tree, even children are the alternatives and
/// odd ones are `|`.
proof fn lemma_alts_tree_at(nodes: Vec<ParseNode>, v: Vec<SubPattern>, n: int, k: int)
    requires
        alts_tree(nodes, v, n),
        0 <= k < n,
    ensures
        2 * k < nodes.len(),
        sub_tree(nodes[2 * k], v[k]),
        k >= 1 ==> nodes[2 * k - 1].rule == Rule::Pipe,
    decreases n,
{
    if k < n - 1 {
        lemma_alts_tree_at(nodes, v, n - 1, k);
    }
}

impl Alternatives {
    /// `|`-separated sub-patterns.
    pub fn from_pair(node: &ParseNode) -> (r: Result<Alternatives, ReggieError>)
        ensures
            r matches Ok(a) ==> all_wf(a.0, a.0.len() as int),
            forall|v: Vec<SubPattern>| #[trigger] alts_node_tree(*node, v) ==> (r matches Ok(a) && alts_text(
                a.0,
                a.0.len() as int,
            ) == alts_text(v, v.len() as int) && same_seq(a.0, v)),
        decreases node, 3int,
    {
        let mut alts: Vec<SubPattern> = Vec::new();
        let mut j: usize = 0;
        while j < node.children.len()
            invariant
                j <= node.children.len(),
                all_wf(alts, alts.len() as int),
                forall|v: Vec<SubPattern>| #[trigger] alts_node_tree(*node, v) ==> {
                    &&& alts.len() == (j + 1) / 2
                    &&& alts_text(alts, alts.len() as int) == alts_text(v, alts.len() as int)
                    &&& same_list(alts, v, alts.len() as int)
                },
            decreases node.children.len() - j,
        {
            let m = &node.children[j];
            let ghost old_alts = alts;
            match m.rule {
                Rule::Pipe => {
                    proof {
                        assert forall|v: Vec<SubPattern>| #[trigger] alts_node_tree(*node, v) implies j % 2 == 1 by {
                            if j % 2 == 0 {
                                lemma_alts_tree_at(node.children, v, v.len() as int, (j / 2) as int);
                            }
                        }
                    }
                    j += 1;
                },
                Rule::SubPattern => {
                    let sp = match SubPattern::from_pair(m) {
                        Ok(sp) => sp,
                        Err(e) => {
                            proof {
                                assert forall|v: Vec<SubPattern>| #[trigger] alts_node_tree(*node, v) implies false by {
                                    if j % 2 == 0 {
                                        lemma_alts_tree_at(node.children, v, v.len() as int, (j / 2) as int);
                                    } else {
                                        lemma_alts_tree_at(node.children, v, v.len() as int, ((j + 1) / 2) as int);
                                    }
                                }
                            }
                            return Err(e);
                        },
                    };
                    push_wf(&mut alts, sp);
                    proof {
                        assert forall|v: Vec<SubPattern>| #[trigger] alts_node_tree(*node, v) implies {
                            &&& alts.len() == (j + 2) / 2
                            &&& alts_text(alts, alts.len() as int) == alts_text(v, alts.len() as int)
                            &&& same_list(alts, v, alts.len() as int)
                        } by {
                            if j % 2 == 0 {
                                lemma_alts_tree_at(node.children, v, v.len() as int, (j / 2) as int);
                            } else {
                                lemma_alts_tree_at(node.children, v, v.len() as int, ((j + 1) / 2) as int);
                            }
                            let k = j / 2;
                            lemma_concat_push(old_alts, alts, k as int);
                            assert(alts[k as int] == sp);
                            assert(same_list(alts, v, k as int) == same_list(old_alts, v, k as int));
                            assert(same_sub(sp, v[k as int]));
                        }
                    }
                    j += 1;
                },
                _ => {
                    proof {
                        assert forall|v: Vec<SubPattern>| #[trigger] alts_node_tree(*node, v) implies false by {
                            if j % 2 == 0 {
                                lemma_alts_tree_at(node.children, v, v.len() as int, (j / 2) as int);
                            } else {
                                lemma_alts_tree_at(node.children, v, v.len() as int, ((j + 1) / 2) as int);
                            }
                        }
                    }
                    let (sp, next) = SubPattern::single_from_pair(node, j)?;
                    push_wf(&mut alts, sp);
                    j = next;
                },
            }
        }
        Ok(Alternatives(alts))
    }
}

/// The sub-patterns among the children from `start` on, skipping a closing
/// parenthesis.
fn inner_components(node: &ParseNode, start: usize) -> (r: Result<Vec<SubPattern>, ReggieError>)
    ensures
        r matches Ok(v) ==> all_wf(v, v.len() as int),
        forall|comps: Vec<SubPattern>|
            #[trigger] comps_tree(node.children, start as int, comps, comps.len() as int)
                && node.children.len() == start + comps.len() + 1
                && node.children[node.children.len() - 1].rule == Rule::RParens ==> (r matches Ok(v)
                && v.len() == comps.len() && same_list(v, comps, v.len() as int) && concat_text(v, v.len() as int) == concat_text(
                comps,
                comps.len() as int,
            )),
    decreases node, 0int,
{
    let mut comps: Vec<SubPattern> = Vec::new();
    let mut j: usize = start;
    while j < node.children.len()
        invariant
            start <= j,
            all_wf(comps, comps.len() as int),
            forall|t: Vec<SubPattern>|
                #[trigger] comps_tree(node.children, start as int, t, t.len() as int)
                    && node.children.len() == start + t.len() + 1
                    && node.children[node.children.len() - 1].rule == Rule::RParens ==> {
                    &&& comps.len() == (if j - start <= t.len() {
                        j - start
                    } else {
                        t.len() as int
                    })
                    &&& concat_text(comps, comps.len() as int) == concat_text(t, comps.len() as int)
                    &&& same_list(comps, t, comps.len() as int)
                },
        decreases node.children.len() - j,
    {
        let p = &node.children[j];
        let ghost old_comps = comps;
        match p.rule {
            Rule::SubPattern => {
                let sp = match SubPattern::from_pair(p) {
                    Ok(sp) => sp,
                    Err(e) => {
                        proof {
                            assert forall|t: Vec<SubPattern>|
                                #[trigger] comps_tree(node.children, start as int, t, t.len() as int)
                                    && node.children.len() == start + t.len() + 1
                                    && node.children[node.children.len() - 1].rule == Rule::RParens
                                    implies false by {
                                if j - start < t.len() {
                                    lemma_comps_tree_at(node.children, start as int, t, t.len() as int, j - start);
                                }
                            }
                        }
                        return Err(e);
                    },
                };
                push_wf(&mut comps, sp);
                proof {
                    assert forall|t: Vec<SubPattern>|
                        #[trigger] comps_tree(node.children, start as int, t, t.len() as int)
                            && node.children.len() == start + t.len() + 1
                            && node.children[node.children.len() - 1].rule == Rule::RParens
                            implies {
                            &&& comps.len() == (if j + 1 - start <= t.len() {
                                j + 1 - start
                            } else {
                                t.len() as int
                            })
                            &&& concat_text(comps, comps.len() as int) == concat_text(t, comps.len() as int)
                            &&& same_list(comps, t, comps.len() as int)
                        } by {
                        let k = j - start;
                        if k < t.len() {
                            lemma_comps_tree_at(node.children, start as int, t, t.len() as int, k);
                        }
                        assert(k < t.len());
                        lemma_concat_push(old_comps, comps, k);
                        assert(comps[k] == sp);
                        assert(same_list(comps, t, k) == same_list(old_comps, t, k));
                        assert(same_sub(sp, t[k]));
                    }
                }
            },
            Rule::RParens => {
                proof {
                    assert forall|t: Vec<SubPattern>|
                        #[trigger] comps_tree(node.children, start as int, t, t.len() as int)
                            && node.children.len() == start + t.len() + 1
                            && node.children[node.children.len() - 1].rule == Rule::RParens
                            implies j - start == t.len() by {
                        if j - start < t.len() {
                            lemma_comps_tree_at(node.children, start as int, t, t.len() as int, j - start);
                        }
                    }
                }
            },
            _ => {
                proof {
                    assert forall|t: Vec<SubPattern>|
                        #[trigger] comps_tree(node.children, start as int, t, t.len() as int)
                            && node.children.len() == start + t.len() + 1
                            && node.children[node.children.len() - 1].rule == Rule::RParens
                            implies false by {
                        if j - start < t.len() {
                            lemma_comps_tree_at(node.children, start as int, t, t.len() as int, j - start);
                        }
                    }
                }
                return Err(ReggieError::unexpected_input(p));
            },
        }
        j += 1;
    }
    Ok(comps)
}

/// Group flags with the same flags on and off print the same.
proof fn lemma_group_flags_text(a: GroupFlags, b: GroupFlags)
    requires
        a.pos_spec().set() == b.pos_spec().set(),
        a.neg_spec().set() == b.neg_spec().set(),
    ensures
        a.text() == b.text(),
{
    lemma_same_flags_same_codes(a.pos_spec(), b.pos_spec(), 7);
    lemma_same_flags_same_codes(a.neg_spec(), b.neg_spec(), 7);
}

impl Group {
    /// A group node: `(` then either a group extension or the first
    /// sub-pattern of a plain capturing group.
    pub fn from_pair(node: &ParseNode) -> (r: Result<Group, ReggieError>)
        ensures
            r matches Ok(g) ==> g.wf(),
            r is Ok ==> node.children.len() >= 2 && (node.children[1].rule == Rule::SubPattern
                || node.children[1].rule == Rule::GroupExt),
            r matches Ok(g) ==> (node.children[1].rule == Rule::SubPattern ==> g matches Group::Group {
                ext: None,
                name: None,
                ..
            }),
            r matches Ok(g) ==> (node.children[1].rule == Rule::GroupExt ==> ext_node_matches(
                g,
                node.children[1].children[1],
            )),
            forall|g: Group| #[trigger] group_tree(*node, g) ==> (r matches Ok(b) && b.text() == g.text()
                && same_group(b, g)),
            bad_group_flags(*node) ==> r is Err,
        decreases node, 3int,
    {
        if node.children.len() < 2 {
            proof {
                assert forall|g: Group| #[trigger] group_tree(*node, g) implies false by {
                    if let Group::Group { ext: None, name: None, components, .. } = g {
                        lemma_comps_tree_at(node.children, 1, components, components.len() as int, 0);
                    }
                }
            }
            return Err(ReggieError::unexpected_eoi(node.col));
        }
        let fst = &node.children[1];
        match fst.rule {
            Rule::GroupExt => {
                let r = Group::ext_group_from_pairs(node);
                proof {
                    assert forall|g: Group| #[trigger] group_tree(*node, g) implies (r matches Ok(b) && b.text()
                        == g.text()) by {
                        if let Group::Group { ext: None, name: None, components, .. } = g {
                            lemma_comps_tree_at(node.children, 1, components, components.len() as int, 0);
                        }
                    }
                }
                r
            },
            Rule::SubPattern => {
                let comps = match inner_components(node, 1) {
                    Ok(v) => v,
                    Err(e) => {
                        proof {
                            assert forall|g: Group| #[trigger] group_tree(*node, g) implies false by {
                                if let Group::Group { ext: None, name: None, components, .. } = g {
                                    assert(comps_tree(node.children, 1, components, components.len() as int));
                                }
                            }
                        }
                        return Err(e);
                    },
                };
                let g = Group::Group { ext: None, flags: GroupFlags::empty(), name: None, components: comps };
                proof {
                    assert forall|t: Group| #[trigger] group_tree(*node, t) implies g.text() == t.text() && same_group(g, t) by {
                        if let Group::Group { ext: None, name: None, components, .. } = t {
                            assert(comps_tree(node.children, 1, components, components.len() as int));
                        }
                    }
                }
                Ok(g)
            },
            _ => {
                proof {
                    assert forall|g: Group| #[trigger] group_tree(*node, g) implies false by {
                        if let Group::Group { ext: None, name: None, components, .. } = g {
                            lemma_comps_tree_at(node.children, 1, components, components.len() as int, 0);
                        }
                    }
                }
                Err(ReggieError::unexpected_input(fst))
            },
        }
    }

    fn mk_ext_group(ext: GroupExt, node: &ParseNode) -> (r: Result<Group, ReggieError>)
        ensures
            r matches Ok(g) ==> g.wf(),
            r matches Ok(g) ==> (g matches Group::Group { ext: Some(e), name: None, .. } && e == ext),
            forall|comps: Vec<SubPattern>|
                #[trigger] comps_tree(node.children, 2, comps, comps.len() as int) && node.children.len()
                    == comps.len() + 3 && node.children[node.children.len() - 1].rule == Rule::RParens
                    ==> (r matches Ok(b) && (b matches Group::Group { components: c, flags: f, .. } && concat_text(
                    c,
                    c.len() as int,
                ) == concat_text(comps, comps.len() as int) && c.len() == comps.len() && same_list(c, comps, c.len() as int)
                && f.is_none())),
        decreases node, 1int,
    {
        let components = inner_components(node, 2)?;
        Ok(Group::Group { ext: Some(ext), flags: GroupFlags::empty(), name: None, components })
    }

    /// A group whose second child is a group extension `?...`.
    fn ext_group_from_pairs(node: &ParseNode) -> (r: Result<Group, ReggieError>)
        requires
            node.children.len() >= 2,
        ensures
            r matches Ok(g) ==> g.wf(),
            r matches Ok(g) ==> node.children[1].children.len() >= 2 && ext_node_matches(
                g,
                node.children[1].children[1],
            ),
            forall|g: Group| #[trigger] group_tree(*node, g) && node.children[1].rule == Rule::GroupExt ==> (r matches Ok(
                b,
            ) && b.text() == g.text() && same_group(b, g)),
            bad_group_flags(*node) ==> r is Err,
        decreases node, 2int,
    {
        let fst = &node.children[1];
        if fst.children.len() < 2 {
            proof {
                assert forall|g: Group| #[trigger] group_tree(*node, g) && node.children[1].rule == Rule::GroupExt
                    implies false by {
                    if let Group::Group { ext: None, name: None, components, .. } = g {
                        lemma_comps_tree_at(node.children, 1, components, components.len() as int, 0);
                    }
                }
            }
            return Err(ReggieError::unexpected_eoi(fst.col));
        }
        let ext = &fst.children[1];
        proof {
            // no plain group has an extension node
            assert forall|g: Group| #[trigger] group_tree(*node, g) && node.children[1].rule == Rule::GroupExt
                implies !(g matches Group::Group { ext: None, name: None, .. }) by {
                if let Group::Group { ext: None, name: None, components, .. } = g {
                    lemma_comps_tree_at(node.children, 1, components, components.len() as int, 0);
                }
            }
        }
        match ext.rule {
            Rule::Noncapturing => {
                let flags = if ext.children.len() > 0 {
                    match GroupFlags::from_pair(&ext.children[0]) {
                        Ok(f) => f,
                        Err(e) => {
                            proof {
                                assert forall|g: Group| #[trigger] group_tree(*node, g) && node.children[1].rule
                                    == Rule::GroupExt implies false by {
                                    if let Group::Group { ext: Some(_), flags, .. } = g {
                                        group_flags_round_trip(flags, ext.children[0]);
                                    }
                                }
                            }
                            return Err(e);
                        },
                    }
                } else {
                    GroupFlags::empty()
                };
                let components = match inner_components(node, 2) {
                    Ok(v) => v,
                    Err(e) => {
                        proof {
                            assert forall|g: Group| #[trigger] group_tree(*node, g) && node.children[1].rule
                                == Rule::GroupExt implies false by {
                                if let Group::Group { ext: Some(_), components, .. } = g {
                                    assert(comps_tree(node.children, 2, components, components.len() as int));
                                }
                            }
                        }
                        return Err(e);
                    },
                };
                let b = Group::Group { ext: Some(GroupExt::NonCapturing), flags, name: None, components };
                proof {
                    assert forall|g: Group| #[trigger] group_tree(*node, g) && node.children[1].rule == Rule::GroupExt
                        implies b.text() == g.text() && same_group(b, g) by {
                        if let Group::Group { ext: Some(e), flags: gf, components: gc, name: None } = g {
                            assert(e == GroupExt::NonCapturing);
                            assert(comps_tree(node.children, 2, gc, gc.len() as int));
                            if ext.children.len() > 0 {
                                group_flags_round_trip(gf, ext.children[0]);
                            }
                            lemma_group_flags_text(flags, gf);
                        }
                    }
                }
                Ok(b)
            },
            Rule::Atomic | Rule::PosLookahead | Rule::NegLookahead | Rule::PosLookbehind | Rule::NegLookbehind => {
                let e = match ext.rule {
                    Rule::Atomic => GroupExt::Atomic,
                    Rule::PosLookahead => GroupExt::PosLookahead,
                    Rule::NegLookahead => GroupExt::NegLookahead,
                    Rule::PosLookbehind => GroupExt::PosLookbehind,
                    _ => GroupExt::NegLookbehind,
                };
                let r = Group::mk_ext_group(e, node);
                proof {
                    assert forall|g: Group| #[trigger] group_tree(*node, g) && node.children[1].rule == Rule::GroupExt
                        implies (r matches Ok(b) && b.text() == g.text() && same_group(b, g)) by {
                        if let Group::Group { ext: Some(ge), components: gc, .. } = g {
                            assert(ge == e);
                            assert(comps_tree(node.children, 2, gc, gc.len() as int));
                        }
                    }
                }
                r
            },
            Rule::NamedBackref => {
                if ext.children.len() < 2 || ext.children[1].children.len() < 1 {
                    return Err(ReggieError::unexpected_eoi(ext.col));
                }
                let name = String::from_str(ext.children[1].children[0].text.as_str());
                Ok(Group::NamedBackref { name })
            },
            Rule::Named => {
                if ext.children.len() < 2 {
                    return Err(ReggieError::unexpected_eoi(ext.col));
                }
                let name = String::from_str(ext.children[1].text.as_str());
                let components = match inner_components(node, 2) {
                    Ok(v) => v,
                    Err(e) => {
                        proof {
                            assert forall|g: Group| #[trigger] group_tree(*node, g) && node.children[1].rule
                                == Rule::GroupExt implies false by {
                                if let Group::Group { components, .. } = g {
                                    assert(comps_tree(node.children, 2, components, components.len() as int));
                                }
                            }
                        }
                        return Err(e);
                    },
                };
                let b = Group::Group { ext: None, flags: GroupFlags::empty(), name: Some(name), components };
                proof {
                    assert forall|g: Group| #[trigger] group_tree(*node, g) && node.children[1].rule == Rule::GroupExt
                        implies b.text() == g.text() && same_group(b, g) by {
                        if let Group::Group { components: gc, .. } = g {
                            assert(comps_tree(node.children, 2, gc, gc.len() as int));
                        }
                    }
                }
                Ok(b)
            },
            Rule::Ternary => Group::ternary_group_from_pairs(node),
            _ => Err(ReggieError::unexpected_input(ext)),
        }
    }

    /// `(?(id)yes|no)`: the identifier node, then the yes branch, then
    /// optionally `|` and the no branch.
    fn ternary_group_from_pairs(node: &ParseNode) -> (r: Result<Group, ReggieError>)
        requires
            node.children.len() >= 2,
            node.children[1].children.len() >= 2,
        ensures
            r matches Ok(g) ==> g.wf(),
            r matches Ok(g) ==> ternary_matches(g, node.children[1].children[1]),
            forall|g: Group| #[trigger] group_tree(*node, g) && node.children[1].rule == Rule::GroupExt
                && node.children[1].children[1].rule == Rule::Ternary ==> (r matches Ok(b) && b.text()
                == g.text() && same_group(b, g)),
        decreases node, 1int,
    {
        let ext = &node.children[1].children[1];
        let n = ext.children.len();
        if n < 1 || ext.children[0].children.len() < 2 {
            proof {
                assert forall|g: Group| #[trigger] group_tree(*node, g) && node.children[1].rule == Rule::GroupExt
                    && node.children[1].children[1].rule == Rule::Ternary implies false by {
                    if let Group::Ternary { .. } = g {
                        assert(ext.children.len() >= 3);
                    } else if let Group::Group { ext: None, name: None, components, .. } = g {
                        lemma_comps_tree_at(node.children, 1, components, components.len() as int, 0);
                    }
                }
            }
            return Err(ReggieError::unexpected_eoi(ext.col));
        }
        let id = &ext.children[0].children[1];
        let group_id = match id.rule {
            Rule::NumberedGroupId => match parse_usize(id.text.as_str()) {
                Some(v) => TernaryGroupId::Numbered(v),
                None => {
                    proof {
                        assert forall|g: Group| #[trigger] group_tree(*node, g) && node.children[1].rule
                            == Rule::GroupExt && node.children[1].children[1].rule == Rule::Ternary implies false by {
                            if let Group::Ternary { group_id: TernaryGroupId::Numbered(v), .. } = g {
                                lemma_decimal_parses(v);
                            }
                            if g matches Group::Group { ext: None, name: None, .. } {
                                lemma_plain_group_head(*node, g);
                            }
                        }
                    }
                    return Err(ReggieError::unexpected_input(id));
                },
            },
            Rule::NamedGroupId => TernaryGroupId::Named(String::from_str(id.text.as_str())),
            _ => {
                proof {
                    assert forall|g: Group| #[trigger] group_tree(*node, g) && node.children[1].rule
                        == Rule::GroupExt && node.children[1].children[1].rule == Rule::Ternary implies false by {
                        if let Group::Ternary { group_id, .. } = g {
                            match group_id {
                                TernaryGroupId::Numbered(_) => {},
                                TernaryGroupId::Named(_) => {},
                            }
                        } else if let Group::Group { ext: None, name: None, components, .. } = g {
                            lemma_comps_tree_at(node.children, 1, components, components.len() as int, 0);
                        }
                    }
                }
                return Err(ReggieError::unexpected_input(id));
            },
        };
        if n < 3 {
            proof {
                assert forall|g: Group| #[trigger] group_tree(*node, g) && node.children[1].rule == Rule::GroupExt
                    && node.children[1].children[1].rule == Rule::Ternary implies false by {
                    if let Group::Group { ext: None, name: None, components, .. } = g {
                        lemma_comps_tree_at(node.children, 1, components, components.len() as int, 0);
                    }
                }
            }
            return Err(ReggieError::unexpected_eoi(ext.col));
        }
        let yes = match SubPattern::from_pair(&ext.children[2]) {
            Ok(y) => y,
            Err(e) => {
                proof {
                    assert forall|g: Group| #[trigger] group_tree(*node, g) && node.children[1].rule == Rule::GroupExt
                        && node.children[1].children[1].rule == Rule::Ternary implies false by {
                        if let Group::Ternary { yes_pat, .. } = g {
                            assert(sub_tree(ext.children[2], *yes_pat));
                        }
                        if g matches Group::Group { ext: None, name: None, .. } {
                            lemma_plain_group_head(*node, g);
                        }
                    }
                }
                return Err(e);
            },
        };
        let no_pat = if n > 3 {
            if n < 5 {
                proof {
                    assert forall|g: Group| #[trigger] group_tree(*node, g) && node.children[1].rule
                        == Rule::GroupExt && node.children[1].children[1].rule == Rule::Ternary implies false by {
                        if g matches Group::Group { ext: None, name: None, .. } {
                            lemma_plain_group_head(*node, g);
                        }
                    }
                }
                return Err(ReggieError::unexpected_eoi(ext.col));
            }
            match SubPattern::from_pair(&ext.children[4]) {
                Ok(no) => Some(Box::new(no)),
                Err(e) => {
                    proof {
                        assert forall|g: Group| #[trigger] group_tree(*node, g) && node.children[1].rule
                            == Rule::GroupExt && node.children[1].children[1].rule == Rule::Ternary implies false by {
                            if let Group::Ternary { no_pat: Some(no), .. } = g {
                                assert(sub_tree(ext.children[4], *no));
                            }
                            if g matches Group::Group { ext: None, name: None, .. } {
                                lemma_plain_group_head(*node, g);
                            }
                        }
                    }
                    return Err(e);
                },
            }
        } else {
            None
        };
        let b = Group::Ternary { group_id, yes_pat: Box::new(yes), no_pat };
        proof {
            assert forall|g: Group| #[trigger] group_tree(*node, g) && node.children[1].rule == Rule::GroupExt
                && node.children[1].children[1].rule == Rule::Ternary implies b.text() == g.text() && same_group(b, g) by {
                if g matches Group::Group { ext: None, name: None, .. } {
                    lemma_plain_group_head(*node, g);
                }
                if let Group::Ternary { group_id: gid, yes_pat: gy, no_pat: gn } = g {
                    assert(sub_tree(ext.children[2], *gy));
                    if let TernaryGroupId::Numbered(v) = gid {
                        lemma_decimal_parses(v);
                    }
                    if let Some(no) = gn {
                        assert(sub_tree(ext.children[4], *no));
                    }
                }
            }
        }
        Ok(b)
    }
}

/// Where the sub-patterns start in the parse tree of a whole pattern: after
/// the flags, when it has any.
pub open spec fn subs_start(p: Pat) -> int {
    if p.flags.set() == Set::<crate::flags::Flag>::empty() {
        0
    } else {
        1
    }
}

impl Pattern {
    /// A whole pattern from the root node: optional whole-pattern flags, then
    /// sub-patterns. On the parse tree of a pattern's own text it gives back
    /// a pattern with that same text.
    pub fn from_pair(node: &ParseNode) -> (r: Result<Pattern, ReggieError>)
        ensures
            r matches Ok(p) ==> p.wf() && p is Pat,
            r matches Ok(Pattern::Pat(p)) ==> p.sub_patterns.len() == count_rule(
                node.children,
                Rule::SubPattern,
                node.children.len() as int,
            ),
            r is Ok ==> node.children.len() == count_rule(node.children, Rule::SubPattern, node.children.len() as int)
                + count_rule(node.children, Rule::WholePatternFlags, node.children.len() as int),
            r matches Ok(Pattern::Pat(p)) ==> (count_rule(node.children, Rule::WholePatternFlags, node.children.len() as int) == 0
                ==> p.flags.set() == Set::<crate::flags::Flag>::empty()),
            forall|p: Pat| #[trigger] pat_tree(*node, p) ==> (r matches Ok(Pattern::Pat(b)) && b.text()
                == p.text() && same_pat(b, p)),
    {
        let mut flags = Flags::new();
        let mut subs: Vec<SubPattern> = Vec::new();
        let mut j: usize = 0;
        while j < node.children.len()
            invariant
                j <= node.children.len(),
                all_wf(subs, subs.len() as int),
                subs.len() == count_rule(node.children, Rule::SubPattern, j as int),
                j == count_rule(node.children, Rule::SubPattern, j as int) + count_rule(
                    node.children,
                    Rule::WholePatternFlags,
                    j as int,
                ),
                count_rule(node.children, Rule::WholePatternFlags, j as int) == 0 ==> flags.set()
                    == Set::<crate::flags::Flag>::empty(),
                forall|p: Pat| #[trigger] pat_tree(*node, p) ==> {
                    &&& subs.len() == (if j >= subs_start(p) {
                        j - subs_start(p)
                    } else {
                        0
                    })
                    &&& concat_text(subs, subs.len() as int) == concat_text(p.sub_patterns, subs.len() as int)
                    &&& same_list(subs, p.sub_patterns, subs.len() as int)
                    &&& (j >= 1 || subs_start(p) == 0) ==> flags.set() == p.flags.set()
                },
            decreases node.children.len() - j,
        {
            let m = &node.children[j];
            let ghost old_subs = subs;
            match m.rule {
                Rule::SubPattern => {
                    let sp = match SubPattern::from_pair(m) {
                        Ok(sp) => sp,
                        Err(e) => {
                            proof {
                                assert forall|p: Pat| #[trigger] pat_tree(*node, p) implies false by {
                                    if j >= subs_start(p) {
                                        lemma_comps_tree_at(node.children, subs_start(p), p.sub_patterns, p.sub_patterns.len() as int, j - subs_start(p));
                                    }
                                }
                            }
                            return Err(e);
                        },
                    };
                    push_wf(&mut subs, sp);
                    proof {
                        assert forall|p: Pat| #[trigger] pat_tree(*node, p) implies {
                            &&& subs.len() == (if j + 1 >= subs_start(p) {
                                j + 1 - subs_start(p)
                            } else {
                                0
                            })
                            &&& concat_text(subs, subs.len() as int) == concat_text(p.sub_patterns, subs.len() as int)
                            &&& same_list(subs, p.sub_patterns, subs.len() as int)
                            &&& (j + 1 >= 1 || subs_start(p) == 0) ==> flags.set() == p.flags.set()
                        } by {
                            assert(j >= subs_start(p));
                            let k = j - subs_start(p);
                            lemma_comps_tree_at(node.children, subs_start(p), p.sub_patterns, p.sub_patterns.len() as int, k);
                            lemma_concat_push(old_subs, subs, k);
                            assert(subs[k] == sp);
                            assert(same_list(subs, p.sub_patterns, k) == same_list(old_subs, p.sub_patterns, k));
                            assert(same_sub(sp, p.sub_patterns[k]));
                        }
                    }
                },
                Rule::WholePatternFlags => {
                    let f = match Flags::from_whole_pattern_pair(m) {
                        Ok(f) => f,
                        Err(e) => {
                            proof {
                                assert forall|p: Pat| #[trigger] pat_tree(*node, p) implies false by {
                                    if j >= subs_start(p) {
                                        lemma_comps_tree_at(node.children, subs_start(p), p.sub_patterns, p.sub_patterns.len() as int, j - subs_start(p));
                                    } else {
                                        flags_round_trip(p.flags);
                                    }
                                }
                            }
                            return Err(e);
                        },
                    };
                    flags = f;
                    proof {
                        assert forall|p: Pat| #[trigger] pat_tree(*node, p) implies {
                            &&& subs.len() == (if j + 1 >= subs_start(p) {
                                j + 1 - subs_start(p)
                            } else {
                                0
                            })
                            &&& concat_text(subs, subs.len() as int) == concat_text(p.sub_patterns, subs.len() as int)
                            &&& same_list(subs, p.sub_patterns, subs.len() as int)
                            &&& (j + 1 >= 1 || subs_start(p) == 0) ==> flags.set() == p.flags.set()
                        } by {
                            if j >= subs_start(p) {
                                lemma_comps_tree_at(node.children, subs_start(p), p.sub_patterns, p.sub_patterns.len() as int, j - subs_start(p));
                            }
                            assert(j == 0 && subs_start(p) == 1);
                            flags_round_trip(p.flags);
                        }
                    }
                },
                _ => {
                    proof {
                        assert forall|p: Pat| #[trigger] pat_tree(*node, p) implies false by {
                            if j >= subs_start(p) {
                                lemma_comps_tree_at(node.children, subs_start(p), p.sub_patterns, p.sub_patterns.len() as int, j - subs_start(p));
                            }
                        }
                    }
                    return Err(ReggieError::unexpected_input(m));
                },
            }
            j += 1;
        }
        let b = Pat { flags, sub_patterns: subs };
        proof {
            assert forall|p: Pat| #[trigger] pat_tree(*node, p) implies b.text() == p.text() && same_pat(b, p) by {
                lemma_same_flags_same_codes(b.flags, p.flags, 7);
            }
        }
        Ok(Pattern::Pat(b))
    }
}

/// Splitting `a`, `sep`, `b` at the first `sep` gives `a` and `b` when `a`
/// holds no `sep`.
proof fn lemma_split_first_at(a: Seq<char>, b: Seq<char>, sep: char)
    requires
        !a.contains(sep),
    ensures
        split_first(a + seq![sep] + b, sep) == (a, b),
{
    let s = a + seq![sep] + b;
    assert(s[a.len() as int] == sep);
    assert(s.contains(sep));
    let i = choose|i: int| 0 <= i < s.len() && s[i] == sep && forall|j: int| 0 <= j < i ==> s[j] != sep;
    if i < a.len() {
        assert(a[i] == sep);
    }
    if i > a.len() {
        assert(s[a.len() as int] != sep);
    }
    assert(s.subrange(0, i) =~= a);
    assert(s.subrange(i + 1, s.len() as int) =~= b);
}

proof fn lemma_decimal_has_no_comma(n: usize)
    ensures
        !decimal(n as nat).contains(','),
{
    lemma_decimal_round_trip(n as nat);
    if decimal(n as nat).contains(',') {
        let i = choose|i: int| 0 <= i < decimal(n as nat).len() && decimal(n as nat)[i] == ',';
        assert(is_digit(decimal(n as nat)[i]));
    }
}

/// Whether the children from `start` on spell the greediness: nothing for a
/// greedy quantifier, `?` for a lazy one, `+` for a possessive one.
pub open spec fn greed_tree(v: Vec<ParseNode>, start: int, g: G) -> bool {
    match g {
        G::Greedy => v.len() == start,
        G::NonGreedy => v.len() == start + 1 && v[start].rule == Rule::QuestionMark,
        G::Possessive => v.len() == start + 1 && v[start].rule == Rule::Plus,
    }
}

/// Whether `node` is the parse tree of the text of `q`: the token of the
/// count, or a brace, the body in decimal and a closing brace; then the
/// greediness.
pub open spec fn quantifier_tree(node: ParseNode, q: Quantifier) -> bool {
    let c = node.children;
    let braced = c.len() >= 3 && c[0].rule == Rule::LBrace && c[2].rule == Rule::RBrace
        && greed_tree(c, 3, q.greed);
    &&& node.rule == Rule::Quantifier
    &&& match q.quantifier {
        Q::ZeroOrOne => c.len() >= 1 && c[0].rule == Rule::QuestionMark && greed_tree(c, 1, q.greed),
        Q::ZeroOrMore => c.len() >= 1 && c[0].rule == Rule::Asterisk && greed_tree(c, 1, q.greed),
        Q::OneOrMore => c.len() >= 1 && c[0].rule == Rule::Plus && greed_tree(c, 1, q.greed),
        Q::NExact(n) => braced && c[1].rule == Rule::NExact && c[1].text@ == decimal(n as nat),
        Q::NTimes { min: Some(lo), max: Some(hi) } => braced && c[1].rule == Rule::NBetween
            && c[1].text@ == decimal(lo as nat) + seq![','] + decimal(hi as nat),
        Q::NTimes { min: Some(lo), max: None } => braced && c[1].rule == Rule::NAtLeast && c[1].text@
            == decimal(lo as nat) + seq![','],
        Q::NTimes { min: None, max: Some(hi) } => braced && c[1].rule == Rule::NAtMost && c[1].text@
            == seq![','] + decimal(hi as nat),
        Q::NTimes { min: None, max: None } => false,
    }
}

/// A quantifier read back from the parse tree of its own text is the same
/// quantifier: on such a tree `Quantifier::from_pair` succeeds with exactly
/// this count and greediness.
#[verifier::spinoff_prover]
#[verifier::rlimit(80)]
pub proof fn quantifier_round_trip(q: Quantifier, node: ParseNode)
    requires
        quantifier_tree(node, q),
    ensures
        base_of(node) == Some(q.quantifier),
        suffix_ok(node.children, suffix_start(node), node.children.len() as int),
        greed_after(node.children, suffix_start(node), node.children.len() as int) == q.greed,
{
    let c = node.children;
    let n = c.len() as int;
    let st = suffix_start(node);
    match q.quantifier {
        Q::NExact(v) => {
            lemma_decimal_parses(v);
        },
        Q::NTimes { min: Some(lo), max: Some(hi) } => {
            lemma_decimal_parses(lo);
            lemma_decimal_parses(hi);
            lemma_decimal_has_no_comma(lo);
            lemma_split_first_at(decimal(lo as nat), decimal(hi as nat), ',');
            assert(c[1].text@[decimal(lo as nat).len() as int] == ',');
        },
        Q::NTimes { min: Some(lo), max: None } => {
            lemma_decimal_parses(lo);
            lemma_decimal_has_no_comma(lo);
            lemma_split_first_at(decimal(lo as nat), Seq::empty(), ',');
            assert(decimal(lo as nat) + seq![','] + Seq::<char>::empty() =~= decimal(lo as nat) + seq![',']);
            assert(c[1].text@[decimal(lo as nat).len() as int] == ',');
        },
        Q::NTimes { min: None, max: Some(hi) } => {
            lemma_decimal_parses(hi);
            lemma_split_first_at(Seq::empty(), decimal(hi as nat), ',');
            assert(Seq::<char>::empty() + seq![','] + decimal(hi as nat) =~= seq![','] + decimal(hi as nat));
            assert(c[1].text@[0] == ',');
        },
        _ => {},
    }
    reveal_with_fuel(suffix_ok, 3);
    reveal_with_fuel(greed_after, 3);
}

/// Group flags read back from their own text (without the leading `?`) are
/// the same flags: on such a node `GroupFlags::from_pair` succeeds with the
/// same flags turned on and off.
pub proof fn group_flags_round_trip(g: GroupFlags, node: ParseNode)
    requires
        g.wf(),
        node.text@ == g.text().drop_first(),
    ensures
        all_flag_codes(split_dash(node.text@).0),
        all_flag_codes(split_dash(node.text@).1),
        flags_in(split_dash(node.text@).0) == g.pos_spec().set(),
        flags_in(split_dash(node.text@).1) == g.neg_spec().set(),
        flags_in(split_dash(node.text@).0).disjoint(flags_in(split_dash(node.text@).1)),
{
    let p = g.pos_spec().codes();
    let q = g.neg_spec().codes();
    flags_round_trip(g.pos_spec());
    flags_round_trip(g.neg_spec());
    if g.neg_spec().set() == Set::<crate::flags::Flag>::empty() {
        assert(node.text@ =~= p);
    } else {
        assert(node.text@ =~= p + seq!['-'] + q);
        lemma_split_first_at(p, q, '-');
    }
    assert(flags_in(Seq::<char>::empty()) =~= Set::<crate::flags::Flag>::empty());
}


/// An assertion read back from its own text is the same assertion.
pub proof fn zwl_round_trip(z: ZeroWidthLiteral)
    ensures
        zwl_of(z.text()) == Some(z),
{
}

/// A class escape read back from its own text is the same class.
pub proof fn class_round_trip(c: CharClass)
    ensures
        cclass_parses(c.text()),
        cclass_of(c.text()[1]) == Some(c.class_kind()),
        c.class_kind().to_char_class_spec() == c,
{
}

/// Whether `node` is the parse tree of a bracket expression that writes the
/// given ranges: `[`, one range node per range (low, `-`, high), `]`.
pub open spec fn bracket_tree(node: ParseNode, rs: Seq<(char, char)>) -> bool {
    let c = node.children;
    &&& node.rule == Rule::CharSet
    &&& c.len() == rs.len() + 2
    &&& c[0].rule == Rule::LSq
    &&& c[c.len() - 1].rule == Rule::RSq
    &&& forall|i: int|
        0 <= i < rs.len() ==> {
            &&& (#[trigger] c[i + 1]).rule == Rule::CharRange
            &&& c[i + 1].children.len() >= 3
            &&& c[i + 1].children[0].text@.len() > 0
            &&& c[i + 1].children[0].text@[0] == rs[i].0
            &&& c[i + 1].children[2].text@.len() > 0
            &&& c[i + 1].children[2].text@[0] == rs[i].1
        }
}

proof fn lemma_bracket_items(node: ParseNode, rs: Seq<(char, char)>, k: int)
    requires
        bracket_tree(node, rs),
        1 <= k <= rs.len() + 1,
    ensures
        items_chars(node.children, k) == ranges_set(rs.subrange(0, k - 1)),
        !negation_in(node.children, k),
    decreases k,
{
    let c = node.children;
    if k == 1 {
        assert(!negation_in(c, 0));
        assert(c[0].rule != Rule::SetNegation);
        assert(items_chars(c, 0) == Set::<char>::empty());
        assert(item_chars(c[0]) == Set::<char>::empty());
        assert(ranges_set(rs.subrange(0, 0)) =~= Set::<char>::empty());
        assert(items_chars(c, 1) =~= Set::<char>::empty());
    } else {
        lemma_bracket_items(node, rs, k - 1);
        let prev = rs.subrange(0, k - 2);
        let cur = rs.subrange(0, k - 1);
        assert(c[k - 1] == c[(k - 2) + 1]);
        assert(c[k - 1].rule == Rule::CharRange);
        assert(item_chars(c[k - 1]) == range_set(rs[k - 2].0, rs[k - 2].1));
        assert forall|ch: char| #[trigger] ranges_set(cur).contains(ch) == (ranges_set(prev).contains(ch)
            || range_set(rs[k - 2].0, rs[k - 2].1).contains(ch)) by {
            if in_ranges(cur, ch) {
                let i = choose|i: int| 0 <= i < cur.len() && in_range(#[trigger] cur[i], ch);
                if i < prev.len() {
                    assert(prev[i] == cur[i]);
                    assert(in_ranges(prev, ch));
                }
            }
            if in_ranges(prev, ch) {
                let i = choose|i: int| 0 <= i < prev.len() && in_range(#[trigger] prev[i], ch);
                assert(cur[i] == prev[i]);
                assert(in_ranges(cur, ch));
            }
            if range_set(rs[k - 2].0, rs[k - 2].1).contains(ch) {
                assert(cur[k - 2] == rs[k - 2]);
                assert(in_range(cur[k - 2], ch));
                assert(in_ranges(cur, ch));
            }
        }
        assert(ranges_set(cur) =~= ranges_set(prev).union(range_set(rs[k - 2].0, rs[k - 2].1)));
    }
}

/// The parse tree of a bracket expression with upward ranges is built
/// without error.
pub proof fn lemma_bracket_tree_ok(node: ParseNode, rs: Seq<(char, char)>)
    requires
        bracket_tree(node, rs),
        valid_ranges(rs),
    ensures
        items_ok(node.children),
{
    assert forall|k: int| 0 <= k < node.children.len() implies #[trigger] child_ok(node.children[k]) by {
        if 1 <= k <= rs.len() {
            let m = k - 1;
            assert(node.children[m + 1].rule == Rule::CharRange);
            assert(cp(rs[m].0) <= cp(rs[m].1));
        }
    }
}

/// A bracket expression read back from its own text is the same set: the
/// parse tree of `cs`'s text describes exactly `cs`'s characters, so the
/// well-formed set `CharSet::from_pair` builds from it has the same ranges.
pub proof fn bracket_round_trip(cs: CharSet, node: ParseNode, built: CharSet)
    requires
        cs.wf(),
        bracket_tree(node, cs.ranges()),
        built.wf(),
        built.chars() == bracket_chars(node),
    ensures
        bracket_chars(node) == cs.chars(),
        built.ranges() == cs.ranges(),
{
    let c = node.children;
    let rs = cs.ranges();
    let n = c.len() as int;
    lemma_bracket_items(node, rs, rs.len() as int + 1);
    assert(rs.subrange(0, rs.len() as int) == rs);
    assert(item_chars(c[n - 1]) == Set::<char>::empty());
    assert(items_chars(c, n) =~= items_chars(c, n - 1));
    assert(!negation_in(c, n));
    cs.lemma_ranges();
    assert(bracket_chars(node) =~= cs.chars());
    CharSet::lemma_same_chars_same_ranges(built, cs);
}


/// The node kind of a group extension.
pub open spec fn ext_rule(e: GroupExt) -> Rule {
    match e {
        GroupExt::NonCapturing => Rule::Noncapturing,
        GroupExt::Atomic => Rule::Atomic,
        GroupExt::PosLookahead => Rule::PosLookahead,
        GroupExt::NegLookahead => Rule::NegLookahead,
        GroupExt::PosLookbehind => Rule::PosLookbehind,
        GroupExt::NegLookbehind => Rule::NegLookbehind,
    }
}

/// Whether `nodes[start..start + n]` are the parse trees of `comps[0..n]`.
pub open spec fn comps_tree(nodes: Vec<ParseNode>, start: int, comps: Vec<SubPattern>, n: int) -> bool
    decreases comps, n,
{
    if n <= 0 || n > comps.len() {
        n == 0
    } else {
        &&& comps_tree(nodes, start, comps, n - 1)
        &&& 0 <= start + n - 1 < nodes.len()
        &&& sub_tree(nodes[start + n - 1], comps[n - 1])
    }
}

/// Whether `nodes` are the parse trees of the first `n` alternatives with a
/// `|` between each two.
pub open spec fn alts_tree(nodes: Vec<ParseNode>, alts: Vec<SubPattern>, n: int) -> bool
    decreases alts, n,
{
    if n <= 0 || n > alts.len() {
        n == 0
    } else if n == 1 {
        nodes.len() >= 1 && sub_tree(nodes[0], alts[0])
    } else {
        &&& alts_tree(nodes, alts, n - 1)
        &&& nodes.len() >= 2 * n - 1
        &&& nodes[2 * n - 3].rule == Rule::Pipe
        &&& sub_tree(nodes[2 * n - 2], alts[n - 1])
    }
}

/// Whether `node` is the parse tree of the element or group `q`.
pub open spec fn item_tree(node: ParseNode, q: Quantifiable) -> bool
    decreases q,
{
    match q {
        Quantifiable::Element(Element::CharSet(cs)) => cs.wf() && bracket_tree(node, cs.ranges()),
        Quantifiable::Element(Element::CharClass(c)) => node.rule == Rule::CharClass && node.text@
            == c.text(),
        Quantifiable::Element(Element::Literal(l)) => node.rule == Rule::Literals && node.text@ == l.0@,
        Quantifiable::Group(g) => group_tree(node, g),
    }
}

/// Whether the children of `node` are the parse trees of `q`: the item, then
/// its quantifier if it has one.
pub open spec fn quantified_tree(node: ParseNode, q: Quantified) -> bool
    decreases q,
{
    let c = node.children;
    match q.quantifier {
        None => c.len() == 1 && item_tree(c[0], q.quantifiable),
        Some(qq) => c.len() == 2 && item_tree(c[0], q.quantifiable) && quantifier_tree(c[1], qq),
    }
}

/// Whether `node` is the parse tree of the sub-pattern `sp`.
pub open spec fn sub_tree(node: ParseNode, sp: SubPattern) -> bool
    decreases sp,
{
    let c = node.children;
    &&& node.rule == Rule::SubPattern
    &&& match sp {
        SubPattern::Alternatives(a) => c.len() == 1 && c[0].rule == Rule::Alternatives
            && alts_node_tree(c[0], a.0),
        SubPattern::Quantified(q) => quantified_tree(node, q),
        SubPattern::ZeroWidthLiteral(z) => c.len() == 1 && c[0].rule == Rule::ZeroWidthLiteral
            && c[0].text@ == z.text(),
        SubPattern::Comment(t) => c.len() == 1 && c[0].rule == Rule::CommentGroup && c[0].children.len()
            >= 4 && c[0].children[3].text@ == t@,
    }
}

/// Whether `node` is the parse tree of the group `g`: `(`, the extension if
/// there is one, the components, `)`.
pub open spec fn group_tree(node: ParseNode, g: Group) -> bool
    decreases g,
{
    let c = node.children;
    let ext = c[1].children[1];
    let head = c.len() >= 2 && c[1].rule == Rule::GroupExt && c[1].children.len() >= 2;
    &&& node.rule == Rule::Group
    &&& match g {
        Group::Group { ext: None, name: None, components, flags } => flags.is_none() && components.len() >= 1 && c.len()
            == components.len() + 2 && c[c.len() - 1].rule == Rule::RParens && comps_tree(
            c,
            1,
            components,
            components.len() as int,
        ),
        Group::Group { ext: None, name: Some(n), components, flags } => flags.is_none() && head && ext.rule == Rule::Named
            && ext.children.len() >= 2 && ext.children[1].text@ == n@ && c.len() == components.len() + 3
            && c[c.len() - 1].rule == Rule::RParens && comps_tree(c, 2, components, components.len() as int),
        Group::Group { ext: Some(e), name: None, flags, components } => head && ext.rule == ext_rule(e)
            && (e != GroupExt::NonCapturing ==> flags.is_none()) && (e == GroupExt::NonCapturing ==> flags.wf() && (if flags.is_none() {
            ext.children.len() == 0
        } else {
            ext.children.len() >= 1 && ext.children[0].text@ == flags.text().drop_first()
        })) && c.len() == components.len() + 3 && c[c.len() - 1].rule == Rule::RParens && comps_tree(
            c,
            2,
            components,
            components.len() as int,
        ),
        Group::Group { ext: Some(_), name: Some(_), .. } => false,
        Group::NamedBackref { name } => head && ext.rule == Rule::NamedBackref && ext.children.len()
            >= 2 && ext.children[1].children.len() >= 1 && ext.children[1].children[0].text@ == name@,
        Group::Ternary { group_id, yes_pat, no_pat } => head && ext.rule == Rule::Ternary
            && ext.children.len() >= 3 && ext.children[0].children.len() >= 2 && match group_id {
            TernaryGroupId::Numbered(v) => ext.children[0].children[1].rule == Rule::NumberedGroupId
                && ext.children[0].children[1].text@ == decimal(v as nat),
            TernaryGroupId::Named(n) => ext.children[0].children[1].rule == Rule::NamedGroupId
                && ext.children[0].children[1].text@ == n@,
        } && sub_tree(ext.children[2], *yes_pat) && match no_pat {
            None => ext.children.len() == 3,
            Some(no) => ext.children.len() == 5 && sub_tree(ext.children[4], *no),
        },
    }
}

/// Whether `node` is the parse tree of the whole pattern `p`: its flags if
/// it has any, then its sub-patterns.
pub open spec fn pat_tree(node: ParseNode, p: Pat) -> bool {
    let c = node.children;
    let subs = p.sub_patterns;
    if p.flags.set() == Set::<crate::flags::Flag>::empty() {
        c.len() == subs.len() && comps_tree(c, 0, subs, subs.len() as int)
    } else {
        &&& c.len() == subs.len() + 1
        &&& c[0].rule == Rule::WholePatternFlags
        &&& c[0].children.len() >= 2
        &&& c[0].children[1].rule == Rule::Flags
        &&& c[0].children[1].text@ == p.flags.codes()
        &&& comps_tree(c, 1, subs, subs.len() as int)
    }
}

/// A plain group's tree starts with a sub-pattern, not an extension.
proof fn lemma_plain_group_head(node: ParseNode, g: Group)
    requires
        group_tree(node, g),
        g matches Group::Group { ext: None, name: None, .. },
    ensures
        node.children.len() >= 2,
        node.children[1].rule == Rule::SubPattern,
{
    if let Group::Group { components, .. } = g {
        lemma_comps_tree_at(node.children, 1, components, components.len() as int, 0);
    }
}

/// The first child of a sub-pattern's tree is of the kind its variant names.
proof fn lemma_sub_tree_head(node: ParseNode, t: SubPattern)
    requires
        sub_tree(node, t),
    ensures
        node.children.len() >= 1,
        t is Alternatives <==> node.children[0].rule == Rule::Alternatives,
        t is Quantified <==> (node.children[0].rule == Rule::Group || node.children[0].rule == Rule::Literals
            || node.children[0].rule == Rule::CharSet || node.children[0].rule == Rule::CharClass),
        t is ZeroWidthLiteral <==> node.children[0].rule == Rule::ZeroWidthLiteral,
        t is Comment <==> node.children[0].rule == Rule::CommentGroup,
{
    if let SubPattern::Quantified(q) = t {
        assert(quantified_tree(node, q));
        assert(item_tree(node.children[0], q.quantifiable));
        if let Quantifiable::Group(g) = q.quantifiable {
            assert(group_tree(node.children[0], g));
        }
    }
}

/// The parse tree of each component is at its place.
proof fn lemma_comps_tree_at(nodes: Vec<ParseNode>, start: int, comps: Vec<SubPattern>, n: int, i: int)
    requires
        comps_tree(nodes, start, comps, n),
        0 <= i < n,
    ensures
        0 <= start + i < nodes.len(),
        sub_tree(nodes[start + i], comps[i]),
    decreases n,
{
    if i < n - 1 {
        lemma_comps_tree_at(nodes, start, comps, n - 1, i);
    }
}

} // verus!
