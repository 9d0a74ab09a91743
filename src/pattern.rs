use vstd::prelude::*;
use crate::element::{Element, ZeroWidthLiteral};
use crate::flags::{Flags, GroupFlags, lemma_same_flags_same_codes};
use crate::groups::{GroupExt, TernaryGroupId};
use crate::quantifiers::Quantifier;
use crate::text::{push_char, push_str};
use vstd::string::*;

verus! {

broadcast use vstd::std_specs::vec::axiom_vec_index_decreases;

/// `n` capped at `usize::MAX`.
pub open spec fn sat(n: nat) -> nat {
    if n > usize::MAX {
        usize::MAX as nat
    } else {
        n
    }
}

pub open spec fn min_nat(a: nat, b: nat) -> nat {
    if a <= b {
        a
    } else {
        b
    }
}

/// A parenthesised construct.
#[derive(Debug)]
pub enum Group {
    /// `(?P=name)`
    NamedBackref { name: String },
    /// `(?(id)yes|no)`
    Ternary {
        group_id: TernaryGroupId,
        yes_pat: Box<SubPattern>,
        no_pat: Option<Box<SubPattern>>,
    },
    /// Capturing, named, non-capturing, atomic and lookaround groups.
    Group {
        ext: Option<GroupExt>,
        flags: GroupFlags,
        name: Option<String>,
        components: Vec<SubPattern>,
    },
}

/// What a quantifier applies to.
#[derive(Debug)]
pub enum Quantifiable {
    Element(Element),
    Group(Group),
}

/// An element or group with an optional quantifier; none means exactly once.
#[derive(Debug)]
pub struct Quantified {
    pub quantifiable: Quantifiable,
    pub quantifier: Option<Quantifier>,
}

/// Two or more sub-patterns separated by `|`, tried left to right.
#[derive(Debug)]
pub struct Alternatives(pub Vec<SubPattern>);

/// Any node below the root.
#[derive(Debug)]
pub enum SubPattern {
    Alternatives(Alternatives),
    Quantified(Quantified),
    ZeroWidthLiteral(ZeroWidthLiteral),
    Comment(String),
}

/// Concatenated text of the first `n` sub-patterns.
pub open spec fn concat_text(v: Vec<SubPattern>, n: int) -> Seq<char>
    decreases v, n,
{
    if n <= 0 || n > v.len() {
        Seq::empty()
    } else {
        concat_text(v, n - 1) + v[n - 1].text()
    }
}

/// Text of the first `n` sub-patterns joined by `|`.
pub open spec fn alts_text(v: Vec<SubPattern>, n: int) -> Seq<char>
    decreases v, n,
{
    if n <= 0 || n > v.len() {
        Seq::empty()
    } else if n == 1 {
        v[0].text()
    } else {
        alts_text(v, n - 1) + seq!['|'] + v[n - 1].text()
    }
}

/// Summed minimum lengths of the first `n` sub-patterns.
pub open spec fn sum_min_len(v: Vec<SubPattern>, n: int) -> nat
    decreases v, n,
{
    if n <= 0 || n > v.len() {
        0
    } else {
        sum_min_len(v, n - 1) + v[n - 1].min_len()
    }
}

/// Smallest minimum length among the first `n` sub-patterns (none: `0`).
pub open spec fn least_min_len(v: Vec<SubPattern>, n: int) -> nat
    decreases v, n,
{
    if n <= 0 || n > v.len() {
        0
    } else if n == 1 {
        v[0].min_len()
    } else {
        min_nat(least_min_len(v, n - 1), v[n - 1].min_len())
    }
}

/// Whether each of the first `n` sub-patterns has a bounded length.
pub open spec fn all_finite(v: Vec<SubPattern>, n: int) -> bool
    decreases v, n,
{
    if n <= 0 || n > v.len() {
        true
    } else {
        all_finite(v, n - 1) && v[n - 1].finite()
    }
}

/// Capture groups of the first `n` sub-patterns, in document order.
pub open spec fn all_captures(v: Vec<SubPattern>, n: int) -> Seq<Group>
    decreases v, n,
{
    if n <= 0 || n > v.len() {
        Seq::empty()
    } else {
        all_captures(v, n - 1) + v[n - 1].captures()
    }
}

/// Whether each of the first `n` sub-patterns is well formed.
pub open spec fn all_wf(v: Vec<SubPattern>, n: int) -> bool
    decreases v, n,
{
    if n <= 0 || n > v.len() {
        true
    } else {
        all_wf(v, n - 1) && v[n - 1].wf()
    }
}

impl Group {
    pub open spec fn text(&self) -> Seq<char>
        decreases self,
    {
        match self {
            Group::NamedBackref { name } => seq!['(', '?', 'P', '='] + name@ + seq![')'],
            Group::Ternary { group_id, yes_pat, no_pat } => match no_pat {
                None => seq!['(', '?', '('] + group_id.text() + seq![')'] + yes_pat.text() + seq![')'],
                Some(no) => seq!['(', '?', '('] + group_id.text() + seq![')'] + yes_pat.text()
                    + seq!['|'] + no.text() + seq![')'],
            },
            Group::Group { ext, flags, name, components } => {
                let body = concat_text(*components, components.len() as int) + seq![')'];
                match ext {
                    Some(GroupExt::NonCapturing) => seq!['('] + flags.text() + seq![':'] + body,
                    Some(e) => seq!['('] + e.text() + body,
                    None => match name {
                        Some(n) => seq!['(', '?', 'P', '<'] + n@ + seq!['>'] + body,
                        None => seq!['('] + body,
                    },
                }
            },
        }
    }

    /// Least number of characters a match consumes. Every kind of group,
    /// non-capturing ones included, sums its components; a back-reference
    /// counts as empty and a conditional group by its yes branch.
    pub open spec fn min_len(&self) -> nat
        decreases self,
    {
        match self {
            Group::NamedBackref { .. } => 0,
            Group::Ternary { yes_pat, .. } => yes_pat.min_len(),
            Group::Group { components, .. } => sum_min_len(*components, components.len() as int),
        }
    }

    /// Whether every match has bounded length: for a conditional group, both
    /// branches must be bounded.
    pub open spec fn finite(&self) -> bool
        decreases self,
    {
        match self {
            Group::NamedBackref { .. } => true,
            Group::Ternary { yes_pat, no_pat, .. } => yes_pat.finite() && match no_pat {
                None => true,
                Some(no) => no.finite(),
            },
            Group::Group { components, .. } => all_finite(*components, components.len() as int),
        }
    }

    /// Whether the group captures: a plain or a named group.
    pub open spec fn capturing(&self) -> bool {
        self matches Group::Group { ext: None, .. }
    }

    /// This group, if it captures, then the capture groups inside it, in
    /// document order.
    pub open spec fn captures(&self) -> Seq<Group>
        decreases self,
    {
        match self {
            Group::NamedBackref { .. } => Seq::empty(),
            Group::Ternary { yes_pat, no_pat, .. } => yes_pat.captures() + match no_pat {
                None => Seq::empty(),
                Some(no) => no.captures(),
            },
            Group::Group { ext, components, .. } => {
                let ghost inner = all_captures(*components, components.len() as int);
                if ext is None {
                    seq![*self] + inner
                } else {
                    inner
                }
            },
        }
    }

    /// Quantifiers have a bound, classes are well formed, group flags are
    /// disjoint and only non-capturing groups carry them, and no group is both
    /// an extension group and named.
    pub open spec fn wf(&self) -> bool
        decreases self,
    {
        match self {
            Group::NamedBackref { .. } => true,
            Group::Ternary { yes_pat, no_pat, .. } => yes_pat.wf() && match no_pat {
                None => true,
                Some(no) => no.wf(),
            },
            Group::Group { ext, flags, name, components } => {
                &&& !(ext is Some && name is Some)
                &&& flags.wf()
                &&& (ext != Some(GroupExt::NonCapturing) ==> flags.pos_spec().set() == Set::<
                    crate::flags::Flag,
                >::empty() && flags.neg_spec().set() == Set::<crate::flags::Flag>::empty())
                &&& all_wf(*components, components.len() as int)
            },
        }
    }
}

impl Quantifiable {
    pub open spec fn text(&self) -> Seq<char>
        decreases self,
    {
        match self {
            Quantifiable::Element(e) => e.text(),
            Quantifiable::Group(g) => g.text(),
        }
    }

    pub open spec fn min_len(&self) -> nat
        decreases self,
    {
        match self {
            Quantifiable::Element(e) => e.min_len(),
            Quantifiable::Group(g) => g.min_len(),
        }
    }

    pub open spec fn finite(&self) -> bool
        decreases self,
    {
        match self {
            Quantifiable::Element(_) => true,
            Quantifiable::Group(g) => g.finite(),
        }
    }

    pub open spec fn captures(&self) -> Seq<Group>
        decreases self,
    {
        match self {
            Quantifiable::Element(_) => Seq::empty(),
            Quantifiable::Group(g) => g.captures(),
        }
    }

    pub open spec fn wf(&self) -> bool
        decreases self,
    {
        match self {
            Quantifiable::Element(e) => e.wf(),
            Quantifiable::Group(g) => g.wf(),
        }
    }
}

impl Quantified {
    pub open spec fn text(&self) -> Seq<char>
        decreases self,
    {
        match self.quantifier {
            None => self.quantifiable.text(),
            Some(q) => self.quantifiable.text() + q.text(),
        }
    }

    /// The item's minimum times the least repetition count.
    pub open spec fn min_len(&self) -> nat
        decreases self,
    {
        match self.quantifier {
            None => self.quantifiable.min_len(),
            Some(q) => self.quantifiable.min_len() * q.quantifier.min_count(),
        }
    }

    /// Bounded when the item is bounded and the count has an upper bound.
    pub open spec fn finite(&self) -> bool
        decreases self,
    {
        self.quantifiable.finite() && match self.quantifier {
            None => true,
            Some(q) => q.quantifier.finite(),
        }
    }

    pub open spec fn captures(&self) -> Seq<Group>
        decreases self,
    {
        self.quantifiable.captures()
    }

    pub open spec fn wf(&self) -> bool
        decreases self,
    {
        self.quantifiable.wf() && match self.quantifier {
            None => true,
            Some(q) => q.wf(),
        }
    }
}

impl SubPattern {
    /// The sub-pattern as pattern source text.
    pub open spec fn text(&self) -> Seq<char>
        decreases self,
    {
        match self {
            SubPattern::Alternatives(a) => alts_text(a.0, a.0.len() as int),
            SubPattern::Quantified(q) => q.text(),
            SubPattern::ZeroWidthLiteral(z) => z.text(),
            SubPattern::Comment(c) => seq!['(', '?', '#'] + c@ + seq![')'],
        }
    }

    /// Least number of characters any match consumes.
    pub open spec fn min_len(&self) -> nat
        decreases self,
    {
        match self {
            SubPattern::Alternatives(a) => least_min_len(a.0, a.0.len() as int),
            SubPattern::Quantified(q) => q.min_len(),
            SubPattern::ZeroWidthLiteral(_) => 0,
            SubPattern::Comment(_) => 0,
        }
    }

    /// Whether every match has bounded length.
    pub open spec fn finite(&self) -> bool
        decreases self,
    {
        match self {
            SubPattern::Alternatives(a) => all_finite(a.0, a.0.len() as int),
            SubPattern::Quantified(q) => q.finite(),
            SubPattern::ZeroWidthLiteral(_) => true,
            SubPattern::Comment(_) => true,
        }
    }

    /// Capture groups in document order.
    pub open spec fn captures(&self) -> Seq<Group>
        decreases self,
    {
        match self {
            SubPattern::Alternatives(a) => all_captures(a.0, a.0.len() as int),
            SubPattern::Quantified(q) => q.captures(),
            SubPattern::ZeroWidthLiteral(_) => Seq::empty(),
            SubPattern::Comment(_) => Seq::empty(),
        }
    }

    pub open spec fn wf(&self) -> bool
        decreases self,
    {
        match self {
            SubPattern::Alternatives(a) => all_wf(a.0, a.0.len() as int),
            SubPattern::Quantified(q) => q.wf(),
            SubPattern::ZeroWidthLiteral(_) => true,
            SubPattern::Comment(_) => true,
        }
    }
}


/// The first flag scope that is not empty among the first `n` sub-patterns'
/// groups, in document order.
pub open spec fn first_flags(v: Vec<SubPattern>, n: int) -> Option<GroupFlags>
    decreases v, n,
{
    if n <= 0 || n > v.len() {
        None
    } else {
        match first_flags(v, n - 1) {
            Some(f) => Some(f),
            None => v[n - 1].scoped_flags(),
        }
    }
}

impl Group {
    /// The flags in force for the group: its own unless empty, else the first
    /// non-empty set declared by a group inside it.
    pub open spec fn scoped_flags(&self) -> Option<GroupFlags>
        decreases self,
    {
        match self {
            Group::Group { flags, components, .. } => if flags.is_none() {
                first_flags(*components, components.len() as int)
            } else {
                Some(*flags)
            },
            _ => None,
        }
    }
}

impl SubPattern {
    pub open spec fn scoped_flags(&self) -> Option<GroupFlags>
        decreases self,
    {
        match self {
            SubPattern::Quantified(Quantified { quantifiable: Quantifiable::Group(g), .. }) => g.scoped_flags(),
            _ => None,
        }
    }
}

fn first_flags_exec(v: &Vec<SubPattern>) -> (r: Option<GroupFlags>)
    ensures
        r == first_flags(*v, v.len() as int),
    decreases v, 1int,
{
    let mut i: usize = 0;
    while i < v.len()
        invariant
            i <= v.len(),
            first_flags(*v, i as int) is None,
        decreases v.len() - i,
    {
        let f = v[i].flags_opt();
        if f.is_some() {
            proof {
                lemma_first_flags_settles(*v, i as int + 1, v.len() as int);
            }
            return f;
        }
        i += 1;
    }
    None
}

proof fn lemma_first_flags_settles(v: Vec<SubPattern>, i: int, n: int)
    requires
        0 <= i <= n <= v.len(),
        first_flags(v, i) is Some,
    ensures
        first_flags(v, n) == first_flags(v, i),
    decreases n - i,
{
    if i < n {
        lemma_first_flags_settles(v, i, n - 1);
    }
}

/// Whether `g` is a group named `nm`.
pub open spec fn named(g: Group, nm: Seq<char>) -> bool {
    g matches Group::Group { name: Some(x), .. } && x@ == nm
}

proof fn lemma_sat_add(a: nat, b: nat)
    ensures
        sat(a + b) == (if sat(a) + sat(b) > usize::MAX {
            usize::MAX as nat
        } else {
            sat(a) + sat(b)
        }),
{
}

proof fn lemma_sat_mul(a: nat, b: nat)
    ensures
        sat(a * b) == (if sat(a) * b > usize::MAX {
            usize::MAX as nat
        } else {
            sat(a) * b
        }),
{
    if a > usize::MAX && b > 0 {
        assert(a * b >= a) by (nonlinear_arith)
            requires
                b > 0,
        ;
        assert(sat(a) * b >= sat(a)) by (nonlinear_arith)
            requires
                b > 0,
        ;
    }
}

fn sat_mul(a: usize, b: usize) -> (r: usize)
    ensures
        r == (if a * b > usize::MAX {
            usize::MAX as nat
        } else {
            (a * b) as nat
        }),
{
    match a.checked_mul(b) {
        Some(p) => p,
        None => usize::MAX,
    }
}

/// Appends the sub-patterns' text, joined by `|`.
fn write_alts(v: &Vec<SubPattern>, s: &mut String)
    ensures
        final(s)@ == old(s)@ + alts_text(*v, v.len() as int),
    decreases v, 1int,
{
    let mut i: usize = 0;
    while i < v.len()
        invariant
            i <= v.len(),
            s@ == old(s)@ + alts_text(*v, i as int),
        decreases v.len() - i,
    {
        if i > 0 {
            push_char(s, '|');
        }
        v[i].write_to(s);
        i += 1;
    }
}

fn least_min_match_len(v: &Vec<SubPattern>) -> (r: usize)
    ensures
        r == sat(least_min_len(*v, v.len() as int)),
    decreases v, 1int,
{
    if v.len() == 0 {
        return 0;
    }
    let mut acc = v[0].min_match_len();
    let mut i: usize = 1;
    while i < v.len()
        invariant
            1 <= i <= v.len(),
            acc == sat(least_min_len(*v, i as int)),
        decreases v.len() - i,
    {
        let m = v[i].min_match_len();
        if m < acc {
            acc = m;
        }
        i += 1;
    }
    acc
}

/// Appends the text of each sub-pattern in turn.
fn write_all(v: &Vec<SubPattern>, s: &mut String)
    ensures
        final(s)@ == old(s)@ + concat_text(*v, v.len() as int),
    decreases v, 1int,
{
    let mut i: usize = 0;
    while i < v.len()
        invariant
            i <= v.len(),
            s@ == old(s)@ + concat_text(*v, i as int),
        decreases v.len() - i,
    {
        v[i].write_to(s);
        i += 1;
    }
}

fn sum_min_match_len(v: &Vec<SubPattern>) -> (r: usize)
    ensures
        r == sat(sum_min_len(*v, v.len() as int)),
    decreases v, 1int,
{
    let mut i: usize = 0;
    let mut acc: usize = 0;
    while i < v.len()
        invariant
            i <= v.len(),
            acc == sat(sum_min_len(*v, i as int)),
        decreases v.len() - i,
    {
        let m = v[i].min_match_len();
        proof {
            lemma_sat_add(sum_min_len(*v, i as int), v[i as int].min_len());
        }
        acc = acc.saturating_add(m);
        i += 1;
    }
    acc
}

fn all_are_finite(v: &Vec<SubPattern>) -> (r: bool)
    ensures
        r == all_finite(*v, v.len() as int),
    decreases v, 1int,
{
    let mut i: usize = 0;
    while i < v.len()
        invariant
            i <= v.len(),
            all_finite(*v, i as int),
        decreases v.len() - i,
    {
        if !v[i].is_finite() {
            proof {
                if all_finite(*v, v.len() as int) {
                    lemma_all_finite_prefix(*v, i as int + 1, v.len() as int);
                }
            }
            return false;
        }
        i += 1;
    }
    true
}

proof fn lemma_all_finite_prefix(v: Vec<SubPattern>, i: int, n: int)
    requires
        0 <= i <= n <= v.len(),
        all_finite(v, n),
    ensures
        all_finite(v, i),
    decreases n - i,
{
    if i < n {
        lemma_all_finite_prefix(v, i, n - 1);
    }
}

/// The `k`-th capture group (from 0) among those of the sub-patterns, or
/// how many there are.
fn find_in<'a>(v: &'a Vec<SubPattern>, k: usize) -> (r: Result<&'a Group, usize>)
    ensures
        r is Ok <==> k < all_captures(*v, v.len() as int).len(),
        r matches Ok(g) ==> *g == all_captures(*v, v.len() as int)[k as int],
        r matches Err(m) ==> m == all_captures(*v, v.len() as int).len(),
    decreases v, 1int,
{
    let mut i: usize = 0;
    let mut rest: usize = k;
    while i < v.len()
        invariant
            i <= v.len(),
            all_captures(*v, i as int).len() <= k,
            rest == k - all_captures(*v, i as int).len(),
        decreases v.len() - i,
    {
        let ghost before = all_captures(*v, i as int);
        let ghost here = v[i as int].captures();
        match v[i].find(rest) {
            Ok(g) => {
                proof {
                    lemma_captures_prefix(*v, i as int + 1, v.len() as int);
                    assert(all_captures(*v, i as int + 1) == before + here);
                    assert(all_captures(*v, i as int + 1)[k as int] == here[rest as int]);
                }
                return Ok(g);
            },
            Err(m) => {
                rest = rest - m;
            },
        }
        i += 1;
    }
    Err(k - rest)
}

/// Some capture group named `nm` among those of the sub-patterns.
fn find_named_in<'a>(v: &'a Vec<SubPattern>, nm: &String) -> (r: Option<&'a Group>)
    ensures
        r matches Some(g) ==> all_captures(*v, v.len() as int).contains(*g) && named(*g, nm@),
        r is None ==> forall|j: int|
            0 <= j < all_captures(*v, v.len() as int).len() ==> !named(
                #[trigger] all_captures(*v, v.len() as int)[j],
                nm@,
            ),
    decreases v, 1int,
{
    let mut i: usize = 0;
    while i < v.len()
        invariant
            i <= v.len(),
            forall|j: int|
                0 <= j < all_captures(*v, i as int).len() ==> !named(
                    #[trigger] all_captures(*v, i as int)[j],
                    nm@,
                ),
        decreases v.len() - i,
    {
        let ghost before = all_captures(*v, i as int);
        let ghost here = v[i as int].captures();
        match v[i].find_named(nm) {
            Some(g) => {
                proof {
                    lemma_captures_prefix(*v, i as int + 1, v.len() as int);
                    let j = choose|j: int| 0 <= j < here.len() && here[j] == *g;
                    assert((before + here)[before.len() + j] == *g);
                }
                return Some(g);
            },
            None => {
                proof {
                    assert forall|j: int| 0 <= j < all_captures(*v, i + 1).len() implies !named(
                        #[trigger] all_captures(*v, i + 1)[j],
                        nm@,
                    ) by {
                        if j >= before.len() {
                            assert(all_captures(*v, i + 1)[j] == here[j - before.len()]);
                        } else {
                            assert(all_captures(*v, i + 1)[j] == before[j]);
                        }
                    }
                }
            },
        }
        i += 1;
    }
    None
}

/// The captures of a prefix are a prefix of the captures.
proof fn lemma_captures_prefix(v: Vec<SubPattern>, i: int, n: int)
    requires
        0 <= i <= n <= v.len(),
    ensures
        all_captures(v, i).len() <= all_captures(v, n).len(),
        forall|j: int|
            0 <= j < all_captures(v, i).len() ==> all_captures(v, n)[j] == #[trigger] all_captures(
                v,
                i,
            )[j],
    decreases n - i,
{
    if i < n {
        lemma_captures_prefix(v, i, n - 1);
    }
}

impl Group {
    /// Appends the group's text.
    pub fn write_to(&self, s: &mut String)
        ensures
            final(s)@ == old(s)@ + self.text(),
        decreases self, 0int,
    {
        match self {
            Group::NamedBackref { name } => {
                push_char(s, '(');
                push_char(s, '?');
                push_char(s, 'P');
                push_char(s, '=');
                push_str(s, name.as_str());
                push_char(s, ')');
            },
            Group::Ternary { group_id, yes_pat, no_pat } => {
                push_char(s, '(');
                push_char(s, '?');
                push_char(s, '(');
                let id = group_id.as_string();
                push_str(s, id.as_str());
                push_char(s, ')');
                yes_pat.write_to(s);
                match no_pat {
                    None => {},
                    Some(no) => {
                        push_char(s, '|');
                        no.write_to(s);
                    },
                }
                push_char(s, ')');
            },
            Group::Group { ext, flags, name, components } => {
                push_char(s, '(');
                match ext {
                    Some(GroupExt::NonCapturing) => {
                        let f = flags.as_string();
                        push_str(s, f.as_str());
                        push_char(s, ':');
                    },
                    Some(e) => {
                        let t = e.as_string();
                        push_str(s, t.as_str());
                    },
                    None => match name {
                        Some(n) => {
                            push_char(s, '?');
                            push_char(s, 'P');
                            push_char(s, '<');
                            push_str(s, n.as_str());
                            push_char(s, '>');
                        },
                        None => {},
                    },
                }
                write_all(components, s);
                push_char(s, ')');
            },
        }
    }

    /// The group as pattern source text.
    pub fn as_string(&self) -> (r: String)
        ensures
            r@ == self.text(),
    {
        let mut s = String::new();
        self.write_to(&mut s);
        s
    }

    /// Least number of characters a match consumes, capped at `usize::MAX`.
    pub fn min_match_len(&self) -> (r: usize)
        ensures
            r == sat(self.min_len()),
        decreases self, 0int,
    {
        match self {
            Group::NamedBackref { .. } => 0,
            Group::Ternary { yes_pat, .. } => yes_pat.min_match_len(),
            Group::Group { components, .. } => sum_min_match_len(components),
        }
    }

    pub fn is_finite(&self) -> (r: bool)
        ensures
            r == self.finite(),
        decreases self, 0int,
    {
        match self {
            Group::NamedBackref { .. } => true,
            Group::Ternary { yes_pat, no_pat, .. } => {
                if !yes_pat.is_finite() {
                    return false;
                }
                match no_pat {
                    None => true,
                    Some(no) => no.is_finite(),
                }
            },
            Group::Group { components, .. } => all_are_finite(components),
        }
    }

    /// The flags in force for the group, if any scope sets some.
    pub fn flags_opt(&self) -> (r: Option<GroupFlags>)
        ensures
            r == self.scoped_flags(),
        decreases self, 0int,
    {
        match self {
            Group::Group { flags, components, .. } => {
                if flags.is_empty() {
                    first_flags_exec(components)
                } else {
                    Some(*flags)
                }
            },
            _ => None,
        }
    }

    /// The flags in force for the group: its own unless empty, else the first
    /// non-empty set declared by a group inside it, else none.
    pub fn flags(&self) -> (r: GroupFlags)
        ensures
            self.scoped_flags() matches Some(f) ==> r == f,
            self.scoped_flags() is None ==> r.is_none(),
    {
        match self.flags_opt() {
            Some(f) => f,
            None => GroupFlags::empty(),
        }
    }

    /// Whether the group captures: a plain or a named group.
    pub fn indexed(&self) -> (r: bool)
        ensures
            r == self.capturing(),
    {
        matches!(self, Group::Group { ext: None, .. })
    }

    /// The name of a named group.
    pub fn name(&self) -> (r: Option<&String>)
        ensures
            r matches Some(x) ==> self matches Group::Group { name: Some(y), .. } && *x == y,
            r is None ==> !(self matches Group::Group { name: Some(_), .. }),
    {
        match self {
            Group::Group { name: Some(n), .. } => Some(n),
            _ => None,
        }
    }

    /// The `k`-th capture group (from 0) of this group, or how many there are.
    pub fn find<'a>(&'a self, k: usize) -> (r: Result<&'a Group, usize>)
        ensures
            r is Ok <==> k < self.captures().len(),
            r matches Ok(g) ==> *g == self.captures()[k as int],
            r matches Err(m) ==> m == self.captures().len(),
        decreases self, 0int,
    {
        match self {
            Group::NamedBackref { .. } => Err(0),
            Group::Ternary { yes_pat, no_pat, .. } => {
                match yes_pat.find(k) {
                    Ok(g) => Ok(g),
                    Err(m) => match no_pat {
                        None => Err(m),
                        Some(no) => match no.find(k - m) {
                            Ok(g) => Ok(g),
                            Err(m2) => Err(m + m2),
                        },
                    },
                }
            },
            Group::Group { ext, components, .. } => {
                if ext.is_none() {
                    if k == 0 {
                        return Ok(self);
                    }
                    match find_in(components, k - 1) {
                        Ok(g) => Ok(g),
                        Err(m) => Err(m + 1),
                    }
                } else {
                    find_in(components, k)
                }
            },
        }
    }

    /// Some capture group named `nm` in this group.
    pub fn find_named<'a>(&'a self, nm: &String) -> (r: Option<&'a Group>)
        ensures
            r matches Some(g) ==> self.captures().contains(*g) && named(*g, nm@),
            r is None ==> forall|j: int|
                0 <= j < self.captures().len() ==> !named(#[trigger] self.captures()[j], nm@),
        decreases self, 0int,
    {
        match self {
            Group::NamedBackref { .. } => None,
            Group::Ternary { yes_pat, no_pat, .. } => {
                match yes_pat.find_named(nm) {
                    Some(g) => {
                        proof {
                            let y = yes_pat.captures();
                            let j = choose|j: int| 0 <= j < y.len() && y[j] == *g;
                            assert(self.captures()[j] == *g);
                        }
                        Some(g)
                    },
                    None => match no_pat {
                        None => {
                            assert(self.captures() =~= yes_pat.captures());
                            None
                        },
                        Some(no) => {
                            let r = no.find_named(nm);
                            proof {
                                let y = yes_pat.captures();
                                let z = no.captures();
                                assert(self.captures() == y + z);
                                if r is Some {
                                    let g = r->Some_0;
                                    let j = choose|j: int| 0 <= j < z.len() && z[j] == *g;
                                    assert(self.captures()[y.len() + j] == *g);
                                } else {
                                    assert forall|j: int| 0 <= j < self.captures().len() implies !named(
                                        #[trigger] self.captures()[j],
                                        nm@,
                                    ) by {
                                        if j >= y.len() {
                                            assert(self.captures()[j] == z[j - y.len()]);
                                        }
                                    }
                                }
                            }
                            r
                        },
                    },
                }
            },
            Group::Group { ext, name, components, .. } => {
                let ghost inner = all_captures(*components, components.len() as int);
                if ext.is_none() {
                    if let Some(n) = name {
                        if *n == *nm {
                            proof {
                                assert(self.captures()[0] == *self);
                            }
                            return Some(self);
                        }
                    }
                }
                let r = find_named_in(components, nm);
                proof {
                    if ext is None {
                        assert(self.captures() == seq![*self] + inner);
                        if r is Some {
                            let g = r->Some_0;
                            let j = choose|j: int| 0 <= j < inner.len() && inner[j] == *g;
                            assert(self.captures()[1 + j] == *g);
                        } else {
                            assert forall|j: int| 0 <= j < self.captures().len() implies !named(
                                #[trigger] self.captures()[j],
                                nm@,
                            ) by {
                                if j >= 1 {
                                    assert(self.captures()[j] == inner[j - 1]);
                                }
                            }
                        }
                    }
                }
                r
            },
        }
    }
}

impl Quantifiable {
    pub fn write_to(&self, s: &mut String)
        ensures
            final(s)@ == old(s)@ + self.text(),
        decreases self, 0int,
    {
        match self {
            Quantifiable::Element(e) => e.write_to(s),
            Quantifiable::Group(g) => g.write_to(s),
        }
    }

    pub fn as_string(&self) -> (r: String)
        ensures
            r@ == self.text(),
    {
        let mut s = String::new();
        self.write_to(&mut s);
        s
    }

    pub fn min_match_len(&self) -> (r: usize)
        ensures
            r == sat(self.min_len()),
        decreases self, 0int,
    {
        match self {
            Quantifiable::Element(e) => e.min_match_len(),
            Quantifiable::Group(g) => g.min_match_len(),
        }
    }

    pub fn is_finite(&self) -> (r: bool)
        ensures
            r == self.finite(),
        decreases self, 0int,
    {
        match self {
            Quantifiable::Element(_) => true,
            Quantifiable::Group(g) => g.is_finite(),
        }
    }

    pub fn find<'a>(&'a self, k: usize) -> (r: Result<&'a Group, usize>)
        ensures
            r is Ok <==> k < self.captures().len(),
            r matches Ok(g) ==> *g == self.captures()[k as int],
            r matches Err(m) ==> m == self.captures().len(),
        decreases self, 0int,
    {
        match self {
            Quantifiable::Element(_) => Err(0),
            Quantifiable::Group(g) => g.find(k),
        }
    }

    pub fn find_named<'a>(&'a self, nm: &String) -> (r: Option<&'a Group>)
        ensures
            r matches Some(g) ==> self.captures().contains(*g) && named(*g, nm@),
            r is None ==> forall|j: int|
                0 <= j < self.captures().len() ==> !named(#[trigger] self.captures()[j], nm@),
        decreases self, 0int,
    {
        match self {
            Quantifiable::Element(_) => {
                assert(self.captures().len() == 0);
                None
            },
            Quantifiable::Group(g) => {
                assert(self.captures() == g.captures());
                g.find_named(nm)
            },
        }
    }
}

impl Quantified {
    pub fn write_to(&self, s: &mut String)
        ensures
            final(s)@ == old(s)@ + self.text(),
        decreases self, 0int,
    {
        self.quantifiable.write_to(s);
        match self.quantifier {
            None => {},
            Some(q) => {
                let t = q.as_string();
                push_str(s, t.as_str());
            },
        }
    }

    pub fn as_string(&self) -> (r: String)
        ensures
            r@ == self.text(),
    {
        let mut s = String::new();
        self.write_to(&mut s);
        s
    }

    pub fn min_match_len(&self) -> (r: usize)
        ensures
            r == sat(self.min_len()),
        decreases self, 0int,
    {
        let m = self.quantifiable.min_match_len();
        match self.quantifier {
            None => m,
            Some(q) => {
                let c = q.min_len_multiplier();
                proof {
                    lemma_sat_mul(self.quantifiable.min_len(), c as nat);
                }
                sat_mul(m, c)
            },
        }
    }

    pub fn is_finite(&self) -> (r: bool)
        ensures
            r == self.finite(),
        decreases self, 0int,
    {
        if !self.quantifiable.is_finite() {
            return false;
        }
        match self.quantifier {
            None => true,
            Some(q) => q.is_finite(),
        }
    }

    /// Whether the item is a capture group.
    pub fn indexed(&self) -> (r: bool)
        ensures
            r == (self.quantifiable matches Quantifiable::Group(g) && g.capturing()),
    {
        match &self.quantifiable {
            Quantifiable::Group(g) => g.indexed(),
            Quantifiable::Element(_) => false,
        }
    }
}

impl Alternatives {
    pub fn write_to(&self, s: &mut String)
        ensures
            final(s)@ == old(s)@ + alts_text(self.0, self.0.len() as int),
        decreases self, 0int,
    {
        write_alts(&self.0, s)
    }

    /// The alternatives joined by `|`.
    pub fn as_string(&self) -> (r: String)
        ensures
            r@ == alts_text(self.0, self.0.len() as int),
    {
        let mut s = String::new();
        self.write_to(&mut s);
        s
    }

    /// Number of capture groups, capped at `usize::MAX`.
    pub fn groups_count(&self) -> (r: usize)
        ensures
            r == sat(all_captures(self.0, self.0.len() as int).len()),
    {
        match find_in(&self.0, usize::MAX) {
            Ok(_) => usize::MAX,
            Err(m) => m,
        }
    }

    /// Whether every alternative has a bounded length.
    pub fn is_finite(&self) -> (r: bool)
        ensures
            r == all_finite(self.0, self.0.len() as int),
    {
        all_are_finite(&self.0)
    }

    /// The least of the alternatives' minimum lengths, capped at `usize::MAX`.
    pub fn min_match_len(&self) -> (r: usize)
        ensures
            r == sat(least_min_len(self.0, self.0.len() as int)),
        decreases self, 0int,
    {
        least_min_match_len(&self.0)
    }

    /// Alternatives of the given sub-patterns.
    pub fn from_components(components: Vec<SubPattern>) -> (r: Alternatives)
        ensures
            r == Alternatives(components),
    {
        Alternatives(components)
    }

    /// The two alternatives `left|right`.
    pub fn from_l_r(left: SubPattern, right: SubPattern) -> (r: Alternatives)
        ensures
            r.0@ == seq![left, right],
    {
        Alternatives(vec![left, right])
    }
}

impl SubPattern {
    pub fn write_to(&self, s: &mut String)
        ensures
            final(s)@ == old(s)@ + self.text(),
        decreases self, 0int,
    {
        match self {
            SubPattern::Alternatives(a) => a.write_to(s),
            SubPattern::Quantified(q) => q.write_to(s),
            SubPattern::ZeroWidthLiteral(z) => {
                let t = z.as_string();
                push_str(s, t.as_str());
            },
            SubPattern::Comment(c) => {
                push_char(s, '(');
                push_char(s, '?');
                push_char(s, '#');
                push_str(s, c.as_str());
                push_char(s, ')');
            },
        }
    }

    /// The sub-pattern as pattern source text.
    pub fn as_string(&self) -> (r: String)
        ensures
            r@ == self.text(),
    {
        let mut s = String::new();
        self.write_to(&mut s);
        s
    }

    /// Least number of characters any match consumes, capped at `usize::MAX`.
    pub fn min_match_len(&self) -> (r: usize)
        ensures
            r == sat(self.min_len()),
        decreases self, 0int,
    {
        match self {
            SubPattern::Alternatives(a) => a.min_match_len(),
            SubPattern::Quantified(q) => q.min_match_len(),
            SubPattern::ZeroWidthLiteral(_) => 0,
            SubPattern::Comment(_) => 0,
        }
    }

    /// Whether every match has bounded length.
    pub fn is_finite(&self) -> (r: bool)
        ensures
            r == self.finite(),
        decreases self, 0int,
    {
        match self {
            SubPattern::Alternatives(a) => all_are_finite(&a.0),
            SubPattern::Quantified(q) => q.is_finite(),
            SubPattern::ZeroWidthLiteral(_) => true,
            SubPattern::Comment(_) => true,
        }
    }

    /// Number of capture groups, capped at `usize::MAX`.
    pub fn groups_count(&self) -> (r: usize)
        ensures
            r == sat(self.captures().len()),
    {
        match self.find(usize::MAX) {
            Ok(_) => usize::MAX,
            Err(m) => m,
        }
    }

    /// The `n`-th capture group (from 1) in document order.
    pub fn nth_group<'a>(&'a self, n: usize) -> (r: Option<&'a Group>)
        ensures
            r is Some <==> 0 < n <= self.captures().len(),
            r matches Some(g) ==> *g == self.captures()[n - 1],
    {
        if n == 0 {
            return None;
        }
        match self.find(n - 1) {
            Ok(g) => Some(g),
            Err(_) => None,
        }
    }

    /// The flags in force for a group standing here, else none.
    pub fn flags(&self) -> (r: GroupFlags)
        ensures
            self.scoped_flags() matches Some(f) ==> r == f,
            self.scoped_flags() is None ==> r.is_none(),
    {
        match self.flags_opt() {
            Some(f) => f,
            None => GroupFlags::empty(),
        }
    }

    /// The flags in force for a group standing here.
    pub fn flags_opt(&self) -> (r: Option<GroupFlags>)
        ensures
            r == self.scoped_flags(),
        decreases self, 0int,
    {
        match self {
            SubPattern::Quantified(q) => match &q.quantifiable {
                Quantifiable::Group(g) => g.flags_opt(),
                Quantifiable::Element(_) => None,
            },
            _ => None,
        }
    }

    /// The `k`-th capture group (from 0), or how many there are.
    pub fn find<'a>(&'a self, k: usize) -> (r: Result<&'a Group, usize>)
        ensures
            r is Ok <==> k < self.captures().len(),
            r matches Ok(g) ==> *g == self.captures()[k as int],
            r matches Err(m) ==> m == self.captures().len(),
        decreases self, 0int,
    {
        match self {
            SubPattern::Alternatives(a) => find_in(&a.0, k),
            SubPattern::Quantified(q) => q.quantifiable.find(k),
            SubPattern::ZeroWidthLiteral(_) => Err(0),
            SubPattern::Comment(_) => Err(0),
        }
    }

    /// Some capture group named `nm`.
    pub fn find_named<'a>(&'a self, nm: &String) -> (r: Option<&'a Group>)
        ensures
            r matches Some(g) ==> self.captures().contains(*g) && named(*g, nm@),
            r is None ==> forall|j: int|
                0 <= j < self.captures().len() ==> !named(#[trigger] self.captures()[j], nm@),
        decreases self, 0int,
    {
        match self {
            SubPattern::Alternatives(a) => {
                assert(self.captures() == all_captures(a.0, a.0.len() as int));
                find_named_in(&a.0, nm)
            },
            SubPattern::Quantified(q) => {
                assert(self.captures() == q.quantifiable.captures());
                q.quantifiable.find_named(nm)
            },
            SubPattern::ZeroWidthLiteral(_) => {
                assert(self.captures().len() == 0);
                None
            },
            SubPattern::Comment(_) => {
                assert(self.captures().len() == 0);
                None
            },
        }
    }
}


/// A whole pattern: the flags declared at its start and its sub-patterns.
#[derive(Debug)]
pub struct Pat {
    pub flags: Flags,
    pub sub_patterns: Vec<SubPattern>,
}

/// A whole pattern, or a sub-pattern standing on its own.
#[derive(Debug)]
pub enum Pattern {
    Pat(Pat),
    Sub(SubPattern),
}

/// A capture group found by number: number 0 is the whole pattern.
#[derive(Debug)]
pub enum GroupRef<'a> {
    Whole(&'a Pattern),
    Group(&'a Group),
}

impl Pat {
    pub open spec fn text(&self) -> Seq<char> {
        let body = concat_text(self.sub_patterns, self.sub_patterns.len() as int);
        if self.flags.set() == Set::<crate::flags::Flag>::empty() {
            body
        } else {
            seq!['('] + self.flags.text() + seq![')'] + body
        }
    }

    pub open spec fn min_len(&self) -> nat {
        sum_min_len(self.sub_patterns, self.sub_patterns.len() as int)
    }

    pub open spec fn finite(&self) -> bool {
        all_finite(self.sub_patterns, self.sub_patterns.len() as int)
    }

    pub open spec fn captures(&self) -> Seq<Group> {
        all_captures(self.sub_patterns, self.sub_patterns.len() as int)
    }

    pub open spec fn wf(&self) -> bool {
        all_wf(self.sub_patterns, self.sub_patterns.len() as int)
    }
}

impl Pattern {
    /// The pattern as source text.
    pub open spec fn text(&self) -> Seq<char> {
        match self {
            Pattern::Pat(p) => p.text(),
            Pattern::Sub(sp) => sp.text(),
        }
    }

    /// Least number of characters any match consumes.
    pub open spec fn min_len(&self) -> nat {
        match self {
            Pattern::Pat(p) => p.min_len(),
            Pattern::Sub(sp) => sp.min_len(),
        }
    }

    /// Whether every match has bounded length.
    pub open spec fn finite(&self) -> bool {
        match self {
            Pattern::Pat(p) => p.finite(),
            Pattern::Sub(sp) => sp.finite(),
        }
    }

    /// The capture groups in document order: capture group `k` (from 1) is
    /// `captures()[k - 1]`.
    pub open spec fn captures(&self) -> Seq<Group> {
        match self {
            Pattern::Pat(p) => p.captures(),
            Pattern::Sub(sp) => sp.captures(),
        }
    }

    pub open spec fn wf(&self) -> bool {
        match self {
            Pattern::Pat(p) => p.wf(),
            Pattern::Sub(sp) => sp.wf(),
        }
    }

    pub fn as_string(&self) -> (r: String)
        ensures
            r@ == self.text(),
    {
        let mut s = String::new();
        match self {
            Pattern::Pat(p) => {
                if !p.flags.is_empty() {
                    push_char(&mut s, '(');
                    let f = p.flags.as_string();
                    push_str(&mut s, f.as_str());
                    push_char(&mut s, ')');
                }
                write_all(&p.sub_patterns, &mut s);
            },
            Pattern::Sub(sp) => sp.write_to(&mut s),
        }
        s
    }

    /// Least number of characters any match consumes, capped at `usize::MAX`.
    pub fn min_match_len(&self) -> (r: usize)
        ensures
            r == sat(self.min_len()),
    {
        match self {
            Pattern::Pat(p) => sum_min_match_len(&p.sub_patterns),
            Pattern::Sub(sp) => sp.min_match_len(),
        }
    }

    /// Whether every match has bounded length.
    pub fn is_finite(&self) -> (r: bool)
        ensures
            r == self.finite(),
    {
        match self {
            Pattern::Pat(p) => all_are_finite(&p.sub_patterns),
            Pattern::Sub(sp) => sp.is_finite(),
        }
    }

    pub(crate) fn find<'a>(&'a self, k: usize) -> (r: Result<&'a Group, usize>)
        ensures
            r is Ok <==> k < self.captures().len(),
            r matches Ok(g) ==> *g == self.captures()[k as int],
            r matches Err(m) ==> m == self.captures().len(),
    {
        match self {
            Pattern::Pat(p) => find_in(&p.sub_patterns, k),
            Pattern::Sub(sp) => sp.find(k),
        }
    }

    /// Number of capture groups, capped at `usize::MAX`.
    pub fn groups_count(&self) -> (r: usize)
        ensures
            r == sat(self.captures().len()),
    {
        match self.find(usize::MAX) {
            Ok(_) => usize::MAX,
            Err(m) => m,
        }
    }

    /// The flags declared for the whole pattern, if this is one.
    pub fn flags(&self) -> (r: Option<Flags>)
        ensures
            r matches Some(f) ==> self matches Pattern::Pat(p) && f == p.flags,
            r is None ==> self is Sub,
    {
        match self {
            Pattern::Pat(p) => Some(p.flags),
            Pattern::Sub(_) => None,
        }
    }

    /// Capture group `n`: 0 is the whole pattern, `k >= 1` the `k`-th capture
    /// group in document order; nothing past the last one.
    pub fn nth_group<'a>(&'a self, n: usize) -> (r: Option<GroupRef<'a>>)
        ensures
            n == 0 ==> (r matches Some(GroupRef::Whole(p)) && p == self),
            n > 0 ==> (r is Some <==> n <= self.captures().len()),
            n > 0 && n <= self.captures().len() ==> (r matches Some(GroupRef::Group(g)) && *g
                == self.captures()[n - 1]),
    {
        if n == 0 {
            return Some(GroupRef::Whole(self));
        }
        match self.find(n - 1) {
            Ok(g) => Some(GroupRef::Group(g)),
            Err(_) => None,
        }
    }

    /// A capture group with the given name, if there is one.
    pub fn group_by_name<'a>(&'a self, name: &str) -> (r: Option<&'a Group>)
        ensures
            r matches Some(g) ==> self.captures().contains(*g) && named(*g, name@),
            r is None ==> forall|j: int|
                0 <= j < self.captures().len() ==> !named(#[trigger] self.captures()[j], name@),
    {
        let nm = String::from_str(name);
        match self {
            Pattern::Pat(p) => find_named_in(&p.sub_patterns, &nm),
            Pattern::Sub(sp) => sp.find_named(&nm),
        }
    }
}


/// Whether two conditional-group identifiers are the same.
pub open spec fn same_id(a: TernaryGroupId, b: TernaryGroupId) -> bool {
    match (a, b) {
        (TernaryGroupId::Numbered(x), TernaryGroupId::Numbered(y)) => x == y,
        (TernaryGroupId::Named(x), TernaryGroupId::Named(y)) => x@ == y@,
        _ => false,
    }
}

/// Whether two optional names are the same.
pub open spec fn same_name(a: Option<String>, b: Option<String>) -> bool {
    match (a, b) {
        (None, None) => true,
        (Some(x), Some(y)) => x@ == y@,
        _ => false,
    }
}

/// Whether the first `n` sub-patterns of two lists are the same trees.
pub open spec fn same_list(a: Vec<SubPattern>, b: Vec<SubPattern>, n: int) -> bool
    decreases a, n,
{
    if n <= 0 || n > a.len() || n > b.len() {
        n == 0
    } else {
        same_list(a, b, n - 1) && same_sub(a[n - 1], b[n - 1])
    }
}

/// Whether two lists hold the same trees.
pub open spec fn same_seq(a: Vec<SubPattern>, b: Vec<SubPattern>) -> bool {
    a.len() == b.len() && same_list(a, b, a.len() as int)
}

/// Whether two groups are the same tree: equal in every part, with character
/// sets compared by their ranges and strings by their characters.
pub open spec fn same_group(a: Group, b: Group) -> bool
    decreases a,
{
    match (a, b) {
        (Group::NamedBackref { name: x }, Group::NamedBackref { name: y }) => x@ == y@,
        (
            Group::Ternary { group_id: ia, yes_pat: ya, no_pat: na },
            Group::Ternary { group_id: ib, yes_pat: yb, no_pat: nb },
        ) => same_id(ia, ib) && same_sub(*ya, *yb) && match (na, nb) {
            (None, None) => true,
            (Some(x), Some(y)) => same_sub(*x, *y),
            _ => false,
        },
        (
            Group::Group { ext: ea, flags: fa, name: na, components: ca },
            Group::Group { ext: eb, flags: fb, name: nb, components: cb },
        ) => ea == eb && fa.pos_spec().set() == fb.pos_spec().set() && fa.neg_spec().set()
            == fb.neg_spec().set() && same_name(na, nb) && ca.len() == cb.len() && same_list(
            ca,
            cb,
            ca.len() as int,
        ),
        _ => false,
    }
}

/// Whether two quantified items are the same tree.
pub open spec fn same_item(a: Quantifiable, b: Quantifiable) -> bool
    decreases a,
{
    match (a, b) {
        (Quantifiable::Element(Element::CharSet(x)), Quantifiable::Element(Element::CharSet(y))) => x.ranges()
            == y.ranges(),
        (Quantifiable::Element(Element::CharClass(x)), Quantifiable::Element(Element::CharClass(y))) => x == y,
        (Quantifiable::Element(Element::Literal(x)), Quantifiable::Element(Element::Literal(y))) => x.0@ == y.0@,
        (Quantifiable::Group(x), Quantifiable::Group(y)) => same_group(x, y),
        _ => false,
    }
}

/// Whether two sub-patterns are the same tree.
pub open spec fn same_sub(a: SubPattern, b: SubPattern) -> bool
    decreases a,
{
    match (a, b) {
        (SubPattern::Alternatives(x), SubPattern::Alternatives(y)) => x.0.len() == y.0.len() && same_list(
            x.0,
            y.0,
            x.0.len() as int,
        ),
        (SubPattern::Quantified(x), SubPattern::Quantified(y)) => x.quantifier == y.quantifier && same_item(
            x.quantifiable,
            y.quantifiable,
        ),
        (SubPattern::ZeroWidthLiteral(x), SubPattern::ZeroWidthLiteral(y)) => x == y,
        (SubPattern::Comment(x), SubPattern::Comment(y)) => x@ == y@,
        _ => false,
    }
}

/// Whether two whole patterns are the same tree.
pub open spec fn same_pat(a: Pat, b: Pat) -> bool {
    a.flags.set() == b.flags.set() && same_seq(a.sub_patterns, b.sub_patterns)
}


/// Whether two lists of groups are the same groups, place by place.
pub open spec fn same_groups(x: Seq<Group>, y: Seq<Group>) -> bool {
    x.len() == y.len() && forall|k: int| 0 <= k < x.len() ==> same_group(#[trigger] x[k], y[k])
}

proof fn lemma_same_groups_concat(x1: Seq<Group>, y1: Seq<Group>, x2: Seq<Group>, y2: Seq<Group>)
    requires
        same_groups(x1, y1),
        same_groups(x2, y2),
    ensures
        same_groups(x1 + x2, y1 + y2),
{
    assert forall|k: int| 0 <= k < (x1 + x2).len() implies same_group(#[trigger] (x1 + x2)[k], (y1 + y2)[k]) by {
        if k < x1.len() {
            assert((x1 + x2)[k] == x1[k] && (y1 + y2)[k] == y1[k]);
        } else {
            assert((x1 + x2)[k] == x2[k - x1.len()] && (y1 + y2)[k] == y2[k - x1.len()]);
        }
    }
}

/// Same lists of sub-patterns agree in every analysis.
pub proof fn lemma_same_list(a: Vec<SubPattern>, b: Vec<SubPattern>, n: int)
    requires
        same_list(a, b, n),
    ensures
        concat_text(a, n) == concat_text(b, n),
        alts_text(a, n) == alts_text(b, n),
        sum_min_len(a, n) == sum_min_len(b, n),
        least_min_len(a, n) == least_min_len(b, n),
        all_finite(a, n) == all_finite(b, n),
        same_groups(all_captures(a, n), all_captures(b, n)),
    decreases a, n,
{
    if n > 0 {
        lemma_same_list(a, b, n - 1);
        lemma_same_sub(a[n - 1], b[n - 1]);
        if n == 1 {
            lemma_same_sub(a[0], b[0]);
        }
        lemma_same_groups_concat(all_captures(a, n - 1), all_captures(b, n - 1), a[n - 1].captures(), b[n - 1].captures());
    } else {
        assert(same_groups(all_captures(a, n), all_captures(b, n)));
    }
}

/// Same groups agree in every analysis.
pub proof fn lemma_same_group(a: Group, b: Group)
    requires
        same_group(a, b),
    ensures
        a.text() == b.text(),
        a.min_len() == b.min_len(),
        a.finite() == b.finite(),
        same_groups(a.captures(), b.captures()),
    decreases a,
{
    match (a, b) {
        (Group::NamedBackref { .. }, Group::NamedBackref { .. }) => {
            assert(same_groups(a.captures(), b.captures()));
        },
        (
            Group::Ternary { group_id: ia, yes_pat: ya, no_pat: na },
            Group::Ternary { group_id: ib, yes_pat: yb, no_pat: nb },
        ) => {
            lemma_same_sub(*ya, *yb);
            match (na, nb) {
                (Some(x), Some(y)) => {
                    lemma_same_sub(*x, *y);
                    lemma_same_groups_concat(ya.captures(), yb.captures(), x.captures(), y.captures());
                },
                _ => {
                    assert(ya.captures() + Seq::<Group>::empty() =~= ya.captures());
                    assert(yb.captures() + Seq::<Group>::empty() =~= yb.captures());
                },
            }
        },
        (
            Group::Group { ext: ea, flags: fa, name: na, components: ca },
            Group::Group { ext: eb, flags: fb, name: nb, components: cb },
        ) => {
            lemma_same_list(ca, cb, ca.len() as int);
            lemma_same_flags_same_codes(fa.pos_spec(), fb.pos_spec(), 7);
            lemma_same_flags_same_codes(fa.neg_spec(), fb.neg_spec(), 7);
            if ea is None {
                assert(same_groups(seq![a], seq![b])) by {
                    assert(seq![a][0] == a);
                }
                lemma_same_groups_concat(
                    seq![a],
                    seq![b],
                    all_captures(ca, ca.len() as int),
                    all_captures(cb, cb.len() as int),
                );
            }
        },
        _ => {},
    }
}

/// Same items agree in every analysis.
pub proof fn lemma_same_item(a: Quantifiable, b: Quantifiable)
    requires
        same_item(a, b),
    ensures
        a.text() == b.text(),
        a.min_len() == b.min_len(),
        a.finite() == b.finite(),
        same_groups(a.captures(), b.captures()),
    decreases a,
{
    match (a, b) {
        (Quantifiable::Group(x), Quantifiable::Group(y)) => {
            lemma_same_group(x, y);
        },
        _ => {
            assert(same_groups(a.captures(), b.captures()));
        },
    }
}

/// Same sub-patterns agree in every analysis: text, minimum length,
/// finiteness and capture groups.
pub proof fn lemma_same_sub(a: SubPattern, b: SubPattern)
    requires
        same_sub(a, b),
    ensures
        a.text() == b.text(),
        a.min_len() == b.min_len(),
        a.finite() == b.finite(),
        same_groups(a.captures(), b.captures()),
    decreases a,
{
    match (a, b) {
        (SubPattern::Alternatives(x), SubPattern::Alternatives(y)) => {
            lemma_same_list(x.0, y.0, x.0.len() as int);
        },
        (SubPattern::Quantified(x), SubPattern::Quantified(y)) => {
            lemma_same_item(x.quantifiable, y.quantifiable);
        },
        _ => {
            assert(same_groups(a.captures(), b.captures()));
        },
    }
}

/// Same whole patterns agree in every analysis, so what a pattern rebuilt
/// from its own parse tree reports is what the pattern reports.
pub proof fn same_pattern_same_analysis(a: Pat, b: Pat)
    requires
        same_pat(a, b),
    ensures
        Pattern::Pat(a).text() == Pattern::Pat(b).text(),
        Pattern::Pat(a).min_len() == Pattern::Pat(b).min_len(),
        Pattern::Pat(a).finite() == Pattern::Pat(b).finite(),
        same_groups(Pattern::Pat(a).captures(), Pattern::Pat(b).captures()),
{
    lemma_same_list(a.sub_patterns, b.sub_patterns, a.sub_patterns.len() as int);
    lemma_same_flags_same_codes(a.flags, b.flags, 7);
}

} // verus!
