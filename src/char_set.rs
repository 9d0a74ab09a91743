use vstd::prelude::*;
use disjoint_ranges::{DisjointRange, UnaryRange};
use crate::error::ReggieError;
use crate::text::push_char;
use vstd::string::*;

verus! {

#[verifier::external_type_specification]
#[verifier::external_body]
#[verifier::reject_recursive_types(T)]
pub struct ExDisjointRange<T>(DisjointRange<T>);

/// The inclusive `(low, high)` spans that a `DisjointRange` holds, in order.
pub uninterp spec fn range_bounds(d: DisjointRange<u32>) -> Seq<(u32, u32)>;

// ---- Spans of integers: what the interval algebra stores.

pub open spec fn in_span(r: (u32, u32), v: int) -> bool {
    r.0 <= v <= r.1
}

pub open spec fn in_spans(rs: Seq<(u32, u32)>, v: int) -> bool {
    exists|i: int| 0 <= i < rs.len() && in_span(#[trigger] rs[i], v)
}

/// The integers a list of spans covers.
pub open spec fn spans_set(rs: Seq<(u32, u32)>) -> Set<int> {
    Set::new(|v: int| in_spans(rs, v))
}

pub open spec fn span_set(low: u32, high: u32) -> Set<int> {
    Set::new(|v: int| low <= v <= high)
}

/// Every `u32` not in `s`.
pub open spec fn dom_complement(s: Set<int>) -> Set<int> {
    Set::new(|v: int| 0 <= v <= u32::MAX && !s.contains(v))
}

pub open spec fn valid_spans(rs: Seq<(u32, u32)>) -> bool {
    forall|i: int| 0 <= i < rs.len() ==> (#[trigger] rs[i]).0 <= rs[i].1
}

/// Sorted ascending, each span non-empty, no two spans overlapping or touching.
pub open spec fn canonical(rs: Seq<(u32, u32)>) -> bool {
    &&& valid_spans(rs)
    &&& forall|i: int, j: int| 0 <= i < j < rs.len() ==> (#[trigger] rs[i]).1 + 1 < (#[trigger] rs[j]).0
}

/// Lists on which the interval algebra's complement loses the one value
/// between the last two spans: the last span runs to `u32::MAX` and exactly
/// one value separates it from the one before.
pub open spec fn complement_trap(rs: Seq<(u32, u32)>) -> bool {
    &&& rs.len() >= 2
    &&& rs.last().1 == u32::MAX
    &&& rs.last().0 == rs[rs.len() - 2].1 + 2
}

/// Relies on `DisjointRange::empty`: no spans.
#[verifier::external_body]
fn dr_empty() -> (r: DisjointRange<u32>)
    ensures
        range_bounds(r) == Seq::<(u32, u32)>::empty(),
{
    DisjointRange::empty()
}

/// Relies on `DisjointRange::entire`: the one span from `u32::MIN` to `u32::MAX`.
#[verifier::external_body]
fn dr_entire() -> (r: DisjointRange<u32>)
    ensures
        range_bounds(r) == seq![(0u32, u32::MAX)],
{
    DisjointRange::entire()
}

/// Relies on the derived `Clone` of `DisjointRange`: the same spans.
#[verifier::external_body]
fn dr_clone(d: &DisjointRange<u32>) -> (r: DisjointRange<u32>)
    ensures
        range_bounds(r) == range_bounds(*d),
{
    d.clone()
}

/// Relies on `DisjointRange::ranges_iter` and `UnaryRange::as_bounds`: the
/// spans in their stored order.
#[verifier::external_body]
fn dr_bounds(d: &DisjointRange<u32>) -> (r: Vec<(u32, u32)>)
    ensures
        r@ == range_bounds(*d),
{
    d.ranges_iter().map(|u| u.as_bounds()).collect()
}

/// Relies on `DisjointRange::from_bounds`: `None` when some pair has
/// `low > high`, else the pairs as given, in the given order.
#[verifier::external_body]
fn dr_from_bounds(v: Vec<(u32, u32)>) -> (r: Option<DisjointRange<u32>>)
    ensures
        r is Some <==> valid_spans(v@),
        r matches Some(d) ==> range_bounds(d) == v@,
{
    DisjointRange::from_bounds(v)
}

/// Relies on `DisjointRange::add_unary_range`: it inserts the span before the
/// first one with a greater low bound, then merges neighbours that overlap or
/// touch (`u32` steps saturate, so nothing panics).
#[verifier::external_body]
fn dr_add_range(d: &mut DisjointRange<u32>, low: u32, high: u32)
    requires
        canonical(range_bounds(*old(d))),
        low <= high,
    ensures
        canonical(range_bounds(*final(d))),
        spans_set(range_bounds(*final(d))) == spans_set(range_bounds(*old(d))).union(span_set(low, high)),
{
    d.add_unary_range(UnaryRange::new_unchecked(low, high))
}

/// Relies on `DisjointRange::add_disjoint_range`: it appends the other spans,
/// sorts by low bound, then merges neighbours that overlap or touch.
#[verifier::external_body]
fn dr_add_disjoint(d: &mut DisjointRange<u32>, other: DisjointRange<u32>)
    requires
        valid_spans(range_bounds(*old(d))),
        valid_spans(range_bounds(other)),
    ensures
        canonical(range_bounds(*final(d))),
        spans_set(range_bounds(*final(d))) == spans_set(range_bounds(*old(d))).union(
            spans_set(range_bounds(other)),
        ),
{
    d.add_disjoint_range(other)
}

/// Relies on `DisjointRange::complement`: on a non-empty canonical list outside
/// the trap above, the spans of the `u32` values not covered. (It returns no
/// spans for an empty list, and in the trap it loses one value; the
/// `requires` keeps both out, and `complement_of` handles them.)
#[verifier::external_body]
fn dr_complement(d: DisjointRange<u32>) -> (r: DisjointRange<u32>)
    requires
        canonical(range_bounds(d)),
        range_bounds(d).len() > 0,
        !complement_trap(range_bounds(d)),
    ensures
        canonical(range_bounds(r)),
        spans_set(range_bounds(r)) == dom_complement(spans_set(range_bounds(d))),
{
    d.complement()
}

/// Relies on std's `char::from_u32`: `Some` exactly for Unicode scalar values.
#[verifier::external_body]
fn char_from_u32(v: u32) -> (r: Option<char>)
    ensures
        r is Some <==> (v < 0xD800 || (0xE000 <= v && v <= 0x10FFFF)),
        r matches Some(c) ==> c as u32 == v,
{
    char::from_u32(v)
}

fn is_complement_trap(rs: &Vec<(u32, u32)>) -> (r: bool)
    ensures
        r == complement_trap(rs@),
{
    let n = rs.len();
    n >= 2 && rs[n - 1].1 == u32::MAX && (rs[n - 1].0 as u64) == (rs[n - 2].1 as u64) + 2
}

/// Once every value from `g` up is covered, the last span starts at or below `g`.
proof fn lemma_last_low_at_most(rs: Seq<(u32, u32)>, g: int)
    requires
        canonical(rs),
        rs.len() > 0,
        0 <= g <= u32::MAX,
        forall|v: int| g <= v <= u32::MAX ==> #[trigger] in_spans(rs, v),
    ensures
        rs.last().0 <= g,
        rs.last().1 == u32::MAX,
{
    let last = rs.len() - 1;
    assert(in_spans(rs, u32::MAX as int));
    let k = choose|k: int| 0 <= k < rs.len() && in_span(#[trigger] rs[k], u32::MAX as int);
    if k < last {
        assert(rs[k].1 + 1 < rs[last].0);
    }
    assert(in_spans(rs, g));
    let j = choose|j: int| 0 <= j < rs.len() && in_span(#[trigger] rs[j], g);
    if rs[last].0 > g {
        assert(j < last);
        assert(rs[j].1 + 1 < rs[last].0);
        let v = rs[j].1 + 1;
        assert(in_spans(rs, v));
        let m = choose|m: int| 0 <= m < rs.len() && in_span(#[trigger] rs[m], v);
        if m < j {
            assert(rs[m].1 + 1 < rs[j].0);
        } else if m > j {
            assert(rs[j].1 + 1 < rs[m].0);
        }
    }
}

/// The complement, over all `u32` values, of a canonical list. The empty
/// list gives every value. While the list is in the trap, the one value below
/// its last span is moved into it and set aside; the values set aside are
/// added back to the complement at the end.
fn complement_of(d: &DisjointRange<u32>) -> (r: DisjointRange<u32>)
    requires
        canonical(range_bounds(*d)),
    ensures
        canonical(range_bounds(r)),
        spans_set(range_bounds(r)) == dom_complement(spans_set(range_bounds(*d))),
{
    let rs0 = dr_bounds(d);
    if rs0.len() == 0 {
        let r = dr_entire();
        proof {
            assert forall|v: int| #[trigger] spans_set(range_bounds(r)).contains(v)
                == dom_complement(spans_set(range_bounds(*d))).contains(v) by {
                assert(in_span(range_bounds(r)[0], v) == (0 <= v <= u32::MAX));
            }
            assert(spans_set(range_bounds(r)) =~= dom_complement(spans_set(range_bounds(*d))));
        }
        return r;
    }
    let ghost s0 = spans_set(range_bounds(*d));
    let mut t = dr_clone(d);
    let mut added = dr_empty();
    let mut rs = rs0;
    assert(spans_set(range_bounds(added)) =~= Set::<int>::empty());
    assert(spans_set(range_bounds(t)) =~= s0.union(spans_set(range_bounds(added))));
    while is_complement_trap(&rs)
        invariant
            canonical(range_bounds(t)),
            canonical(range_bounds(added)),
            rs@ == range_bounds(t),
            rs@.len() > 0,
            spans_set(range_bounds(t)) == s0.union(spans_set(range_bounds(added))),
            spans_set(range_bounds(added)).disjoint(s0),
            forall|v: int| #[trigger] spans_set(range_bounds(added)).contains(v) ==> 0 <= v <= u32::MAX,
        decreases rs@.last().0,
    {
        let n = rs.len();
        let ghost old_rs = rs@;
        let ghost old_added = spans_set(range_bounds(added));
        let g = rs[n - 2].1 + 1;
        proof {
            assert(!in_spans(old_rs, g as int)) by {
                if in_spans(old_rs, g as int) {
                    let m = choose|m: int| 0 <= m < old_rs.len() && in_span(#[trigger] old_rs[m], g as int);
                    if m < n - 2 {
                        assert(old_rs[m].1 + 1 < old_rs[n - 2].0);
                    }
                }
            }
        }
        dr_add_range(&mut t, g, g);
        dr_add_range(&mut added, g, g);
        rs = dr_bounds(&t);
        proof {
            assert(spans_set(range_bounds(t)) =~= s0.union(spans_set(range_bounds(added))));
            assert forall|v: int| g <= v <= u32::MAX implies #[trigger] in_spans(rs@, v) by {
                if v == g {
                    assert(span_set(g, g).contains(v));
                } else {
                    assert(in_span(old_rs[n - 1], v));
                    assert(spans_set(old_rs).contains(v));
                }
                assert(spans_set(rs@).contains(v));
            }
            assert(in_spans(rs@, g as int));
            let w = choose|w: int| 0 <= w < rs@.len() && in_span(#[trigger] rs@[w], g as int);
            lemma_last_low_at_most(rs@, g as int);
            assert forall|v: int| #[trigger] spans_set(range_bounds(added)).contains(v) implies !s0.contains(v)
                && 0 <= v <= u32::MAX by {
                if !old_added.contains(v) {
                    assert(span_set(g, g).contains(v));
                    assert(!spans_set(old_rs).contains(g as int));
                }
            }
        }
    }
    let mut c = dr_complement(t);
    dr_add_disjoint(&mut c, added);
    proof {
        assert(spans_set(range_bounds(c)) =~= dom_complement(s0));
    }
    c
}

/// Dropping the first span keeps a list canonical and removes exactly the
/// first span's values.
proof fn lemma_tail_spans(rs: Seq<(u32, u32)>)
    requires
        canonical(rs),
        rs.len() > 0,
    ensures
        canonical(rs.drop_first()),
        forall|v: int| #[trigger] in_spans(rs.drop_first(), v) == (in_spans(rs, v) && !in_span(rs[0], v)),
{
    let t = rs.drop_first();
    assert forall|i: int, j: int| 0 <= i < j < t.len() implies (#[trigger] t[i]).1 + 1 < (#[trigger] t[j]).0 by {
        assert(t[i] == rs[i + 1] && t[j] == rs[j + 1]);
    }
    assert forall|i: int| 0 <= i < t.len() implies (#[trigger] t[i]).0 <= t[i].1 by {
        assert(t[i] == rs[i + 1]);
    }
    assert forall|v: int| #[trigger] in_spans(t, v) == (in_spans(rs, v) && !in_span(rs[0], v)) by {
        if in_spans(t, v) {
            let i = choose|i: int| 0 <= i < t.len() && in_span(#[trigger] t[i], v);
            assert(rs[i + 1] == t[i]);
            assert(rs[0].1 + 1 < rs[i + 1].0);
            assert(in_span(rs[i + 1], v));
        }
        if in_spans(rs, v) && !in_span(rs[0], v) {
            let m = choose|m: int| 0 <= m < rs.len() && in_span(#[trigger] rs[m], v);
            assert(m > 0);
            assert(t[m - 1] == rs[m]);
            assert(in_span(t[m - 1], v));
        }
    }
}

/// Two canonical span lists covering the same values are the same list.
pub proof fn lemma_spans_unique(r1: Seq<(u32, u32)>, r2: Seq<(u32, u32)>)
    requires
        canonical(r1),
        canonical(r2),
        forall|v: int| #[trigger] in_spans(r1, v) == in_spans(r2, v),
    ensures
        r1 == r2,
    decreases r1.len(),
{
    if r1.len() == 0 || r2.len() == 0 {
        if r2.len() > 0 {
            let v = r2[0].0 as int;
            assert(in_span(r2[0], v));
            assert(in_spans(r2, v));
            assert(in_spans(r1, v));
            let i = choose|i: int| 0 <= i < r1.len() && in_span(#[trigger] r1[i], v);
            assert(false);
        }
        if r1.len() > 0 {
            let v = r1[0].0 as int;
            assert(in_span(r1[0], v));
            assert(in_spans(r1, v));
            assert(in_spans(r2, v));
            let i = choose|i: int| 0 <= i < r2.len() && in_span(#[trigger] r2[i], v);
            assert(false);
        }
        assert(r1 =~= r2);
    } else {
        let a1 = r1[0].0 as int;
        let b1 = r1[0].1 as int;
        let a2 = r2[0].0 as int;
        let b2 = r2[0].1 as int;
        assert(in_span(r1[0], a1));
        assert(in_spans(r1, a1));
        assert(in_spans(r2, a1));
        let m2 = choose|m: int| 0 <= m < r2.len() && in_span(#[trigger] r2[m], a1);
        if m2 > 0 {
            assert(r2[0].1 + 1 < r2[m2].0);
        }
        assert(in_span(r2[0], a2));
        assert(in_spans(r2, a2));
        assert(in_spans(r1, a2));
        let m1 = choose|m: int| 0 <= m < r1.len() && in_span(#[trigger] r1[m], a2);
        if m1 > 0 {
            assert(r1[0].1 + 1 < r1[m1].0);
        }
        assert(a1 == a2);
        if b1 < b2 {
            let v = b1 + 1;
            assert(in_span(r2[0], v));
            assert(in_spans(r2, v));
            assert(in_spans(r1, v));
            let m = choose|m: int| 0 <= m < r1.len() && in_span(#[trigger] r1[m], v);
            if m > 0 {
                assert(r1[0].1 + 1 < r1[m].0);
            }
        }
        if b2 < b1 {
            let v = b2 + 1;
            assert(in_span(r1[0], v));
            assert(in_spans(r1, v));
            assert(in_spans(r2, v));
            let m = choose|m: int| 0 <= m < r2.len() && in_span(#[trigger] r2[m], v);
            if m > 0 {
                assert(r2[0].1 + 1 < r2[m].0);
            }
        }
        assert(r1[0] == r2[0]);
        lemma_tail_spans(r1);
        lemma_tail_spans(r2);
        let t1 = r1.drop_first();
        let t2 = r2.drop_first();
        assert forall|v: int| #[trigger] in_spans(t1, v) == in_spans(t2, v) by {
            assert(in_spans(r1, v) == in_spans(r2, v));
        }
        lemma_spans_unique(t1, t2);
        assert(r1 =~= r2) by {
            assert forall|i: int| 0 <= i < r1.len() implies r1[i] == r2[i] by {
                if i > 0 {
                    assert(r1[i] == t1[i - 1]);
                    assert(r2[i] == t2[i - 1]);
                }
            }
        }
    }
}

// ---- Characters, numbered without the surrogate gap.

/// Code point of a character.
pub open spec fn cp(c: char) -> int {
    (c as u32) as int
}

/// The highest character index: `char::MAX` once the surrogate gap is closed.
pub open spec fn max_index() -> int {
    0x10F7FF
}

/// A character's position among all characters, counting from `'\0'` and
/// skipping the surrogate gap, so that U+D7FF and U+E000 are neighbours.
pub open spec fn idx(c: char) -> int {
    if cp(c) < 0xD800 {
        cp(c)
    } else {
        cp(c) - 0x800
    }
}

/// The character at an index.
pub open spec fn chr(i: int) -> char {
    (if i < 0xD800 {
        i
    } else {
        i + 0x800
    }) as u32 as char
}

pub proof fn lemma_char_bounds(c: char)
    ensures
        0 <= cp(c) < 0xD800 || (0xE000 <= cp(c) <= 0x10FFFF),
        0 <= idx(c) <= max_index(),
{
}

proof fn lemma_idx_chr(i: int)
    requires
        0 <= i <= max_index(),
    ensures
        idx(chr(i)) == i,
{
    let v = (if i < 0xD800 { i } else { i + 0x800 }) as u32;
    assert((v as char) as u32 == v);
}

proof fn lemma_char_injective(a: char, b: char)
    requires
        cp(a) == cp(b),
    ensures
        a == b,
{
}

/// Indices keep the order of code points.
pub proof fn lemma_idx_order(a: char, b: char)
    ensures
        (cp(a) <= cp(b)) == (idx(a) <= idx(b)),
        (idx(a) == idx(b)) ==> a == b,
{
    lemma_char_bounds(a);
    lemma_char_bounds(b);
    if idx(a) == idx(b) {
        lemma_char_injective(a, b);
    }
}

fn index_of(c: char) -> (i: u32)
    ensures
        i == idx(c),
{
    proof {
        lemma_char_bounds(c);
    }
    let v = c as u32;
    if v < 0xD800 {
        v
    } else {
        v - 0x800
    }
}

fn char_at(i: u32) -> (c: char)
    requires
        i <= max_index(),
    ensures
        c == chr(i as int),
        idx(c) == i,
{
    let v = if i < 0xD800 {
        i
    } else {
        i + 0x800
    };
    proof {
        lemma_idx_chr(i as int);
    }
    match char_from_u32(v) {
        Some(c) => {
            proof {
                assert((v as char) as u32 == v);
                lemma_char_injective(c, v as char);
            }
            c
        },
        None => {
            proof {
                assert(false);
            }
            '\0'
        },
    }
}

// ---- Character ranges, as callers write and read them.

pub open spec fn in_range(r: (char, char), c: char) -> bool {
    cp(r.0) <= cp(c) <= cp(r.1)
}

pub open spec fn in_ranges(rs: Seq<(char, char)>, c: char) -> bool {
    exists|i: int| 0 <= i < rs.len() && in_range(#[trigger] rs[i], c)
}

/// The characters that a list of ranges covers.
pub open spec fn ranges_set(rs: Seq<(char, char)>) -> Set<char> {
    Set::new(|c: char| in_ranges(rs, c))
}

pub open spec fn range_set(low: char, high: char) -> Set<char> {
    Set::new(|c: char| in_range((low, high), c))
}

pub open spec fn valid_ranges(rs: Seq<(char, char)>) -> bool {
    forall|i: int| 0 <= i < rs.len() ==> cp((#[trigger] rs[i]).0) <= cp(rs[i].1)
}

/// Sorted ascending, each range non-empty, and no two ranges overlapping or
/// touching, where the character after U+D7FF is U+E000.
pub open spec fn wf_ranges(rs: Seq<(char, char)>) -> bool {
    &&& valid_ranges(rs)
    &&& forall|i: int, j: int|
        0 <= i < j < rs.len() ==> idx((#[trigger] rs[i]).1) + 1 < idx((#[trigger] rs[j]).0)
}

/// Text of a list of ranges as a bracket expression prints it: `low-high` for
/// each range.
pub open spec fn ranges_text(rs: Seq<(char, char)>) -> Seq<char>
    decreases rs.len(),
{
    if rs.len() == 0 {
        Seq::empty()
    } else {
        ranges_text(rs.drop_last()) + seq![rs.last().0, '-', rs.last().1]
    }
}

pub open spec fn digit_set() -> Set<char> {
    Set::new(|c: char| 48 <= cp(c) <= 57)
}

pub open spec fn whitespace_set() -> Set<char> {
    Set::new(|c: char| (9 <= cp(c) <= 13) || cp(c) == 32)
}

pub open spec fn word_set() -> Set<char> {
    Set::new(|c: char| (97 <= cp(c) <= 122) || (65 <= cp(c) <= 90) || (48 <= cp(c) <= 57))
}

/// The span of indices past the last character, which every stored set
/// holds so that complements stay within the characters.
pub open spec fn past_end(v: int) -> bool {
    max_index() < v <= u32::MAX
}

/// The character range of a stored span.
pub open spec fn span_chars(r: (u32, u32)) -> (char, char) {
    (chr(r.0 as int), chr(if r.1 > max_index() { max_index() } else { r.1 as int }))
}

/// The character ranges of stored spans: each span that starts at a
/// character, cut at the last character.
pub open spec fn char_ranges_of(rs: Seq<(u32, u32)>) -> Seq<(char, char)>
    decreases rs.len(),
{
    if rs.len() == 0 {
        Seq::empty()
    } else if rs.last().0 > max_index() {
        char_ranges_of(rs.drop_last())
    } else {
        char_ranges_of(rs.drop_last()).push(span_chars(rs.last()))
    }
}

/// Spans that all start at characters give one range each.
proof fn lemma_char_ranges_all(rs: Seq<(u32, u32)>)
    requires
        forall|i: int| 0 <= i < rs.len() ==> (#[trigger] rs[i]).0 <= max_index(),
    ensures
        char_ranges_of(rs) == Seq::new(rs.len(), |i: int| span_chars(rs[i])),
    decreases rs.len(),
{
    if rs.len() > 0 {
        let p = rs.drop_last();
        assert forall|i: int| 0 <= i < p.len() implies (#[trigger] p[i]).0 <= max_index() by {
            assert(p[i] == rs[i]);
        }
        lemma_char_ranges_all(p);
        assert(char_ranges_of(rs) =~= Seq::new(rs.len(), |i: int| span_chars(rs[i])));
    } else {
        assert(char_ranges_of(rs) =~= Seq::new(rs.len(), |i: int| span_chars(rs[i])));
    }
}

/// A character class: a set of characters kept as a minimal sorted list of
/// inclusive ranges. The interval algebra stores character indices (see
/// `idx`) and always holds the indices past the last character as well.
#[derive(Debug)]
pub struct CharSet {
    pub char_ranges: DisjointRange<u32>,
}

impl CharSet {
    /// The stored spans.
    pub open spec fn spans(&self) -> Seq<(u32, u32)> {
        range_bounds(self.char_ranges)
    }

    pub open spec fn wf(&self) -> bool {
        &&& canonical(self.spans())
        &&& self.spans().len() > 0
        &&& self.spans().last().1 == u32::MAX
        &&& self.spans().last().0 <= max_index() + 1
    }

    /// The characters in the set.
    pub open spec fn chars(&self) -> Set<char> {
        Set::new(|c: char| in_spans(self.spans(), idx(c)))
    }

    /// The ranges of the set, in ascending order.
    pub open spec fn ranges(&self) -> Seq<(char, char)> {
        char_ranges_of(self.spans())
    }

    pub open spec fn text(&self) -> Seq<char> {
        seq!['['] + ranges_text(self.ranges()) + seq![']']
    }

    /// A canonical list whose values from `max_index() + 1` up are all there
    /// is the stored list of a well-formed set.
    proof fn lemma_wf_from_spans(rs: Seq<(u32, u32)>)
        requires
            canonical(rs),
            forall|v: int| #[trigger] past_end(v) ==> in_spans(rs, v),
        ensures
            rs.len() > 0,
            rs.last().1 == u32::MAX,
            rs.last().0 <= max_index() + 1,
    {
        assert(past_end(u32::MAX as int));
        assert forall|v: int| max_index() + 1 <= v <= u32::MAX implies #[trigger] in_spans(rs, v) by {
            assert(past_end(v));
        }
        lemma_last_low_at_most(rs, max_index() + 1);
    }

    /// A well-formed set holds every index past the last character.
    proof fn lemma_past_end(&self)
        requires
            self.wf(),
        ensures
            forall|v: int| #[trigger] past_end(v) ==> in_spans(self.spans(), v),
    {
        assert forall|v: int| #[trigger] past_end(v) implies in_spans(self.spans(), v) by {
            assert(in_span(self.spans()[self.spans().len() - 1], v));
        }
    }

    /// The ranges of a well-formed set are well formed and cover exactly its
    /// characters.
    pub proof fn lemma_ranges(&self)
        requires
            self.wf(),
        ensures
            wf_ranges(self.ranges()),
            ranges_set(self.ranges()) == self.chars(),
    {
        let rs = self.spans();
        let n = rs.len();
        let out = self.ranges();
        let p = rs.drop_last();
        assert forall|i: int| 0 <= i < p.len() implies (#[trigger] p[i]).0 <= max_index() by {
            assert(rs[i].1 + 1 < rs[n - 1].0);
            assert(p[i] == rs[i]);
        }
        lemma_char_ranges_all(p);
        assert(out.len() <= n);
        assert(out.len() >= n - 1);
        assert forall|i: int| 0 <= i < out.len() implies out[i] == span_chars(rs[i]) by {
            if i < n - 1 {
                assert(p[i] == rs[i]);
            }
        }
        assert(rs.last().0 <= max_index() ==> out.len() == n);
        assert forall|i: int| 0 <= i < out.len() implies out[i] == span_chars(rs[i]) && rs[i].0 <= max_index()
            && (i < n - 1 ==> rs[i].1 < max_index()) by {
            if i < n - 1 {
                assert(rs[i].1 + 1 < rs[n - 1].0);
            }
        }
        assert forall|i: int| 0 <= i < out.len() implies idx((#[trigger] out[i]).0) == rs[i].0 && idx(out[i].1)
            == (if rs[i].1 > max_index() { max_index() } else { rs[i].1 as int }) by {
            lemma_idx_chr(rs[i].0 as int);
            lemma_idx_chr(if rs[i].1 > max_index() { max_index() } else { rs[i].1 as int });
        }
        assert forall|i: int| 0 <= i < out.len() implies cp((#[trigger] out[i]).0) <= cp(out[i].1) by {
            lemma_idx_order(out[i].0, out[i].1);
        }
        assert forall|i: int, j: int| 0 <= i < j < out.len() implies idx((#[trigger] out[i]).1) + 1 < idx(
            (#[trigger] out[j]).0,
        ) by {
            assert(rs[i].1 + 1 < rs[j].0);
        }
        assert forall|c: char| #[trigger] ranges_set(out).contains(c) == self.chars().contains(c) by {
            lemma_char_bounds(c);
            if in_ranges(out, c) {
                let i = choose|i: int| 0 <= i < out.len() && in_range(#[trigger] out[i], c);
                lemma_idx_order(out[i].0, c);
                lemma_idx_order(c, out[i].1);
                assert(in_span(rs[i], idx(c)));
            }
            if in_spans(rs, idx(c)) {
                let i = choose|i: int| 0 <= i < rs.len() && in_span(#[trigger] rs[i], idx(c));
                assert(i < out.len());
                lemma_idx_order(out[i].0, c);
                lemma_idx_order(c, out[i].1);
                assert(in_range(out[i], c));
            }
        }
        assert(ranges_set(out) =~= self.chars());
    }

    /// Two well-formed sets with the same characters have the same ranges.
    pub proof fn lemma_same_chars_same_ranges(a: CharSet, b: CharSet)
        requires
            a.wf(),
            b.wf(),
            a.chars() == b.chars(),
        ensures
            a.spans() == b.spans(),
            a.ranges() == b.ranges(),
    {
        a.lemma_past_end();
        b.lemma_past_end();
        assert forall|v: int| #[trigger] in_spans(a.spans(), v) == in_spans(b.spans(), v) by {
            if 0 <= v <= max_index() {
                lemma_idx_chr(v);
                assert(a.chars().contains(chr(v)) == b.chars().contains(chr(v)));
                assert(a.chars().contains(chr(v)) == in_spans(a.spans(), v));
                assert(b.chars().contains(chr(v)) == in_spans(b.spans(), v));
            } else if past_end(v) {
                assert(in_spans(a.spans(), v));
                assert(in_spans(b.spans(), v));
            } else {
                if in_spans(a.spans(), v) {
                    let i = choose|i: int| 0 <= i < a.spans().len() && in_span(#[trigger] a.spans()[i], v);
                }
                if in_spans(b.spans(), v) {
                    let i = choose|i: int| 0 <= i < b.spans().len() && in_span(#[trigger] b.spans()[i], v);
                }
            }
        }
        lemma_spans_unique(a.spans(), b.spans());
    }

    /// The set with no characters.
    pub fn empty() -> (r: CharSet)
        ensures
            r.wf(),
            r.chars() == Set::<char>::empty(),
            r.ranges() == Seq::<(char, char)>::empty(),
    {
        let mut d = dr_empty();
        dr_add_range(&mut d, 0x10F800, u32::MAX);
        let r = CharSet { char_ranges: d };
        proof {
            assert(spans_set(Seq::<(u32, u32)>::empty()) =~= Set::<int>::empty());
            assert forall|v: int| #[trigger] past_end(v) implies in_spans(r.spans(), v) by {
                assert(spans_set(r.spans()).contains(v));
            }
            CharSet::lemma_wf_from_spans(r.spans());
            assert forall|c: char| !r.chars().contains(c) by {
                lemma_char_bounds(c);
                assert(!spans_set(r.spans()).contains(idx(c)));
            }
            assert(r.chars() =~= Set::<char>::empty());
            r.lemma_ranges();
            if r.ranges().len() > 0 {
                let c = r.ranges()[0].0;
                assert(in_range(r.ranges()[0], c));
                assert(in_ranges(r.ranges(), c));
                assert(ranges_set(r.ranges()).contains(c));
            }
            assert(r.ranges() =~= Seq::<(char, char)>::empty());
        }
        r
    }

    /// Adds the characters from `low` to `high`, merging with the ranges the
    /// new one overlaps or touches.
    pub fn add_range(&mut self, low: char, high: char) -> (r: Result<(), ReggieError>)
        requires
            old(self).wf(),
        ensures
            final(self).wf(),
            r is Ok <==> cp(low) <= cp(high),
            r is Ok ==> final(self).chars() == old(self).chars().union(range_set(low, high)),
            r is Err ==> final(self).spans() == old(self).spans(),
            r matches Err(e) ==> e matches ReggieError::InvalidRanges { bad_ranges }
                && bad_ranges@ == seq![(low, high)],
    {
        if (low as u32) > (high as u32) {
            return Err(ReggieError::InvalidRanges { bad_ranges: vec![(low, high)] });
        }
        let ghost before = self.spans();
        proof {
            self.lemma_past_end();
            lemma_idx_order(low, high);
        }
        let lo = index_of(low);
        let hi = index_of(high);
        dr_add_range(&mut self.char_ranges, lo, hi);
        proof {
            assert forall|v: int| #[trigger] past_end(v) implies in_spans(self.spans(), v) by {
                assert(spans_set(before).contains(v));
                assert(spans_set(self.spans()).contains(v));
            }
            CharSet::lemma_wf_from_spans(self.spans());
            assert forall|c: char| #[trigger] self.chars().contains(c) == old(self).chars().union(range_set(low, high)).contains(c) by {
                lemma_idx_order(low, c);
                lemma_idx_order(c, high);
                assert(spans_set(self.spans()).contains(idx(c)) == (spans_set(before).contains(idx(c))
                    || span_set(lo, hi).contains(idx(c))));
            }
            assert(self.chars() =~= old(self).chars().union(range_set(low, high)));
        }
        Ok(())
    }

    /// Adds every character of `other`.
    pub fn add_disjoint_range(&mut self, other: &CharSet)
        requires
            old(self).wf(),
            other.wf(),
        ensures
            final(self).wf(),
            final(self).chars() == old(self).chars().union(other.chars()),
    {
        let ghost before = self.spans();
        let o = dr_clone(&other.char_ranges);
        proof {
            self.lemma_past_end();
        }
        dr_add_disjoint(&mut self.char_ranges, o);
        proof {
            assert forall|v: int| #[trigger] past_end(v) implies in_spans(self.spans(), v) by {
                assert(spans_set(before).contains(v));
                assert(spans_set(self.spans()).contains(v));
            }
            CharSet::lemma_wf_from_spans(self.spans());
            assert forall|c: char| #[trigger] self.chars().contains(c) == old(self).chars().union(other.chars()).contains(c) by {
                assert(spans_set(self.spans()).contains(idx(c)) == (spans_set(before).contains(idx(c))
                    || spans_set(other.spans()).contains(idx(c))));
            }
            assert(self.chars() =~= old(self).chars().union(other.chars()));
        }
    }

    /// Every character not in the set.
    pub fn complement(&self) -> (r: CharSet)
        requires
            self.wf(),
        ensures
            r.wf(),
            r.chars() == self.chars().complement(),
    {
        let mut d = complement_of(&self.char_ranges);
        dr_add_range(&mut d, 0x10F800, u32::MAX);
        let r = CharSet { char_ranges: d };
        proof {
            assert forall|v: int| #[trigger] past_end(v) implies in_spans(r.spans(), v) by {
                assert(spans_set(r.spans()).contains(v));
            }
            CharSet::lemma_wf_from_spans(r.spans());
            assert forall|c: char| #[trigger] r.chars().contains(c) == self.chars().complement().contains(c) by {
                lemma_char_bounds(c);
                assert(spans_set(r.spans()).contains(idx(c)) == (dom_complement(spans_set(self.spans())).contains(
                    idx(c),
                ) || span_set(0x10F800, u32::MAX).contains(idx(c))));
                assert(spans_set(self.spans()).contains(idx(c)) == in_spans(self.spans(), idx(c)));
            }
            assert(r.chars() =~= self.chars().complement());
        }
        r
    }

    /// The ranges in ascending order.
    pub fn ranges_iter(&self) -> (r: Vec<(char, char)>)
        ensures
            r@ == self.ranges(),
    {
        let rs = dr_bounds(&self.char_ranges);
        let mut r: Vec<(char, char)> = Vec::new();
        let mut i: usize = 0;
        while i < rs.len()
            invariant
                i <= rs@.len(),
                rs@ == self.spans(),
                r@ == char_ranges_of(rs@.subrange(0, i as int)),
            decreases rs.len() - i,
        {
            let (lo, hi) = rs[i];
            proof {
                assert(rs@.subrange(0, i + 1).drop_last() == rs@.subrange(0, i as int));
            }
            if lo <= 0x10F7FF {
                let top = if hi > 0x10F7FF {
                    0x10F7FF
                } else {
                    hi
                };
                r.push((char_at(lo), char_at(top)));
            }
            i += 1;
        }
        assert(rs@.subrange(0, rs@.len() as int) == rs@);
        r
    }

    /// The set of the given `(low, high)` pairs; fails with the pairs when one
    /// has `low > high`.
    pub fn from_ranges(ranges: Vec<(char, char)>) -> (r: Result<CharSet, ReggieError>)
        ensures
            r is Ok <==> valid_ranges(ranges@),
            r matches Ok(c) ==> c.wf() && c.chars() == ranges_set(ranges@),
            r matches Err(e) ==> e matches ReggieError::InvalidRanges { bad_ranges }
                && bad_ranges@ == ranges@,
    {
        let mut spans: Vec<(u32, u32)> = Vec::new();
        let mut i: usize = 0;
        while i < ranges.len()
            invariant
                i <= ranges@.len(),
                spans@.len() == i,
                forall|k: int| 0 <= k < i ==> #[trigger] spans@[k] == (idx(ranges@[k].0) as u32, idx(ranges@[k].1) as u32),
                forall|k: int| 0 <= k < i ==> idx(#[trigger] ranges@[k].0) == spans@[k].0 && idx(ranges@[k].1) == spans@[k].1,
            decreases ranges.len() - i,
        {
            let (lo, hi) = ranges[i];
            spans.push((index_of(lo), index_of(hi)));
            i += 1;
        }
        proof {
            assert(valid_spans(spans@) == valid_ranges(ranges@)) by {
                assert forall|k: int| 0 <= k < ranges@.len() implies ((#[trigger] spans@[k]).0 <= spans@[k].1) == (
                cp(ranges@[k].0) <= cp(ranges@[k].1)) by {
                    lemma_idx_order(ranges@[k].0, ranges@[k].1);
                }
            }
        }
        match dr_from_bounds(spans) {
            None => Err(ReggieError::InvalidRanges { bad_ranges: ranges }),
            Some(d) => {
                let mut c = CharSet::empty();
                let ghost before = c.spans();
                let ghost before_set = c.chars();
                proof {
                    c.lemma_past_end();
                }
                dr_add_disjoint(&mut c.char_ranges, d);
                proof {
                    assert forall|v: int| #[trigger] past_end(v) implies in_spans(c.spans(), v) by {
                        assert(spans_set(before).contains(v));
                        assert(spans_set(c.spans()).contains(v));
                    }
                    CharSet::lemma_wf_from_spans(c.spans());
                    assert forall|ch: char| #[trigger] c.chars().contains(ch) == ranges_set(ranges@).contains(ch) by {
                        lemma_char_bounds(ch);
                        assert(spans_set(c.spans()).contains(idx(ch)) == (spans_set(before).contains(idx(ch))
                            || spans_set(range_bounds(d)).contains(idx(ch))));
                        assert(!before_set.contains(ch));
                        assert(before_set.contains(ch) == in_spans(before, idx(ch)));
                        if in_spans(range_bounds(d), idx(ch)) {
                            let k = choose|k: int| 0 <= k < spans@.len() && in_span(#[trigger] spans@[k], idx(ch));
                            lemma_idx_order(ranges@[k].0, ch);
                            lemma_idx_order(ch, ranges@[k].1);
                            assert(in_range(ranges@[k], ch));
                        }
                        if in_ranges(ranges@, ch) {
                            let k = choose|k: int| 0 <= k < ranges@.len() && in_range(#[trigger] ranges@[k], ch);
                            lemma_idx_order(ranges@[k].0, ch);
                            lemma_idx_order(ch, ranges@[k].1);
                            assert(in_span(spans@[k], idx(ch)));
                        }
                    }
                    assert(c.chars() =~= ranges_set(ranges@));
                }
                Ok(c)
            },
        }
    }

    /// The set of a predefined class.
    pub fn from_cclass(cclass: CClass) -> (r: CharSet)
        ensures
            r.wf(),
            r.chars() == cclass.to_char_class_spec().chars(),
    {
        cclass.to_char_class().to_range()
    }

    /// The set as a bracket expression, one `low-high` per range.
    pub fn as_string(&self) -> (r: String)
        ensures
            r@ == self.text(),
    {
        let rs = self.ranges_iter();
        let mut s = String::new();
        push_char(&mut s, '[');
        let mut i: usize = 0;
        while i < rs.len()
            invariant
                i <= rs@.len(),
                s@ == seq!['['] + ranges_text(rs@.subrange(0, i as int)),
            decreases rs.len() - i,
        {
            let (low, high) = rs[i];
            push_char(&mut s, low);
            push_char(&mut s, '-');
            push_char(&mut s, high);
            proof {
                assert(rs@.subrange(0, i + 1).drop_last() == rs@.subrange(0, i as int));
            }
            i += 1;
        }
        push_char(&mut s, ']');
        assert(rs@.subrange(0, rs@.len() as int) == rs@);
        s
    }

    /// A class matches exactly one character.
    pub fn min_match_len(&self) -> (r: usize)
        ensures
            r == 1,
    {
        1
    }
}

/// Complementing twice gives back the same ranges, not just the same
/// characters.
pub proof fn complement_involution(s: CharSet, once: CharSet, twice: CharSet)
    requires
        s.wf(),
        once.wf(),
        once.chars() == s.chars().complement(),
        twice.wf(),
        twice.chars() == once.chars().complement(),
    ensures
        twice.chars() == s.chars(),
        twice.ranges() == s.ranges(),
{
    assert(twice.chars() =~= s.chars());
    CharSet::lemma_same_chars_same_ranges(twice, s);
}

/// The escapes for predefined classes: `\d \s \w` and their negations.
#[derive(Clone, Copy, Debug, PartialEq, Eq, Structural)]
pub enum CClass {
    D,
    S,
    W,
    NegD,
    NegS,
    NegW,
}

/// The class that an escape letter names.
pub open spec fn cclass_of(c: char) -> Option<CClass> {
    if c == 'd' {
        Some(CClass::D)
    } else if c == 'D' {
        Some(CClass::NegD)
    } else if c == 's' {
        Some(CClass::S)
    } else if c == 'S' {
        Some(CClass::NegS)
    } else if c == 'w' {
        Some(CClass::W)
    } else if c == 'W' {
        Some(CClass::NegW)
    } else {
        None
    }
}

/// What `CClass::from_str` reports as the bad class: the text after the
/// backslash, or the whole text when there is none.
pub open spec fn cclass_rest(s: Seq<char>) -> Seq<char> {
    if s.len() > 0 && s[0] == '\\' {
        s.subrange(1, s.len() as int)
    } else {
        s
    }
}

pub open spec fn cclass_parses(s: Seq<char>) -> bool {
    s.len() == 2 && s[0] == '\\' && cclass_of(s[1]) is Some
}

impl CClass {
    /// Reads an escape such as `\d`.
    pub fn from_str(s: &str) -> (r: Result<CClass, ReggieError>)
        ensures
            r is Ok <==> cclass_parses(s@),
            r matches Ok(c) ==> Some(c) == cclass_of(s@[1]),
            r matches Err(e) ==> e matches ReggieError::InvalidCharClass { bad_cclass }
                && bad_cclass@ == cclass_rest(s@),
    {
        let n = s.unicode_len();
        if n == 0 || s.get_char(0) != '\\' {
            return Err(ReggieError::InvalidCharClass { bad_cclass: String::from_str(s) });
        }
        let rest = s.substring_char(1, n);
        if n == 2 {
            let c = s.get_char(1);
            match c {
                'd' => return Ok(CClass::D),
                'D' => return Ok(CClass::NegD),
                's' => return Ok(CClass::S),
                'S' => return Ok(CClass::NegS),
                'w' => return Ok(CClass::W),
                'W' => return Ok(CClass::NegW),
                _ => {},
            }
        }
        Err(ReggieError::InvalidCharClass { bad_cclass: String::from_str(rest) })
    }

    pub open spec fn to_char_class_spec(self) -> CharClass {
        match self {
            CClass::D => CharClass { class: CC::D, negated: false },
            CClass::NegD => CharClass { class: CC::D, negated: true },
            CClass::S => CharClass { class: CC::S, negated: false },
            CClass::NegS => CharClass { class: CC::S, negated: true },
            CClass::W => CharClass { class: CC::W, negated: false },
            CClass::NegW => CharClass { class: CC::W, negated: true },
        }
    }

    pub fn to_char_class(self) -> (r: CharClass)
        ensures
            r == self.to_char_class_spec(),
    {
        match self {
            CClass::D => CharClass { class: CC::D, negated: false },
            CClass::NegD => CharClass { class: CC::D, negated: true },
            CClass::S => CharClass { class: CC::S, negated: false },
            CClass::NegS => CharClass { class: CC::S, negated: true },
            CClass::W => CharClass { class: CC::W, negated: false },
            CClass::NegW => CharClass { class: CC::W, negated: true },
        }
    }
}

#[derive(Clone, Copy, Debug, PartialEq, Eq, Structural)]
pub enum CC {
    D,
    S,
    W,
}

/// A predefined class, possibly negated.
#[derive(Clone, Copy, Debug, PartialEq, Eq, Structural)]
pub struct CharClass {
    pub class: CC,
    pub negated: bool,
}

impl CharClass {
    /// The escape that names this class.
    pub open spec fn class_kind(self) -> CClass {
        match (self.class, self.negated) {
            (CC::D, false) => CClass::D,
            (CC::D, true) => CClass::NegD,
            (CC::S, false) => CClass::S,
            (CC::S, true) => CClass::NegS,
            (CC::W, false) => CClass::W,
            (CC::W, true) => CClass::NegW,
        }
    }

    pub open spec fn base_chars(self) -> Set<char> {
        match self.class {
            CC::D => digit_set(),
            CC::S => whitespace_set(),
            CC::W => word_set(),
        }
    }

    pub open spec fn chars(self) -> Set<char> {
        if self.negated {
            self.base_chars().complement()
        } else {
            self.base_chars()
        }
    }

    /// The class as its escape: `\\d \\s \\w`, upper case when negated.
    pub open spec fn text(self) -> Seq<char> {
        seq!['\\', self.letter()]
    }

    pub open spec fn letter(self) -> char {
        match (self.class, self.negated) {
            (CC::D, false) => 'd',
            (CC::D, true) => 'D',
            (CC::S, false) => 's',
            (CC::S, true) => 'S',
            (CC::W, false) => 'w',
            (CC::W, true) => 'W',
        }
    }

    pub fn as_string(&self) -> (r: String)
        ensures
            r@ == self.text(),
    {
        let mut s = String::new();
        push_char(&mut s, '\\');
        let c = match (self.class, self.negated) {
            (CC::D, false) => 'd',
            (CC::D, true) => 'D',
            (CC::S, false) => 's',
            (CC::S, true) => 'S',
            (CC::W, false) => 'w',
            (CC::W, true) => 'W',
        };
        push_char(&mut s, c);
        s
    }

    /// The class as a set: digits `0-9`; whitespace `\t` to `\r` and space;
    /// word `a-z`, `A-Z`, `0-9`; complemented when negated.
    pub fn to_range(&self) -> (r: CharSet)
        ensures
            r.wf(),
            r.chars() == self.chars(),
    {
        let mut d = CharSet::empty();
        let _ = match self.class {
            CC::D => d.add_range('0', '9'),
            CC::S => {
                let _ = d.add_range('\t', '\r');
                d.add_range(' ', ' ')
            },
            CC::W => {
                let _ = d.add_range('a', 'z');
                let _ = d.add_range('A', 'Z');
                d.add_range('0', '9')
            },
        };
        proof {
            match self.class {
                CC::D => {
                    assert(d.chars() =~= digit_set());
                },
                CC::S => {
                    assert(d.chars() =~= whitespace_set());
                },
                CC::W => {
                    assert(d.chars() =~= word_set());
                },
            }
        }
        if self.negated {
            d.complement()
        } else {
            d
        }
    }
}

} // verus!
