use vstd::prelude::*;
use crate::char_set::{CClass, CharSet, ranges_set, valid_ranges};
use crate::element::{Element, Literal};
use crate::error::ReggieError;
use crate::flags::{Flag, Flags, GroupFlags};
use crate::groups::GroupExt;
use crate::pattern::{Alternatives, Group, Pat, Pattern, Quantifiable, Quantified, SubPattern};
use crate::quantifiers::Quantifier;

verus! {

impl Pattern {
    /// What a pattern becomes inside a larger one: a sub-pattern stays as it
    /// is; a whole pattern becomes a group of its sub-patterns, non-capturing
    /// and carrying the pattern's flags when it has any.
    pub fn into_subpattern(self) -> (r: SubPattern)
        ensures
            self matches Pattern::Sub(sp) ==> r == sp,
            self matches Pattern::Pat(p) ==> (r matches SubPattern::Quantified(q) && (q.quantifier is None
                && (q.quantifiable matches Quantifiable::Group(Group::Group { name: None, components: c, ext: e, .. })
                && c == p.sub_patterns && (e is None <==> p.flags.set() == Set::<Flag>::empty())))),
    {
        match self {
            Pattern::Sub(sp) => sp,
            Pattern::Pat(p) => {
                if p.flags.is_empty() {
                    let g = Group::Group {
                        ext: None,
                        flags: GroupFlags::empty(),
                        name: None,
                        components: p.sub_patterns,
                    };
                    SubPattern::Quantified(Quantified { quantifiable: Quantifiable::Group(g), quantifier: None })
                } else {
                    let flags = match GroupFlags::new(p.flags, Flags::new()) {
                        Ok(f) => f,
                        Err(_) => GroupFlags::empty(),
                    };
                    let g = Group::Group {
                        ext: Some(GroupExt::NonCapturing),
                        flags,
                        name: None,
                        components: p.sub_patterns,
                    };
                    SubPattern::Quantified(Quantified { quantifiable: Quantifiable::Group(g), quantifier: None })
                }
            },
        }
    }

    /// A group of the given patterns, uncounted.
    pub fn new_group(
        components: Vec<Pattern>,
        flags: Option<GroupFlags>,
        name: Option<String>,
        ext: Option<GroupExt>,
    ) -> (r: Pattern)
        ensures
            r matches Pattern::Sub(SubPattern::Quantified(q)) && (q.quantifier is None
                && (q.quantifiable matches Quantifiable::Group(Group::Group { ext: e, name: n, components: c, .. })
                && (e == ext && n == name && c.len() == components.len() && forall|i: int|
                0 <= i < c.len() ==> (#[trigger] components@[i] matches Pattern::Sub(sp) ==> c@[i] == sp)))),
    {
        let subs = subs_of(components);
        let flags = match flags {
            Some(f) => f,
            None => GroupFlags::empty(),
        };
        Pattern::Sub(SubPattern::Quantified(Quantified {
            quantifiable: Quantifiable::Group(Group::Group { ext, flags, name, components: subs }),
            quantifier: None,
        }))
    }

    /// A bracket expression of the given ranges; fails as
    /// `CharSet::from_ranges` does.
    pub fn new_character_set(ranges: Vec<(char, char)>, quantifier: Option<Quantifier>) -> (r: Result<Pattern, ReggieError>)
        ensures
            r is Ok <==> valid_ranges(ranges@),
            r matches Ok(p) ==> (p matches Pattern::Sub(SubPattern::Quantified(q)) && (q.quantifier
                == quantifier && (q.quantifiable matches Quantifiable::Element(Element::CharSet(cs))
                && (cs.wf() && cs.chars() == ranges_set(ranges@))))),
            r matches Err(e) ==> e matches ReggieError::InvalidRanges { bad_ranges } && bad_ranges@
                == ranges@,
    {
        let cs = CharSet::from_ranges(ranges)?;
        Ok(Pattern::Sub(SubPattern::Quantified(Quantified {
            quantifiable: Quantifiable::Element(Element::CharSet(cs)),
            quantifier,
        })))
    }

    /// A predefined class, written as its escape.
    pub fn new_character_class(cc: CClass, quantifier: Option<Quantifier>) -> (r: Pattern)
        ensures
            r == Pattern::Sub(SubPattern::Quantified(Quantified {
                quantifiable: Quantifiable::Element(Element::CharClass(cc.to_char_class_spec())),
                quantifier,
            })),
    {
        Pattern::Sub(SubPattern::Quantified(Quantified {
            quantifiable: Quantifiable::Element(Element::CharClass(cc.to_char_class())),
            quantifier,
        }))
    }

    /// A literal run.
    pub fn new_literal(lit: String, quantifier: Option<Quantifier>) -> (r: Pattern)
        ensures
            r == Pattern::Sub(SubPattern::Quantified(Quantified {
                quantifiable: Quantifiable::Element(Element::Literal(Literal(lit))),
                quantifier,
            })),
    {
        Pattern::Sub(SubPattern::Quantified(Quantified {
            quantifiable: Quantifiable::Element(Element::Literal(Literal(lit))),
            quantifier,
        }))
    }

    /// The given patterns as alternatives, in order.
    pub fn new_alternatives(components: Vec<Pattern>) -> (r: Pattern)
        ensures
            r matches Pattern::Sub(SubPattern::Alternatives(a)) && (a.0.len() == components.len() && forall|i: int|
                0 <= i < a.0.len() ==> (#[trigger] components@[i] matches Pattern::Sub(sp) ==> a.0@[i] == sp)),
    {
        Pattern::Sub(SubPattern::Alternatives(Alternatives(subs_of(components))))
    }

    /// The pattern wrapped in a capturing group; a whole pattern with flags
    /// becomes a non-capturing group that carries them.
    pub fn into_group(self) -> (r: Pattern)
        ensures
            r matches Pattern::Sub(SubPattern::Quantified(q)) && (q.quantifier is None
                && q.quantifiable is Group),
            self matches Pattern::Sub(sp) ==> (r matches Pattern::Sub(SubPattern::Quantified(q))
                && (q.quantifiable matches Quantifiable::Group(Group::Group { ext: None, name: None, components: c, .. })
                && c@ == seq![sp])),
            self matches Pattern::Pat(p) ==> (r matches Pattern::Sub(SubPattern::Quantified(q))
                && (q.quantifiable matches Quantifiable::Group(Group::Group { name: None, components: c, .. })
                && c == p.sub_patterns)),
    {
        match self {
            Pattern::Sub(sp) => {
                let g = Group::Group {
                    ext: None,
                    flags: GroupFlags::empty(),
                    name: None,
                    components: vec![sp],
                };
                Pattern::Sub(SubPattern::Quantified(Quantified { quantifiable: Quantifiable::Group(g), quantifier: None }))
            },
            Pattern::Pat(p) => Pattern::Sub(Pattern::Pat(p).into_subpattern()),
        }
    }

    /// The pattern with the given quantifier; anything but a single item is
    /// grouped first.
    pub fn quantify(self, quantifier: Quantifier) -> (r: Pattern)
        ensures
            r matches Pattern::Sub(SubPattern::Quantified(q)) && q.quantifier == Some(quantifier),
            self matches Pattern::Sub(SubPattern::Quantified(q0)) ==> (r matches Pattern::Sub(SubPattern::Quantified(q))
                && q.quantifiable == q0.quantifiable),
            !(self matches Pattern::Sub(SubPattern::Quantified(_))) ==> (r matches Pattern::Sub(SubPattern::Quantified(q))
                && q.quantifiable is Group),
    {
        match self {
            Pattern::Sub(SubPattern::Quantified(q)) => Pattern::Sub(SubPattern::Quantified(Quantified {
                quantifiable: q.quantifiable,
                quantifier: Some(quantifier),
            })),
            other => match other.into_group() {
                Pattern::Sub(SubPattern::Quantified(q)) => Pattern::Sub(SubPattern::Quantified(Quantified {
                    quantifiable: q.quantifiable,
                    quantifier: Some(quantifier),
                })),
                g => g,
            },
        }
    }

    /// `self|other`.
    pub fn alternate_with(self, other: Pattern) -> (r: Pattern)
        ensures
            r matches Pattern::Sub(SubPattern::Alternatives(a)) && a.0.len() == 2,
            r matches Pattern::Sub(SubPattern::Alternatives(a)) ==> ((self matches Pattern::Sub(sp) ==> a.0@[0] == sp)
                && (other matches Pattern::Sub(sp) ==> a.0@[1] == sp)),
    {
        let l = self.into_subpattern();
        let r = other.into_subpattern();
        Pattern::Sub(SubPattern::Alternatives(Alternatives(vec![l, r])))
    }

    /// `self` then `other`, as one capturing group.
    pub fn follow_with(self, other: Pattern) -> (r: Pattern)
        ensures
            r matches Pattern::Sub(SubPattern::Quantified(q)) && (q.quantifier is None
                && (q.quantifiable matches Quantifiable::Group(Group::Group { ext: None, name: None, components: c, .. })
                && c.len() == 2)),
            r matches Pattern::Sub(SubPattern::Quantified(q)) ==> (q.quantifiable matches Quantifiable::Group(
                Group::Group { components: c, .. },
            ) ==> ((self matches Pattern::Sub(sp) ==> c@[0] == sp) && (other matches Pattern::Sub(sp) ==> c@[1]
                == sp))),
    {
        Pattern::new_group(vec![self, other], None, None, None)
    }

    /// The pattern under the given whole-pattern flags, which cannot turn
    /// flags off.
    pub fn with_flags(self, flags: GroupFlags) -> (r: Result<Pattern, ReggieError>)
        ensures
            r is Err <==> flags.neg_spec().set() != Set::<Flag>::empty(),
            r matches Err(e) ==> e is NegativePatternFlags,
            r matches Ok(p) ==> p matches Pattern::Pat(pat) && pat.flags == flags.pos_spec(),
            r matches Ok(Pattern::Pat(pat)) ==> (self matches Pattern::Pat(q) ==> pat.sub_patterns == q.sub_patterns),
            r matches Ok(Pattern::Pat(pat)) ==> (self matches Pattern::Sub(sp) ==> pat.sub_patterns@ == seq![sp]),
    {
        if !flags.neg().is_empty() {
            return Err(ReggieError::NegativePatternFlags);
        }
        let pos = flags.pos();
        match self {
            Pattern::Sub(sp) => Ok(Pattern::Pat(Pat { flags: pos, sub_patterns: vec![sp] })),
            Pattern::Pat(p) => Ok(Pattern::Pat(Pat { flags: pos, sub_patterns: p.sub_patterns })),
        }
    }

    /// The pattern with one more whole-pattern flag.
    pub fn with_flag(self, flag: Flag) -> (r: Pattern)
        ensures
            r matches Pattern::Pat(p) && p.flags.set() == match self {
                Pattern::Pat(q) => q.flags.set(),
                Pattern::Sub(_) => Set::<Flag>::empty(),
            }.insert(flag),
    {
        match self {
            Pattern::Sub(sp) => Pattern::Pat(Pat { flags: Flags::new_single(flag), sub_patterns: vec![sp] }),
            Pattern::Pat(p) => {
                let mut flags = p.flags;
                flags.add(flag);
                Pattern::Pat(Pat { flags, sub_patterns: p.sub_patterns })
            },
        }
    }

    /// The pattern without a whole-pattern flag; a sub-pattern has none.
    pub fn without_flag(self, flag: Flag) -> (r: Pattern)
        ensures
            self is Sub ==> r == self,
            self matches Pattern::Pat(q) ==> (r matches Pattern::Pat(p) && p.flags.set() == q.flags.set().remove(flag)),
    {
        match self {
            Pattern::Sub(sp) => Pattern::Sub(sp),
            Pattern::Pat(p) => {
                let mut flags = p.flags;
                flags.remove(&flag);
                Pattern::Pat(Pat { flags, sub_patterns: p.sub_patterns })
            },
        }
    }

    /// The top-level parts: the sub-patterns of a whole pattern, or the
    /// sub-pattern itself.
    pub fn components(self) -> (r: Vec<Pattern>)
        ensures
            self is Sub ==> r@ == seq![self],
            self matches Pattern::Pat(p) ==> r@.len() == p.sub_patterns.len() && forall|i: int|
                0 <= i < r@.len() ==> r@[i] == Pattern::Sub(#[trigger] p.sub_patterns@[i]),
    {
        match self {
            Pattern::Sub(sp) => vec![Pattern::Sub(sp)],
            Pattern::Pat(p) => {
                let ghost orig = p.sub_patterns@;
                let mut src = p.sub_patterns;
                let mut out: Vec<Pattern> = Vec::new();
                while src.len() > 0
                    invariant
                        out@.len() + src@.len() == orig.len(),
                        src@ == orig.subrange(out@.len() as int, orig.len() as int),
                        forall|i: int| 0 <= i < out@.len() ==> out@[i] == Pattern::Sub(#[trigger] orig[i]),
                    decreases src.len(),
                {
                    let sp = src.remove(0);
                    out.push(Pattern::Sub(sp));
                }
                out
            },
        }
    }
}

impl SubPattern {
    /// The sub-pattern inside a plain capturing group.
    pub fn as_group(self) -> (r: SubPattern)
        ensures
            r matches SubPattern::Quantified(q) && (q.quantifier is None && (q.quantifiable matches Quantifiable::Group(
                Group::Group { ext: None, name: None, components: c, .. },
            ) && c@ == seq![self])),
    {
        SubPattern::Quantified(Quantified {
            quantifiable: Quantifiable::Group(Group::Group {
                ext: None,
                flags: GroupFlags::empty(),
                name: None,
                components: vec![self],
            }),
            quantifier: None,
        })
    }
}

/// Each pattern as a sub-pattern, in order.
fn subs_of(components: Vec<Pattern>) -> (r: Vec<SubPattern>)
    ensures
        r@.len() == components@.len(),
        forall|i: int|
            0 <= i < r@.len() ==> (#[trigger] components@[i] matches Pattern::Sub(sp) ==> r@[i] == sp),
{
    let ghost orig = components@;
    let mut src = components;
    let mut out: Vec<SubPattern> = Vec::new();
    while src.len() > 0
        invariant
            out@.len() + src@.len() == orig.len(),
            src@ == orig.subrange(out@.len() as int, orig.len() as int),
            forall|i: int| 0 <= i < out@.len() ==> (#[trigger] orig[i] matches Pattern::Sub(sp) ==> out@[i] == sp),
        decreases src.len(),
    {
        let p = src.remove(0);
        out.push(p.into_subpattern());
    }
    out
}

} // verus!
