use vstd::prelude::*;
use crate::char_set::{CharClass, CharSet};
use crate::text::{push_char, push_str};
use vstd::string::*;

verus! {

/// A run of literal characters.
#[derive(Debug)]
pub struct Literal(pub String);

impl Literal {
    pub open spec fn text(&self) -> Seq<char> {
        self.0@
    }

    pub fn as_string(&self) -> (r: String)
        ensures
            r@ == self.text(),
    {
        String::from_str(self.0.as_str())
    }

    /// One character per character of the run.
    pub fn min_match_len(&self) -> (r: usize)
        ensures
            r == self.0@.len(),
    {
        self.0.as_str().unicode_len()
    }
}

/// A zero-width assertion.
#[derive(Clone, Copy, Debug, PartialEq, Eq, Structural)]
pub enum ZeroWidthLiteral {
    InputStart,
    InputEnd,
    WordBoundary,
    NotWordBoundary,
}

impl ZeroWidthLiteral {
    pub open spec fn text(self) -> Seq<char> {
        match self {
            ZeroWidthLiteral::InputStart => seq!['\\', 'a'],
            ZeroWidthLiteral::InputEnd => seq!['\\', 'z'],
            ZeroWidthLiteral::NotWordBoundary => seq!['\\', 'B'],
            ZeroWidthLiteral::WordBoundary => seq!['\\', 'b'],
        }
    }

    pub fn as_string(&self) -> (r: String)
        ensures
            r@ == self.text(),
    {
        let mut s = String::new();
        push_char(&mut s, '\\');
        match self {
            ZeroWidthLiteral::InputStart => push_char(&mut s, 'a'),
            ZeroWidthLiteral::InputEnd => push_char(&mut s, 'z'),
            ZeroWidthLiteral::NotWordBoundary => push_char(&mut s, 'B'),
            ZeroWidthLiteral::WordBoundary => push_char(&mut s, 'b'),
        }
        s
    }
}

/// The assertion that an escape such as `\A` names.
pub open spec fn zwl_of(s: Seq<char>) -> Option<ZeroWidthLiteral> {
    if s.len() != 2 || s[0] != '\\' {
        None
    } else if s[1] == 'A' || s[1] == 'a' {
        Some(ZeroWidthLiteral::InputStart)
    } else if s[1] == 'Z' || s[1] == 'z' {
        Some(ZeroWidthLiteral::InputEnd)
    } else if s[1] == 'b' {
        Some(ZeroWidthLiteral::WordBoundary)
    } else if s[1] == 'B' {
        Some(ZeroWidthLiteral::NotWordBoundary)
    } else {
        None
    }
}

/// Reads `\A \a \Z \z \b \B`.
pub fn zwl_from_str(s: &str) -> (r: Option<ZeroWidthLiteral>)
    ensures
        r == zwl_of(s@),
{
    let n = s.unicode_len();
    if n != 2 || s.get_char(0) != '\\' {
        return None;
    }
    match s.get_char(1) {
        'A' | 'a' => Some(ZeroWidthLiteral::InputStart),
        'Z' | 'z' => Some(ZeroWidthLiteral::InputEnd),
        'b' => Some(ZeroWidthLiteral::WordBoundary),
        'B' => Some(ZeroWidthLiteral::NotWordBoundary),
        _ => None,
    }
}

/// An item that a quantifier can follow: a bracket expression, a predefined
/// class written as its escape, or a literal run.
#[derive(Debug)]
pub enum Element {
    CharSet(CharSet),
    CharClass(CharClass),
    Literal(Literal),
}

impl Element {
    pub open spec fn text(&self) -> Seq<char> {
        match self {
            Element::CharSet(cs) => cs.text(),
            Element::CharClass(cc) => cc.text(),
            Element::Literal(l) => l.text(),
        }
    }

    pub open spec fn min_len(&self) -> nat {
        match self {
            Element::CharSet(_) => 1,
            Element::CharClass(_) => 1,
            Element::Literal(l) => l.0@.len(),
        }
    }

    pub open spec fn wf(&self) -> bool {
        match self {
            Element::CharSet(cs) => cs.wf(),
            Element::CharClass(_) => true,
            Element::Literal(_) => true,
        }
    }

    /// A literal run with the given text.
    pub fn new_literal(lit: String) -> (r: Element)
        ensures
            r == Element::Literal(Literal(lit)),
    {
        Element::Literal(Literal(lit))
    }

    pub fn as_string(&self) -> (r: String)
        ensures
            r@ == self.text(),
    {
        match self {
            Element::CharSet(cs) => cs.as_string(),
            Element::CharClass(cc) => cc.as_string(),
            Element::Literal(l) => l.as_string(),
        }
    }

    pub fn min_match_len(&self) -> (r: usize)
        ensures
            r == self.min_len(),
    {
        match self {
            Element::CharSet(cs) => cs.min_match_len(),
            Element::CharClass(_) => 1,
            Element::Literal(l) => l.min_match_len(),
        }
    }

    /// A single class or literal run always has a bounded length.
    pub fn is_finite(&self) -> (r: bool)
        ensures
            r,
    {
        true
    }

    pub fn write_to(&self, s: &mut String)
        ensures
            final(s)@ == old(s)@ + self.text(),
    {
        let t = self.as_string();
        push_str(s, t.as_str());
    }
}

} // verus!
