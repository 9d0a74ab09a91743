use vstd::prelude::*;
use crate::text::{decimal, decimal_string, parse_usize, parses_as_usize, parsed_usize, push_char};
use vstd::string::*;

verus! {

/// The kind of an extension group.
#[derive(Clone, Copy, Debug, PartialEq, Eq, Structural)]
pub enum GroupExt {
    NonCapturing,
    Atomic,
    PosLookahead,
    NegLookahead,
    PosLookbehind,
    NegLookbehind,
}

impl GroupExt {
    /// The marker after the opening parenthesis.
    pub open spec fn text(self) -> Seq<char> {
        match self {
            GroupExt::NonCapturing => seq!['?', ':'],
            GroupExt::Atomic => seq!['?', '>'],
            GroupExt::PosLookahead => seq!['?', '='],
            GroupExt::NegLookahead => seq!['?', '!'],
            GroupExt::PosLookbehind => seq!['?', '<', '='],
            GroupExt::NegLookbehind => seq!['?', '<', '!'],
        }
    }

    pub fn as_string(&self) -> (r: String)
        ensures
            r@ == self.text(),
    {
        let mut s = String::new();
        push_char(&mut s, '?');
        match self {
            GroupExt::NonCapturing => push_char(&mut s, ':'),
            GroupExt::Atomic => push_char(&mut s, '>'),
            GroupExt::PosLookahead => push_char(&mut s, '='),
            GroupExt::NegLookahead => push_char(&mut s, '!'),
            GroupExt::PosLookbehind => {
                push_char(&mut s, '<');
                push_char(&mut s, '=');
            },
            GroupExt::NegLookbehind => {
                push_char(&mut s, '<');
                push_char(&mut s, '!');
            },
        }
        s
    }
}

/// The group that a conditional group tests: by number or by name.
#[derive(Debug)]
pub enum TernaryGroupId {
    Numbered(usize),
    Named(String),
}

impl TernaryGroupId {
    pub open spec fn text(&self) -> Seq<char> {
        match self {
            TernaryGroupId::Numbered(n) => decimal(*n as nat),
            TernaryGroupId::Named(s) => s@,
        }
    }

    pub fn as_string(&self) -> (r: String)
        ensures
            r@ == self.text(),
    {
        match self {
            TernaryGroupId::Numbered(n) => decimal_string(*n),
            TernaryGroupId::Named(s) => String::from_str(s.as_str()),
        }
    }
}

/// A reference to a capture group, by number or by name.
#[derive(Debug)]
pub enum GroupIndex {
    Numbered(usize),
    Named(String),
}

impl GroupIndex {
    /// A number when the text reads as an unsigned integer, else a name.
    pub fn from_text(s: &str) -> (r: GroupIndex)
        ensures
            parses_as_usize(s@) ==> r == GroupIndex::Numbered(parsed_usize(s@) as usize),
            !parses_as_usize(s@) ==> (r matches GroupIndex::Named(n) && n@ == s@),
    {
        match parse_usize(s) {
            Some(n) => GroupIndex::Numbered(n),
            None => GroupIndex::Named(String::from_str(s)),
        }
    }
}

} // verus!
