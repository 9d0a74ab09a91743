use vstd::prelude::*;
use crate::element::Element;
use crate::pattern::{Group, Pattern, Quantified, SubPattern, sat};

verus! {

/// What every node of a syntax tree can report about itself.
pub trait AsComponent {
    /// The node's pattern source text.
    spec fn text_of(&self) -> Seq<char>;

    /// Least number of characters any match of the node consumes.
    spec fn min_len_of(&self) -> nat;

    /// Whether every match of the node has bounded length.
    spec fn finite_of(&self) -> bool;

    /// The node as pattern source text.
    fn as_string(&self) -> (r: String)
        ensures
            r@ == self.text_of(),
    ;

    /// Least number of characters any match consumes, capped at `usize::MAX`.
    fn min_match_len(&self) -> (r: usize)
        ensures
            r == sat(self.min_len_of()),
    ;

    /// Whether every match has bounded length.
    fn is_finite(&self) -> (r: bool)
        ensures
            r == self.finite_of(),
    ;
}

impl AsComponent for Element {
    open spec fn text_of(&self) -> Seq<char> {
        self.text()
    }

    open spec fn min_len_of(&self) -> nat {
        self.min_len()
    }

    open spec fn finite_of(&self) -> bool {
        true
    }

    fn as_string(&self) -> String {
        Element::as_string(self)
    }

    fn min_match_len(&self) -> usize {
        Element::min_match_len(self)
    }

    fn is_finite(&self) -> bool {
        Element::is_finite(self)
    }
}

impl AsComponent for Group {
    open spec fn text_of(&self) -> Seq<char> {
        self.text()
    }

    open spec fn min_len_of(&self) -> nat {
        self.min_len()
    }

    open spec fn finite_of(&self) -> bool {
        self.finite()
    }

    fn as_string(&self) -> String {
        Group::as_string(self)
    }

    fn min_match_len(&self) -> usize {
        Group::min_match_len(self)
    }

    fn is_finite(&self) -> bool {
        Group::is_finite(self)
    }
}

impl AsComponent for Quantified {
    open spec fn text_of(&self) -> Seq<char> {
        self.text()
    }

    open spec fn min_len_of(&self) -> nat {
        self.min_len()
    }

    open spec fn finite_of(&self) -> bool {
        self.finite()
    }

    fn as_string(&self) -> String {
        Quantified::as_string(self)
    }

    fn min_match_len(&self) -> usize {
        Quantified::min_match_len(self)
    }

    fn is_finite(&self) -> bool {
        Quantified::is_finite(self)
    }
}

impl AsComponent for SubPattern {
    open spec fn text_of(&self) -> Seq<char> {
        self.text()
    }

    open spec fn min_len_of(&self) -> nat {
        self.min_len()
    }

    open spec fn finite_of(&self) -> bool {
        self.finite()
    }

    fn as_string(&self) -> String {
        SubPattern::as_string(self)
    }

    fn min_match_len(&self) -> usize {
        SubPattern::min_match_len(self)
    }

    fn is_finite(&self) -> bool {
        SubPattern::is_finite(self)
    }
}

impl AsComponent for Pattern {
    open spec fn text_of(&self) -> Seq<char> {
        self.text()
    }

    open spec fn min_len_of(&self) -> nat {
        self.min_len()
    }

    open spec fn finite_of(&self) -> bool {
        self.finite()
    }

    fn as_string(&self) -> String {
        Pattern::as_string(self)
    }

    fn min_match_len(&self) -> usize {
        Pattern::min_match_len(self)
    }

    fn is_finite(&self) -> bool {
        Pattern::is_finite(self)
    }
}

} // verus!
