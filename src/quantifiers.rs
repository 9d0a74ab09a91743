use vstd::prelude::*;
use crate::text::{decimal, decimal_string, push_char, push_str};

verus! {

/// How many times a quantified item repeats.
#[derive(Copy, Clone, Debug, PartialEq, Eq, Structural)]
pub enum Q {
    ZeroOrOne,
    ZeroOrMore,
    OneOrMore,
    NExact(usize),
    NTimes { min: Option<usize>, max: Option<usize> },
}

/// How eagerly a quantified item repeats.
#[derive(Copy, Clone, Debug, PartialEq, Eq, Structural)]
pub enum G {
    Greedy,
    NonGreedy,
    Possessive,
}

/// A repetition count together with a greediness mode.
#[derive(Copy, Clone, Debug, PartialEq, Eq, Structural)]
pub struct Quantifier {
    pub quantifier: Q,
    pub greed: G,
}

impl Q {
    /// A brace form needs at least one bound.
    pub open spec fn wf(self) -> bool {
        !(self matches Q::NTimes { min: None, max: None })
    }

    pub open spec fn text(self) -> Seq<char> {
        match self {
            Q::ZeroOrOne => seq!['?'],
            Q::ZeroOrMore => seq!['*'],
            Q::OneOrMore => seq!['+'],
            Q::NExact(n) => seq!['{'] + decimal(n as nat) + seq!['}'],
            Q::NTimes { min: Some(lo), max: None } => seq!['{'] + decimal(lo as nat) + seq![',', '}'],
            Q::NTimes { min: None, max: Some(hi) } => seq!['{', ','] + decimal(hi as nat) + seq!['}'],
            Q::NTimes { min: Some(lo), max: Some(hi) } => seq!['{'] + decimal(lo as nat) + seq![',']
                + decimal(hi as nat) + seq!['}'],
            Q::NTimes { min: None, max: None } => seq!['{', ',', '}'],
        }
    }

    pub open spec fn finite(self) -> bool {
        match self {
            Q::ZeroOrOne | Q::NExact(_) => true,
            Q::NTimes { max: Some(_), .. } => true,
            _ => false,
        }
    }

    pub open spec fn min_count(self) -> nat {
        match self {
            Q::ZeroOrOne | Q::ZeroOrMore => 0,
            Q::OneOrMore => 1,
            Q::NExact(n) => n as nat,
            Q::NTimes { min: Some(lo), .. } => lo as nat,
            Q::NTimes { min: None, .. } => 0,
        }
    }
}

impl G {
    pub open spec fn suffix(self) -> Seq<char> {
        match self {
            G::Greedy => seq![],
            G::NonGreedy => seq!['?'],
            G::Possessive => seq!['+'],
        }
    }
}

impl Quantifier {
    pub open spec fn wf(self) -> bool {
        self.quantifier.wf()
    }

    /// The quantifier as it is written in a pattern.
    pub open spec fn text(self) -> Seq<char> {
        self.quantifier.text() + self.greed.suffix()
    }

    /// A greedy quantifier of the given count.
    pub fn new(quantifier: Q) -> (r: Self)
        ensures
            r == (Quantifier { quantifier, greed: G::Greedy }),
    {
        Quantifier { quantifier, greed: G::Greedy }
    }

    pub fn as_string(&self) -> (r: String)
        ensures
            r@ == self.text(),
    {
        let mut s = String::new();
        match self.quantifier {
            Q::ZeroOrOne => push_char(&mut s, '?'),
            Q::ZeroOrMore => push_char(&mut s, '*'),
            Q::OneOrMore => push_char(&mut s, '+'),
            Q::NExact(n) => {
                push_char(&mut s, '{');
                let d = decimal_string(n);
                push_str(&mut s, d.as_str());
                push_char(&mut s, '}');
            },
            Q::NTimes { min, max } => {
                push_char(&mut s, '{');
                if let Some(lo) = min {
                    let d = decimal_string(lo);
                    push_str(&mut s, d.as_str());
                }
                push_char(&mut s, ',');
                if let Some(hi) = max {
                    let d = decimal_string(hi);
                    push_str(&mut s, d.as_str());
                }
                push_char(&mut s, '}');
            },
        }
        match self.greed {
            G::Greedy => {},
            G::NonGreedy => push_char(&mut s, '?'),
            G::Possessive => push_char(&mut s, '+'),
        }
        assert(s@ == self.text());
        s
    }

    /// False only for lazy quantifiers.
    pub fn is_greedy(&self) -> (r: bool)
        ensures
            r == (self.greed != G::NonGreedy),
    {
        !matches!(self.greed, G::NonGreedy)
    }

    /// Whether the repetition count has an upper bound.
    pub fn is_finite(&self) -> (r: bool)
        ensures
            r == self.quantifier.finite(),
    {
        match self.quantifier {
            Q::ZeroOrOne | Q::NExact(_) => true,
            Q::NTimes { max: Some(_), .. } => true,
            _ => false,
        }
    }

    pub fn set_greed(&mut self, greed: G)
        ensures
            *final(self) == (Quantifier { quantifier: old(self).quantifier, greed }),
    {
        self.greed = greed;
    }

    pub fn set_quantifier(&mut self, quantifier: Q)
        ensures
            *final(self) == (Quantifier { quantifier, greed: old(self).greed }),
    {
        self.quantifier = quantifier;
    }

    /// The least number of repetitions.
    pub fn min_len_multiplier(&self) -> (r: usize)
        ensures
            r == self.quantifier.min_count(),
    {
        match self.quantifier {
            Q::ZeroOrOne | Q::ZeroOrMore => 0,
            Q::OneOrMore => 1,
            Q::NExact(n) => n,
            Q::NTimes { min, .. } => match min {
                Some(lo) => lo,
                None => 0,
            },
        }
    }
}

} // verus!
