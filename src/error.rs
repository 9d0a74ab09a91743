use vstd::prelude::*;
use crate::node::ParseNode;
use crate::text::{decimal, decimal_string, push_char, push_str};
use vstd::string::*;

verus! {

/// Why building a syntax tree failed. Positions are character columns of the
/// parse-tree node at fault.
#[derive(Debug)]
pub enum ReggieError {
    UnexpectedInput { input: String, char_ix: usize },
    UnexpectedEndOfInput { char_ix: usize },
    InvalidFlag { bad_flag: char },
    InvalidLiteral { bad_literal: String },
    InvalidRanges { bad_ranges: Vec<(char, char)> },
    InvalidCharClass { bad_cclass: String },
    NegativePatternFlags,
}

/// Ranges as `low-high` items separated by `, `.
pub open spec fn ranges_list(rs: Seq<(char, char)>) -> Seq<char>
    decreases rs.len(),
{
    if rs.len() == 0 {
        Seq::empty()
    } else if rs.len() == 1 {
        seq![rs[0].0, '-', rs[0].1]
    } else {
        ranges_list(rs.drop_last()) + seq![',', ' ', rs.last().0, '-', rs.last().1]
    }
}

impl ReggieError {
    /// The report shown to a user: the kind of failure, the text at fault
    /// and, where known, its position.
    pub open spec fn message_text(&self) -> Seq<char> {
        match self {
            ReggieError::UnexpectedInput { input, char_ix } => "Unexpected input "@ + input@
                + " at character "@ + decimal(*char_ix as nat),
            ReggieError::UnexpectedEndOfInput { char_ix } => "Unexpected end of input at character "@
                + decimal(*char_ix as nat),
            ReggieError::InvalidFlag { bad_flag } => "Invalid flag "@ + seq![*bad_flag],
            ReggieError::InvalidLiteral { bad_literal } => "Invalid literal "@ + bad_literal@,
            ReggieError::InvalidRanges { bad_ranges } => "Invalid ranges "@ + ranges_list(bad_ranges@),
            ReggieError::InvalidCharClass { bad_cclass } => "Invalid character class "@ + bad_cclass@,
            ReggieError::NegativePatternFlags => "Pattern flags must be positive"@,
        }
    }

    pub fn message(&self) -> (r: String)
        ensures
            r@ == self.message_text(),
    {
        let mut s = String::new();
        match self {
            ReggieError::UnexpectedInput { input, char_ix } => {
                push_str(&mut s, "Unexpected input ");
                push_str(&mut s, input.as_str());
                push_str(&mut s, " at character ");
                let d = decimal_string(*char_ix);
                push_str(&mut s, d.as_str());
            },
            ReggieError::UnexpectedEndOfInput { char_ix } => {
                push_str(&mut s, "Unexpected end of input at character ");
                let d = decimal_string(*char_ix);
                push_str(&mut s, d.as_str());
            },
            ReggieError::InvalidFlag { bad_flag } => {
                push_str(&mut s, "Invalid flag ");
                push_char(&mut s, *bad_flag);
            },
            ReggieError::InvalidLiteral { bad_literal } => {
                push_str(&mut s, "Invalid literal ");
                push_str(&mut s, bad_literal.as_str());
            },
            ReggieError::InvalidRanges { bad_ranges } => {
                push_str(&mut s, "Invalid ranges ");
                let ghost start = s@;
                let mut i: usize = 0;
                while i < bad_ranges.len()
                    invariant
                        i <= bad_ranges@.len(),
                        s@ == start + ranges_list(bad_ranges@.subrange(0, i as int)),
                    decreases bad_ranges.len() - i,
                {
                    if i > 0 {
                        push_char(&mut s, ',');
                        push_char(&mut s, ' ');
                    }
                    let (low, high) = bad_ranges[i];
                    push_char(&mut s, low);
                    push_char(&mut s, '-');
                    push_char(&mut s, high);
                    proof {
                        assert(bad_ranges@.subrange(0, i + 1).drop_last() == bad_ranges@.subrange(0, i as int));
                    }
                    i += 1;
                }
                assert(bad_ranges@.subrange(0, bad_ranges@.len() as int) == bad_ranges@);
            },
            ReggieError::InvalidCharClass { bad_cclass } => {
                push_str(&mut s, "Invalid character class ");
                push_str(&mut s, bad_cclass.as_str());
            },
            ReggieError::NegativePatternFlags => {
                push_str(&mut s, "Pattern flags must be positive");
            },
        }
        s
    }

    /// The error for a node of a kind that its place does not allow.
    pub fn unexpected_input(node: &ParseNode) -> (e: ReggieError)
        ensures
            e matches ReggieError::UnexpectedInput { input, char_ix } && input@ == node.text@
                && char_ix == node.col,
    {
        ReggieError::UnexpectedInput { input: String::from_str(node.text.as_str()), char_ix: node.col }
    }

    /// The error for a node that lacks a child its kind requires.
    pub fn unexpected_eoi(char_ix: usize) -> (e: ReggieError)
        ensures
            e == (ReggieError::UnexpectedEndOfInput { char_ix }),
    {
        ReggieError::UnexpectedEndOfInput { char_ix }
    }
}

} // verus!
