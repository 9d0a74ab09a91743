use vstd::prelude::*;

verus! {

/// Kinds of parse-tree nodes that a grammar for the pattern dialect produces.
#[derive(Clone, Copy, Debug, PartialEq, Eq, Structural)]
pub enum Rule {
    Regex,
    WholePatternFlags,
    Flags,
    SubPattern,
    Alternatives,
    Pipe,
    Group,
    GroupExt,
    LParens,
    RParens,
    QuestionMark,
    Noncapturing,
    Atomic,
    PosLookahead,
    NegLookahead,
    PosLookbehind,
    NegLookbehind,
    NamedBackref,
    Named,
    Ternary,
    GroupId,
    NumberedGroupId,
    NamedGroupId,
    GroupName,
    Literals,
    CharSet,
    SetNegation,
    CharRange,
    Hyphen,
    SetLiteral,
    EscapedHyphen,
    Caret,
    CharClass,
    Backslash,
    LSq,
    RSq,
    Quantifier,
    Asterisk,
    Plus,
    LBrace,
    RBrace,
    NExact,
    NBetween,
    NAtLeast,
    NAtMost,
    ZeroWidthLiteral,
    CommentGroup,
    Comment,
}

/// A node of a concrete parse tree: its kind, the source text it spans, its
/// position, and its children in source order.
#[derive(Debug)]
pub struct ParseNode {
    pub rule: Rule,
    pub text: String,
    pub line: usize,
    pub col: usize,
    pub children: Vec<ParseNode>,
}

} // verus!
