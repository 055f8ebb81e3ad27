use vstd::prelude::*;

verus! {

/// The kinds of token the tokenizer can classify.
///
/// `LabelDeclaration` is never produced by the tokenizer itself: the retagging
/// pass rewrites the token in front of a colon to it. `Error` marks
/// unrecognized input and aborts tokenization at its first occurrence.
#[derive(Debug, Clone, Copy, PartialEq, Eq, Structural)]
pub enum Token {
    Error,
    LineComment,
    BlockComment,
    Directive,
    Identifier,
    LabelDeclaration,
    Number,
    String,
    Colon,
    Comma,
    MiscBinaryOperator,
    MiscUnaryOperator,
    MiscBinaryOrUnaryOperator,
    OpenRound,
    CloseRound,
    OpenSquare,
    CloseSquare,
}

} // verus!
