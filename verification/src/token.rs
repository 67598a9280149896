//! Frames of the parse stack.
//!
//! The stack says at once which containers are open and what kind of byte
//! must come next. Frames that scan a key, a string, a number or a keyword
//! own the bytes read so far, which is what lets a chunk end anywhere.
use vstd::prelude::*;

verus! {

/// One frame of the parse stack.
#[derive(Debug, PartialEq)]
pub enum Token {
    /// An object is open; a key or `}` comes next.
    Obj,
    /// An array is open; an element or `]` comes next.
    Arr,
    /// An object key, being scanned or complete.
    Key(Vec<u8>),
    /// A key is complete; `:` comes next.
    AfterKey,
    /// The colon after a key; a value comes next.
    Colon,
    /// `null`, being matched.
    Null(Vec<u8>),
    /// `true`, being matched.
    True(Vec<u8>),
    /// `false`, being matched.
    False(Vec<u8>),
    /// A number, being scanned.
    Number(Vec<u8>),
    /// A string value, being scanned.
    String(Vec<u8>),
    /// A comma; the next element or pair comes next.
    Comma,
    /// A value or container is complete; `,`, `}` or `]` comes next.
    Nil,
}

/// The mathematical content of a [`Token`].
pub enum Frame {
    ObjectOpen,
    ArrayOpen,
    Key(Seq<u8>),
    AfterKey,
    Colon,
    NullLit(Seq<u8>),
    TrueLit(Seq<u8>),
    FalseLit(Seq<u8>),
    NumberLit(Seq<u8>),
    StringLit(Seq<u8>),
    Comma,
    Terminal,
}

impl View for Token {
    type V = Frame;

    open spec fn view(&self) -> Frame {
        match self {
            Token::Obj => Frame::ObjectOpen,
            Token::Arr => Frame::ArrayOpen,
            Token::Key(data) => Frame::Key(data@),
            Token::AfterKey => Frame::AfterKey,
            Token::Colon => Frame::Colon,
            Token::Null(data) => Frame::NullLit(data@),
            Token::True(data) => Frame::TrueLit(data@),
            Token::False(data) => Frame::FalseLit(data@),
            Token::Number(data) => Frame::NumberLit(data@),
            Token::String(data) => Frame::StringLit(data@),
            Token::Comma => Frame::Comma,
            Token::Nil => Frame::Terminal,
        }
    }
}

/// Whether `frame` holds a scalar value that is being scanned.
pub open spec fn is_scalar(frame: Frame) -> bool {
    frame is NullLit || frame is TrueLit || frame is FalseLit || frame is NumberLit
        || frame is StringLit
}

/// The stack of frames that a vector of tokens stands for, bottom first.
pub open spec fn frames_of(tokens: Seq<Token>) -> Seq<Frame> {
    tokens.map_values(|t: Token| t@)
}

/// Pushing a token pushes its frame.
pub proof fn lemma_frames_push(tokens: Seq<Token>, token: Token)
    ensures
        frames_of(tokens.push(token)) == frames_of(tokens).push(token@),
{
    assert(frames_of(tokens.push(token)) =~= frames_of(tokens).push(token@));
}

/// Popping a token pops its frame.
pub proof fn lemma_frames_drop_last(tokens: Seq<Token>)
    requires
        tokens.len() > 0,
    ensures
        frames_of(tokens.drop_last()) == frames_of(tokens).drop_last(),
        frames_of(tokens).last() == tokens.last()@,
{
    assert(frames_of(tokens.drop_last()) =~= frames_of(tokens).drop_last());
}

/// Replacing the top token by one with another frame replaces the top frame.
pub proof fn lemma_frames_update_last(tokens: Seq<Token>, token: Token)
    requires
        tokens.len() > 0,
    ensures
        frames_of(tokens.update(tokens.len() - 1, token)) == frames_of(tokens).drop_last().push(
            token@,
        ),
{
    assert(frames_of(tokens.update(tokens.len() - 1, token)) =~= frames_of(
        tokens,
    ).drop_last().push(token@));
}

} // verus!
