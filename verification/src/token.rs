use vstd::prelude::*;
use crate::location::Loc;

verus! {

/// The eight operators of the language, as token kinds.  A kind is a pure
/// tag; counts and locations live on [`Op`].
#[derive(Debug, Clone, Copy, PartialEq, Eq, Structural)]
pub enum Token {
    Right,
    Left,
    Inc,
    Dec,
    Output,
    Input,
    JumpZero,
    JumpNonZero,
}

impl Token {
    /// The token that a source character denotes, if any; every other
    /// character is inert (comment text).
    pub open spec fn spec_new(c: char) -> Option<Token> {
        if c == '>' {
            Some(Token::Right)
        } else if c == '<' {
            Some(Token::Left)
        } else if c == '+' {
            Some(Token::Inc)
        } else if c == '-' {
            Some(Token::Dec)
        } else if c == '.' {
            Some(Token::Output)
        } else if c == ',' {
            Some(Token::Input)
        } else if c == '[' {
            Some(Token::JumpZero)
        } else if c == ']' {
            Some(Token::JumpNonZero)
        } else {
            None
        }
    }

    /// Recognises one source character.
    pub fn new(c: char) -> (r: Option<Token>)
        ensures
            r == Token::spec_new(c),
    {
        match c {
            '>' => Some(Token::Right),
            '<' => Some(Token::Left),
            '+' => Some(Token::Inc),
            '-' => Some(Token::Dec),
            '.' => Some(Token::Output),
            ',' => Some(Token::Input),
            '[' => Some(Token::JumpZero),
            ']' => Some(Token::JumpNonZero),
            _ => None,
        }
    }

    /// Whether runs of this kind may be merged into one counted operation.
    /// Loop-control tokens are never merged: each one is individually
    /// significant to tree construction.
    pub open spec fn is_repeatable(self) -> bool {
        !(self is JumpZero || self is JumpNonZero)
    }

    /// Tests whether runs of this kind collapse.
    pub fn repeatable(self) -> (b: bool)
        ensures
            b == self.is_repeatable(),
    {
        match self {
            Token::JumpZero | Token::JumpNonZero => false,
            _ => true,
        }
    }
}

/// One operation: a token kind, a repetition count, and the source location
/// it covers.  Fresh from the lexer, `count` is 1 and `loc` a single
/// position; after collapsing, `count` is the length of the merged run and
/// `loc` spans it.
#[derive(Debug, Clone, Copy, PartialEq, Eq, Structural)]
pub struct Op {
    pub token: Token,
    pub count: usize,
    pub loc: Loc,
}

} // verus!
