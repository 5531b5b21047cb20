//! Lexing: source characters to tokens.

use vstd::prelude::*;

verus! {

/// A single token of a brainfuck program.
#[derive(Debug, PartialEq, Eq, Structural, Clone, Copy)]
pub enum Token {
    /// `>`: move the data pointer one cell to the right.
    MoveRight,
    /// `<`: move the data pointer one cell to the left.
    MoveLeft,
    /// `+`: increment the byte at the data pointer.
    Increment,
    /// `-`: decrement the byte at the data pointer.
    Decrement,
    /// `.`: output the byte at the data pointer.
    Output,
    /// `,`: read one byte of input into the cell at the data pointer.
    Input,
    /// `[`: start of a loop.
    Loop,
    /// `]`: end of a loop.
    EndLoop,
}

/// The token that a character stands for, if it is one of the eight
/// instruction characters.
pub open spec fn token_of(c: char) -> Option<Token> {
    if c == '>' {
        Some(Token::MoveRight)
    } else if c == '<' {
        Some(Token::MoveLeft)
    } else if c == '+' {
        Some(Token::Increment)
    } else if c == '-' {
        Some(Token::Decrement)
    } else if c == '.' {
        Some(Token::Output)
    } else if c == ',' {
        Some(Token::Input)
    } else if c == '[' {
        Some(Token::Loop)
    } else if c == ']' {
        Some(Token::EndLoop)
    } else {
        None
    }
}

/// The tokens of a text: the instruction characters in order, every other
/// character dropped.
pub open spec fn tokens_of(text: Seq<char>) -> Seq<Token>
    decreases text.len(),
{
    if text.len() == 0 {
        Seq::empty()
    } else {
        let front = tokens_of(text.drop_last());
        match token_of(text.last()) {
            Some(t) => front.push(t),
            None => front,
        }
    }
}

/// Classifies one character.
pub fn tokenize_char(c: char) -> (t: Option<Token>)
    ensures
        t == token_of(c),
{
    match c {
        '>' => Some(Token::MoveRight),
        '<' => Some(Token::MoveLeft),
        '+' => Some(Token::Increment),
        '-' => Some(Token::Decrement),
        '.' => Some(Token::Output),
        ',' => Some(Token::Input),
        '[' => Some(Token::Loop),
        ']' => Some(Token::EndLoop),
        _ => None,
    }
}

/// Tokenizes a brainfuck source text.
pub fn tokenize(s: &str) -> (tokens: Vec<Token>)
    ensures
        tokens@ == tokens_of(s@),
{
    let mut tokens: Vec<Token> = Vec::new();
    for c in it: s.chars()
        invariant
            it.seq() == s@,
            tokens@ == tokens_of(s@.take(it.index() as int)),
    {
        proof {
            let k = it.index() as int;
            assert(s@.take(k + 1).drop_last() == s@.take(k));
        }
        if let Some(token) = tokenize_char(c) {
            tokens.push(token);
        }
    }
    proof {
        assert(s@.take(s@.len() as int) == s@);
    }
    tokens
}

} // verus!
