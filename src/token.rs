use vstd::prelude::*;

verus! {

/// The seven commands of the language.
#[derive(PartialEq, Eq, Structural, Copy, Clone, Debug)]
pub enum Token {
    MoveLeft,
    MoveRight,
    BracketLeft,
    BracketRight,
    Read,
    Write,
    Flip,
}

/// The command that a source character stands for, if any.
pub open spec fn token_of_char(c: char) -> Option<Token> {
    if c == '<' {
        Some(Token::MoveLeft)
    } else if c == '>' {
        Some(Token::MoveRight)
    } else if c == '[' {
        Some(Token::BracketLeft)
    } else if c == ']' {
        Some(Token::BracketRight)
    } else if c == ',' {
        Some(Token::Read)
    } else if c == ';' {
        Some(Token::Write)
    } else if c == '+' {
        Some(Token::Flip)
    } else {
        None
    }
}

/// The source character that writes a command.
pub open spec fn char_of_token(t: Token) -> char {
    match t {
        Token::MoveLeft => '<',
        Token::MoveRight => '>',
        Token::BracketLeft => '[',
        Token::BracketRight => ']',
        Token::Read => ',',
        Token::Write => ';',
        Token::Flip => '+',
    }
}

/// Each command's character reads back as that command.
pub proof fn lemma_char_of_token_reads_back(t: Token)
    ensures
        token_of_char(char_of_token(t)) == Some(t),
{
}

impl Token {
    /// The source character of this command.
    pub fn symbol(self) -> (c: char)
        ensures
            c == char_of_token(self),
    {
        match self {
            Token::MoveLeft => '<',
            Token::MoveRight => '>',
            Token::BracketLeft => '[',
            Token::BracketRight => ']',
            Token::Read => ',',
            Token::Write => ';',
            Token::Flip => '+',
        }
    }
}

} // verus!
