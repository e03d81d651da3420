//! The eight-symbol alphabet of the language.

use vstd::prelude::*;
use vstd::std_specs::convert::{FromSpecImpl, TryFromSpecImpl};

verus! {

/// One command of the language, named after what it does.
#[derive(Debug, Clone, Copy, PartialEq, Eq, Structural)]
pub enum Token {
    /// `>`: move the data pointer one cell to the right.
    MoveRight,
    /// `<`: move the data pointer one cell to the left.
    MoveLeft,
    /// `+`: add one to the byte at the data pointer.
    Increment,
    /// `-`: subtract one from the byte at the data pointer.
    Decrement,
    /// `.`: write the byte at the data pointer to the output.
    Output,
    /// `,`: read one byte of input into the byte at the data pointer.
    Input,
    /// `[`: start of a loop that runs while the byte at the data pointer is not zero.
    LoopStart,
    /// `]`: end of a loop.
    LoopEnd,
}

/// The value that was offered as a token and is none.
#[derive(Debug, PartialEq, Eq)]
pub struct InvalidTokenError<T>(pub T);

impl Token {
    /// The byte that is written for this token in a source text.
    pub open spec fn symbol(self) -> u8 {
        match self {
            Token::MoveRight => 0x3e,
            Token::MoveLeft => 0x3c,
            Token::Increment => 0x2b,
            Token::Decrement => 0x2d,
            Token::Output => 0x2e,
            Token::Input => 0x2c,
            Token::LoopStart => 0x5b,
            Token::LoopEnd => 0x5d,
        }
    }

    /// The token that a byte of source text stands for, if it stands for one.
    pub open spec fn of_byte(byte: u8) -> Option<Token> {
        if byte == 0x3e {
            Some(Token::MoveRight)
        } else if byte == 0x3c {
            Some(Token::MoveLeft)
        } else if byte == 0x2b {
            Some(Token::Increment)
        } else if byte == 0x2d {
            Some(Token::Decrement)
        } else if byte == 0x2e {
            Some(Token::Output)
        } else if byte == 0x2c {
            Some(Token::Input)
        } else if byte == 0x5b {
            Some(Token::LoopStart)
        } else if byte == 0x5d {
            Some(Token::LoopEnd)
        } else {
            None
        }
    }

    /// The token that a character stands for, if it stands for one: the
    /// character is then the token's symbol.
    pub open spec fn of_char(c: char) -> Option<Token> {
        if c == '>' {
            Some(Token::MoveRight)
        } else if c == '<' {
            Some(Token::MoveLeft)
        } else if c == '+' {
            Some(Token::Increment)
        } else if c == '-' {
            Some(Token::Decrement)
        } else if c == '.' {
            Some(Token::Output)
        } else if c == ',' {
            Some(Token::Input)
        } else if c == '[' {
            Some(Token::LoopStart)
        } else if c == ']' {
            Some(Token::LoopEnd)
        } else {
            None
        }
    }

    /// Symbols and tokens correspond one to one: each token is the token of its
    /// own symbol, and a byte that stands for a token is that token's symbol.
    pub proof fn lemma_symbol_bijection(token: Token, byte: u8)
        ensures
            Token::of_byte(token.symbol()) == Some(token),
            Token::of_byte(byte) == Some(token) <==> byte == token.symbol(),
    {
    }

    /// A character stands for a token exactly when it is the character whose
    /// code point is the token's symbol.
    pub proof fn lemma_char_agrees_with_byte(c: char)
        ensures
            Token::of_char(c) == if (c as u32) < 0x80 {
                Token::of_byte(c as u8)
            } else {
                None
            },
    {
    }

    /// The byte that is written for this token.
    pub fn to_byte(self) -> (byte: u8)
        ensures
            byte == self.symbol(),
    {
        match self {
            Token::MoveRight => 0x3e,
            Token::MoveLeft => 0x3c,
            Token::Increment => 0x2b,
            Token::Decrement => 0x2d,
            Token::Output => 0x2e,
            Token::Input => 0x2c,
            Token::LoopStart => 0x5b,
            Token::LoopEnd => 0x5d,
        }
    }
}

impl TryFrom<u8> for Token {
    type Error = InvalidTokenError<u8>;

    fn try_from(value: u8) -> (r: Result<Token, InvalidTokenError<u8>>) {
        match value {
            0x3e => Ok(Token::MoveRight),
            0x3c => Ok(Token::MoveLeft),
            0x2b => Ok(Token::Increment),
            0x2d => Ok(Token::Decrement),
            0x2e => Ok(Token::Output),
            0x2c => Ok(Token::Input),
            0x5b => Ok(Token::LoopStart),
            0x5d => Ok(Token::LoopEnd),
            c => Err(InvalidTokenError(c)),
        }
    }
}

impl TryFromSpecImpl<u8> for Token {
    open spec fn obeys_try_from_spec() -> bool {
        true
    }

    open spec fn try_from_spec(value: u8) -> Result<Token, InvalidTokenError<u8>> {
        match Token::of_byte(value) {
            Some(token) => Ok(token),
            None => Err(InvalidTokenError(value)),
        }
    }
}

impl TryFrom<&u8> for Token {
    type Error = InvalidTokenError<u8>;

    fn try_from(value: &u8) -> (r: Result<Token, InvalidTokenError<u8>>) {
        Token::try_from(*value)
    }
}

impl TryFromSpecImpl<&u8> for Token {
    open spec fn obeys_try_from_spec() -> bool {
        true
    }

    open spec fn try_from_spec(value: &u8) -> Result<Token, InvalidTokenError<u8>> {
        match Token::of_byte(*value) {
            Some(token) => Ok(token),
            None => Err(InvalidTokenError(*value)),
        }
    }
}

impl TryFrom<char> for Token {
    type Error = InvalidTokenError<char>;

    fn try_from(value: char) -> (r: Result<Token, InvalidTokenError<char>>) {
        match value {
            '>' => Ok(Token::MoveRight),
            '<' => Ok(Token::MoveLeft),
            '+' => Ok(Token::Increment),
            '-' => Ok(Token::Decrement),
            '.' => Ok(Token::Output),
            ',' => Ok(Token::Input),
            '[' => Ok(Token::LoopStart),
            ']' => Ok(Token::LoopEnd),
            c => Err(InvalidTokenError(c)),
        }
    }
}

impl TryFromSpecImpl<char> for Token {
    open spec fn obeys_try_from_spec() -> bool {
        true
    }

    open spec fn try_from_spec(value: char) -> Result<Token, InvalidTokenError<char>> {
        match Token::of_char(value) {
            Some(token) => Ok(token),
            None => Err(InvalidTokenError(value)),
        }
    }
}

impl From<Token> for u8 {
    fn from(value: Token) -> (byte: u8) {
        value.to_byte()
    }
}

impl FromSpecImpl<Token> for u8 {
    open spec fn obeys_from_spec() -> bool {
        true
    }

    open spec fn from_spec(value: Token) -> u8 {
        value.symbol()
    }
}

impl From<Token> for char {
    fn from(value: Token) -> (c: char) {
        match value {
            Token::MoveRight => '>',
            Token::MoveLeft => '<',
            Token::Increment => '+',
            Token::Decrement => '-',
            Token::Output => '.',
            Token::Input => ',',
            Token::LoopStart => '[',
            Token::LoopEnd => ']',
        }
    }
}

impl FromSpecImpl<Token> for char {
    open spec fn obeys_from_spec() -> bool {
        true
    }

    open spec fn from_spec(value: Token) -> char {
        value.symbol() as char
    }
}

} // verus!
