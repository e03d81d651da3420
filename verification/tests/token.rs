use brainfuck::{InvalidTokenError, Token};

const ALL: [(Token, u8, char); 8] = [
    (Token::MoveRight, b'>', '>'),
    (Token::MoveLeft, b'<', '<'),
    (Token::Increment, b'+', '+'),
    (Token::Decrement, b'-', '-'),
    (Token::Output, b'.', '.'),
    (Token::Input, b',', ','),
    (Token::LoopStart, b'[', '['),
    (Token::LoopEnd, b']', ']'),
];

#[test]
fn every_symbol_is_its_token() {
    for (token, byte, character) in ALL {
        assert_eq!(Token::try_from(byte), Ok(token));
        assert_eq!(Token::try_from(character), Ok(token));
        assert_eq!(u8::from(token), byte);
        assert_eq!(char::from(token), character);
        assert_eq!(token.to_byte(), byte);
    }
}

#[test]
fn exactly_eight_bytes_are_symbols() {
    let mut symbols = 0;
    for byte in 0..=u8::MAX {
        match Token::try_from(byte) {
            Ok(token) => {
                symbols += 1;
                assert_eq!(u8::from(token), byte);
            }
            Err(error) => assert_eq!(error, InvalidTokenError(byte)),
        }
    }
    assert_eq!(symbols, 8);
}

#[test]
fn other_characters_are_no_token() {
    assert_eq!(Token::try_from('a'), Err(InvalidTokenError('a')));
    assert_eq!(Token::try_from(' '), Err(InvalidTokenError(' ')));
    assert_eq!(Token::try_from('\n'), Err(InvalidTokenError('\n')));
    assert_eq!(Token::try_from(0u8), Err(InvalidTokenError(0u8)));
}

#[test]
fn character_with_a_symbol_in_its_low_byte_is_no_token() {
    // U+013E ends in the byte of `>`, U+012B in that of `+`.
    assert_eq!(Token::try_from('\u{13e}'), Err(InvalidTokenError('\u{13e}')));
    assert_eq!(Token::try_from('\u{12b}'), Err(InvalidTokenError('\u{12b}')));
}
