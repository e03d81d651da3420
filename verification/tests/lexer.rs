use brainfuck::{tokenize, Lexer, Token, TokenIterator};

#[test]
fn parses_tokens() {
    let program = "><+-.,[]";
    let mut lexer = program.iter_token();
    assert_eq!(lexer.next(), Some((0, Token::MoveRight,)));
    assert_eq!(lexer.next(), Some((1, Token::MoveLeft,)));
    assert_eq!(lexer.next(), Some((2, Token::Increment,)));
    assert_eq!(lexer.next(), Some((3, Token::Decrement,)));
    assert_eq!(lexer.next(), Some((4, Token::Output,)));
    assert_eq!(lexer.next(), Some((5, Token::Input,)));
    assert_eq!(lexer.next(), Some((6, Token::LoopStart,)));
    assert_eq!(lexer.next(), Some((7, Token::LoopEnd,)));
    assert_eq!(lexer.next(), None);
}

#[test]
fn ignores_non_token_characters() {
    let program = "[1-r2.";
    let mut lexer = program.iter_token();
    assert_eq!(lexer.next(), Some((0, Token::LoopStart,)));
    assert_eq!(lexer.next(), Some((2, Token::Decrement,)));
    assert_eq!(lexer.next(), Some((5, Token::Output,)));
    assert_eq!(lexer.next(), None);
}

#[test]
fn lexes_bytes_as_it_lexes_text() {
    let program: &[u8] = b"[1-r2.";
    let mut lexer = program.iter_token();
    assert_eq!(lexer.next(), Some((0, Token::LoopStart)));
    assert_eq!(lexer.next(), Some((2, Token::Decrement)));
    assert_eq!(lexer.next(), Some((5, Token::Output)));
    assert_eq!(lexer.next(), None);
    assert_eq!(lexer.next(), None);
}

#[test]
fn empty_source_has_no_token() {
    let mut lexer = "".iter_token();
    assert_eq!(lexer.index(), 0);
    assert_eq!(lexer.peek(), None);
    assert_eq!(lexer.next(), None);
    assert_eq!(lexer.index(), 0);
    assert_eq!(tokenize(b""), vec![]);
}

#[test]
fn source_of_comments_has_no_token() {
    let mut lexer = Lexer::new(b"hello, world".as_slice());
    assert_eq!(lexer.next(), Some((5, Token::Input)));
    assert_eq!(lexer.next(), None);
    assert_eq!(lexer.index(), 12);
    assert_eq!(tokenize(b"abc def\n"), vec![]);
}

#[test]
fn index_is_behind_the_last_token() {
    let mut lexer = "ab+cd-ef".iter_token();
    assert_eq!(lexer.index(), 0);
    assert_eq!(lexer.next(), Some((2, Token::Increment)));
    assert_eq!(lexer.index(), 3);
    assert_eq!(lexer.next(), Some((5, Token::Decrement)));
    assert_eq!(lexer.index(), 6);
    assert_eq!(lexer.next(), None);
    assert_eq!(lexer.index(), 8);
}

#[test]
fn peek_does_not_consume() {
    let mut lexer = "  > x <".iter_token();
    assert_eq!(lexer.peek(), Some((2, Token::MoveRight)));
    assert_eq!(lexer.peek(), Some((2, Token::MoveRight)));
    assert_eq!(lexer.index(), 0);
    assert_eq!(lexer.next(), Some((2, Token::MoveRight)));
    assert_eq!(lexer.peek(), Some((6, Token::MoveLeft)));
    assert_eq!(lexer.next(), Some((6, Token::MoveLeft)));
    assert_eq!(lexer.peek(), None);
}

#[test]
fn finish_drops_the_rest() {
    let mut lexer = "+-+-".iter_token();
    assert_eq!(lexer.next(), Some((0, Token::Increment)));
    lexer.finish();
    assert_eq!(lexer.index(), 4);
    assert_eq!(lexer.next(), None);
    assert_eq!(lexer.text(), b"+-+-");
}

#[test]
fn tokenize_gives_one_entry_per_symbol_in_order() {
    let source = b"a+b[c-]d.e,f<g>h";
    let tokens = tokenize(source);
    assert_eq!(
        tokens,
        vec![
            (1, Token::Increment),
            (3, Token::LoopStart),
            (5, Token::Decrement),
            (6, Token::LoopEnd),
            (8, Token::Output),
            (10, Token::Input),
            (12, Token::MoveLeft),
            (14, Token::MoveRight),
        ]
    );
    let symbols = source
        .iter()
        .filter(|byte| b"><+-.,[]".contains(byte))
        .count();
    assert_eq!(tokens.len(), symbols);
    for (offset, token) in tokens {
        assert_eq!(Token::try_from(source[offset]), Ok(token));
    }
}

#[test]
fn bytes_of_other_characters_are_comments() {
    // Every byte of a character outside ASCII is at least 0x80, so none is a symbol.
    let program = "é+ü[→]";
    let tokens = tokenize(program.as_bytes());
    assert_eq!(
        tokens,
        vec![(2, Token::Increment), (5, Token::LoopStart), (9, Token::LoopEnd)]
    );
    let mut lexer = program.iter_token();
    assert_eq!(lexer.next(), Some((2, Token::Increment)));
}
