use brainfuck::{
    decode_decimal, ByteInput, ByteOutput, DecimalError, EndOfInput, InputStream, OutputStream,
};

#[test]
fn decimal_console_reads_one_digit() {
    assert_eq!(decode_decimal(&[b'9', b'\n']), Ok(9));
}

#[test]
fn decimal_console_refuses_a_number_above_255() {
    assert_eq!(
        decode_decimal(&[b'2', b'5', b'6', b'\n']),
        Err(DecimalError::NumberTooBig)
    );
    assert_eq!(decode_decimal(b"999\n"), Err(DecimalError::NumberTooBig));
}

#[test]
fn decimal_console_refuses_a_character_that_is_no_digit() {
    assert_eq!(
        decode_decimal(&[b'a', b'\n']),
        Err(DecimalError::InvalidCharacter('a'))
    );
    assert_eq!(
        decode_decimal(b"1x3\n"),
        Err(DecimalError::InvalidCharacter('x'))
    );
    assert_eq!(
        decode_decimal(b"99/\n"),
        Err(DecimalError::InvalidCharacter('/'))
    );
    assert_eq!(
        decode_decimal(b"9:\n"),
        Err(DecimalError::InvalidCharacter(':'))
    );
}

#[test]
fn decimal_console_refuses_a_line_of_wrong_length() {
    assert_eq!(decode_decimal(&[]), Err(DecimalError::BadInput));
    assert_eq!(decode_decimal(b"\n"), Err(DecimalError::BadInput));
    assert_eq!(decode_decimal(b"7"), Err(DecimalError::BadInput));
    assert_eq!(decode_decimal(b"1234\n"), Err(DecimalError::BadInput));
    assert_eq!(decode_decimal(b"abcde"), Err(DecimalError::BadInput));
}

#[test]
fn decimal_console_reads_up_to_three_digits() {
    assert_eq!(decode_decimal(b"0\n"), Ok(0));
    assert_eq!(decode_decimal(b"42\n"), Ok(42));
    assert_eq!(decode_decimal(b"255\n"), Ok(255));
    assert_eq!(decode_decimal(b"007\n"), Ok(7));
    assert_eq!(decode_decimal(b"100\n"), Ok(100));
}

#[test]
fn decimal_console_does_not_look_at_the_terminator() {
    assert_eq!(decode_decimal(b"12x"), Ok(12));
    assert_eq!(decode_decimal(b"5\r"), Ok(5));
}

#[test]
fn byte_input_gives_its_bytes_in_order_and_then_fails() {
    let mut input = ByteInput::new(vec![3, 1, 2]);
    assert_eq!(input.read(), Ok(3));
    assert_eq!(input.read(), Ok(1));
    assert_eq!(input.read(), Ok(2));
    assert_eq!(input.read(), Err(EndOfInput));
    assert_eq!(input.read(), Err(EndOfInput));
    assert_eq!(ByteInput::new(vec![]).read(), Err(EndOfInput));
}

#[test]
fn byte_output_keeps_what_is_written() {
    let mut output = ByteOutput::new();
    assert_eq!(output.bytes(), &Vec::<u8>::new());
    assert_eq!(output.write(7), Ok(()));
    assert_eq!(output.write(0), Ok(()));
    assert_eq!(output.write(255), Ok(()));
    assert_eq!(output.bytes(), &vec![7, 0, 255]);
}
