//! The ports through which a program reads and writes bytes.

use vstd::prelude::*;

verus! {

/// Where a program's input comes from, one byte at a time.
pub trait InputStream {
    /// Why a byte could not be read.
    type Error;

    /// Reads the next byte.
    fn read(&mut self) -> (answer: Result<u8, Self::Error>);
}

/// Where a program's output goes, one byte at a time.
pub trait OutputStream {
    /// Why a byte could not be written.
    type Error;

    /// Writes one byte.
    fn write(&mut self, value: u8) -> (answer: Result<(), Self::Error>);
}

/// One call of a port, with what was handed to it and what it answered.
pub enum PortEvent<IE, OE> {
    /// A call of `read` and its answer.
    Read(Result<u8, IE>),
    /// A call of `write` with the byte written, and its answer.
    Write(u8, Result<(), OE>),
}

/// Whether `log` holds no call of `read`.
pub open spec fn no_read<IE, OE>(log: Seq<PortEvent<IE, OE>>) -> bool {
    forall|k: int| 0 <= k < log.len() ==> !((#[trigger] log[k]) is Read)
}

/// Whether `log` holds no call of `write`.
pub open spec fn no_write<IE, OE>(log: Seq<PortEvent<IE, OE>>) -> bool {
    forall|k: int| 0 <= k < log.len() ==> !((#[trigger] log[k]) is Write)
}

/// A log without a call holds none in any part of it, and two logs without a
/// call make one.
pub proof fn lemma_no_call_in_parts<IE, OE>(first: Seq<PortEvent<IE, OE>>, second: Seq<PortEvent<IE, OE>>)
    ensures
        no_read(first + second) <==> no_read(first) && no_read(second),
        no_write(first + second) <==> no_write(first) && no_write(second),
{
    let both = first + second;
    if no_read(both) {
        assert forall|k: int| 0 <= k < first.len() implies !((#[trigger] first[k]) is Read) by {
            assert(both[k] == first[k]);
        }
        assert forall|k: int| 0 <= k < second.len() implies !((#[trigger] second[k]) is Read) by {
            assert(both[first.len() + k] == second[k]);
        }
    }
    if no_write(both) {
        assert forall|k: int| 0 <= k < first.len() implies !((#[trigger] first[k]) is Write) by {
            assert(both[k] == first[k]);
        }
        assert forall|k: int| 0 <= k < second.len() implies !((#[trigger] second[k]) is Write) by {
            assert(both[first.len() + k] == second[k]);
        }
    }
}

/// The input ended before the byte that was asked for.
#[derive(Debug, Clone, Copy, PartialEq, Eq, Structural)]
pub struct EndOfInput;

/// An input port over bytes in memory: each read gives the next byte, and a
/// read behind the last byte fails.
#[derive(Debug)]
pub struct ByteInput {
    bytes: Vec<u8>,
    next: usize,
}

impl ByteInput {
    #[verifier::type_invariant]
    spec fn in_bounds(self) -> bool {
        self.next <= self.bytes@.len()
    }

    /// The bytes that were not read yet.
    pub closed spec fn pending(self) -> Seq<u8> {
        self.bytes@.skip(self.next as int)
    }

    /// A port that gives the bytes of `bytes`, the first one first.
    pub fn new(bytes: Vec<u8>) -> (port: Self)
        ensures
            port.pending() == bytes@,
    {
        let port = ByteInput { bytes, next: 0 };
        assert(port.bytes@.skip(0) =~= port.bytes@);
        port
    }
}

impl InputStream for ByteInput {
    type Error = EndOfInput;

    fn read(&mut self) -> (answer: Result<u8, EndOfInput>)
        ensures
            old(self).pending().len() > 0 ==> answer == Ok::<u8, EndOfInput>(
                old(self).pending()[0],
            ) && final(self).pending() == old(self).pending().skip(1),
            old(self).pending().len() == 0 ==> answer is Err && final(self).pending() == old(
                self,
            ).pending(),
    {
        proof {
            use_type_invariant(&*self);
        }
        if self.next < self.bytes.len() {
            let byte = self.bytes[self.next];
            self.next += 1;
            assert(self.bytes@.skip(self.next as int) =~= old(self).bytes@.skip(
                old(self).next as int,
            ).skip(1));
            Ok(byte)
        } else {
            Err(EndOfInput)
        }
    }
}

/// An output port that keeps in memory every byte written to it. A write to it
/// never fails.
#[derive(Debug)]
pub struct ByteOutput {
    bytes: Vec<u8>,
}

/// The error type of a port that never fails: no call of the port returns it.
#[derive(Debug, Clone, Copy, PartialEq, Eq, Structural)]
pub struct Never;

impl ByteOutput {
    /// The bytes written so far, the first one first.
    pub closed spec fn written(self) -> Seq<u8> {
        self.bytes@
    }

    /// A port to which nothing was written yet.
    pub fn new() -> (port: Self)
        ensures
            port.written() == Seq::<u8>::empty(),
    {
        ByteOutput { bytes: Vec::new() }
    }

    /// The bytes written so far, the first one first.
    pub fn bytes(&self) -> (bytes: &Vec<u8>)
        ensures
            bytes@ == self.written(),
    {
        &self.bytes
    }
}

impl OutputStream for ByteOutput {
    type Error = Never;

    fn write(&mut self, value: u8) -> (answer: Result<(), Never>)
        ensures
            answer is Ok,
            final(self).written() == old(self).written().push(value),
    {
        self.bytes.push(value);
        Ok(())
    }
}

/// Why a line of the decimal console is no byte.
#[derive(Debug, Clone, Copy, PartialEq, Eq, Structural)]
pub enum DecimalError {
    /// The line is shorter than one digit and a terminator, or longer than
    /// three digits and a terminator.
    BadInput,
    /// The line holds this character where a digit is expected.
    InvalidCharacter(char),
    /// The digits stand for a number above 255.
    NumberTooBig,
}

/// Whether `byte` is one of the ASCII digits `0` to `9`.
pub open spec fn is_digit(byte: u8) -> bool {
    0x30 <= byte <= 0x39
}

/// The first byte of `bytes` that is no digit, if there is one.
pub open spec fn first_non_digit(bytes: Seq<u8>) -> Option<u8>
    decreases bytes.len(),
{
    if bytes.len() == 0 {
        None
    } else if !is_digit(bytes[0]) {
        Some(bytes[0])
    } else {
        first_non_digit(bytes.skip(1))
    }
}

/// The number that the digits `digits` stand for in decimal notation, the most
/// significant digit first.
pub open spec fn decimal_value(digits: Seq<u8>) -> nat
    decreases digits.len(),
{
    if digits.len() == 0 {
        0
    } else {
        (decimal_value(digits.drop_last()) * 10 + (digits.last() - 0x30)) as nat
    }
}

/// The byte that a line of the decimal console stands for. The line is one to
/// three digits and one last byte, the terminator, which is not looked at.
pub open spec fn decimal_line(line: Seq<u8>) -> Result<u8, DecimalError> {
    if line.len() < 2 || line.len() > 4 {
        Err(DecimalError::BadInput)
    } else {
        let digits = line.drop_last();
        match first_non_digit(digits) {
            Some(byte) => Err(DecimalError::InvalidCharacter(byte as char)),
            None => if decimal_value(digits) > 255 {
                Err(DecimalError::NumberTooBig)
            } else {
                Ok(decimal_value(digits) as u8)
            },
        }
    }
}

/// Decodes one line of the decimal console: one to three decimal digits, the
/// most significant first, and a terminator.
pub fn decode_decimal(line: &[u8]) -> (answer: Result<u8, DecimalError>)
    ensures
        answer == decimal_line(line@),
{
    let length = line.len();
    if length < 2 || length > 4 {
        return Err(DecimalError::BadInput);
    }
    let ghost digits = line@.drop_last();
    let mut value: u16 = 0;
    let mut at: usize = 0;
    assert(digits.skip(0) =~= digits);
    assert(digits.take(0) =~= Seq::<u8>::empty());
    while at < length - 1
        invariant
            2 <= length <= 4,
            length == line@.len(),
            digits == line@.drop_last(),
            0 <= at <= length - 1,
            first_non_digit(digits.take(at as int)) is None,
            first_non_digit(digits) == first_non_digit(digits.skip(at as int)),
            value == decimal_value(digits.take(at as int)),
            at == 0 ==> value == 0,
            at == 1 ==> value <= 9,
            at == 2 ==> value <= 99,
            value <= 999,
        decreases length - 1 - at,
    {
        let byte = line[at];
        assert(digits.skip(at as int)[0] == byte);
        if byte < 0x30 || byte > 0x39 {
            return Err(DecimalError::InvalidCharacter(byte as char));
        }
        proof {
            assert(digits.skip(at as int).skip(1) =~= digits.skip(at + 1));
            assert(digits.take(at + 1).drop_last() =~= digits.take(at as int));
            assert(digits.take(at + 1).last() == byte);
            lemma_digits_extend(digits.take(at + 1));
        }
        value = value * 10 + (byte - 0x30) as u16;
        at += 1;
    }
    assert(digits.take(at as int) =~= digits);
    assert(digits.skip(at as int) =~= Seq::<u8>::empty());
    if value > 255 {
        Err(DecimalError::NumberTooBig)
    } else {
        Ok(value as u8)
    }
}

/// Digits followed by a digit are digits.
pub proof fn lemma_digits_extend(bytes: Seq<u8>)
    requires
        bytes.len() > 0,
        first_non_digit(bytes.drop_last()) is None,
        is_digit(bytes.last()),
    ensures
        first_non_digit(bytes) is None,
    decreases bytes.len(),
{
    if bytes.len() == 1 {
        assert(bytes.skip(1) =~= Seq::<u8>::empty());
    } else {
        assert(bytes.drop_last()[0] == bytes[0]);
        assert(bytes.drop_last().skip(1) =~= bytes.skip(1).drop_last());
        lemma_digits_extend(bytes.skip(1));
    }
}

} // verus!
