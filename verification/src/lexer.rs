//! The lexer: from source bytes to tokens with their offsets.
//!
//! A source text is a sequence of bytes. A byte that is the symbol of a token
//! yields that token; every other byte is a comment and yields nothing. An
//! offset is the zero-based index of a byte in the source.

use vstd::prelude::*;
use vstd::string::StringSliceAdditionalSpecFns;
use crate::token::Token;

verus! {

/// The first token of `src` at or after offset `from`, with its offset.
pub open spec fn next_token(src: Seq<u8>, from: int) -> Option<(int, Token)>
    decreases src.len() - from,
{
    if from < 0 || from >= src.len() {
        None
    } else {
        match Token::of_byte(src[from]) {
            Some(token) => Some((from, token)),
            None => next_token(src, from + 1),
        }
    }
}

/// The tokens of `src` at or after offset `from`, in source order, each with
/// its offset.
pub open spec fn lex_from(src: Seq<u8>, from: int) -> Seq<(int, Token)>
    decreases src.len() - from,
{
    if from < 0 || from >= src.len() {
        Seq::empty()
    } else {
        match Token::of_byte(src[from]) {
            Some(token) => seq![(from, token)] + lex_from(src, from + 1),
            None => lex_from(src, from + 1),
        }
    }
}

/// The tokens of the whole of `src`.
pub open spec fn lex(src: Seq<u8>) -> Seq<(int, Token)> {
    lex_from(src, 0)
}

/// The number of bytes of `src` at or after offset `from` that are symbols.
pub open spec fn count_symbols(src: Seq<u8>, from: int) -> nat
    decreases src.len() - from,
{
    if from < 0 || from >= src.len() {
        0
    } else if Token::of_byte(src[from]) is Some {
        1 + count_symbols(src, from + 1)
    } else {
        count_symbols(src, from + 1)
    }
}

/// What `next_token` finds is the first symbol at or after `from`: it lies in
/// the source, is the symbol of the token found, and only comments lie between
/// `from` and it. Where it finds nothing, only comments follow `from`.
pub proof fn lemma_next_token(src: Seq<u8>, from: int)
    requires
        0 <= from,
    ensures
        match next_token(src, from) {
            Some((at, token)) => {
                &&& from <= at < src.len()
                &&& Token::of_byte(src[at]) == Some(token)
                &&& forall|j: int| from <= j < at ==> Token::of_byte(#[trigger] src[j]) is None
            },
            None => forall|j: int| from <= j < src.len() ==> Token::of_byte(#[trigger] src[j]) is None,
        },
    decreases src.len() - from,
{
    if from < src.len() && Token::of_byte(src[from]) is None {
        lemma_next_token(src, from + 1);
    }
}

/// Comments do not matter to what comes next: from any offset up to the token
/// that `next_token` finds, it finds the same token.
pub proof fn lemma_next_token_skips(src: Seq<u8>, from: int, mid: int)
    requires
        0 <= from <= mid,
        forall|j: int| from <= j < mid ==> Token::of_byte(#[trigger] src[j]) is None,
    ensures
        next_token(src, from) == next_token(src, mid),
    decreases mid - from,
{
    if from < mid {
        if from < src.len() {
            assert(Token::of_byte(src[from]) is None);
            lemma_next_token_skips(src, from + 1, mid);
        } else {
            lemma_next_token_skips(src, from + 1, mid);
        }
    }
}

/// The token sequence starts with the next token and goes on behind it.
pub proof fn lemma_lex_from_unfold(src: Seq<u8>, from: int)
    requires
        0 <= from,
    ensures
        lex_from(src, from) == match next_token(src, from) {
            Some((at, token)) => seq![(at, token)] + lex_from(src, at + 1),
            None => Seq::empty(),
        },
    decreases src.len() - from,
{
    if from < src.len() && Token::of_byte(src[from]) is None {
        lemma_lex_from_unfold(src, from + 1);
    }
}

/// The lexer's output holds exactly one entry for each symbol of the source, in
/// source order, each with its own offset, and no entry for a comment: every
/// entry names an offset of the source at or after `from` and the token of the
/// byte there; the offsets increase strictly; every symbol at or after `from`
/// has an entry; and there are as many entries as symbols.
pub proof fn lemma_lex_from_exact(src: Seq<u8>, from: int)
    requires
        0 <= from,
    ensures
        forall|k: int|
            0 <= k < lex_from(src, from).len() ==> {
                let (at, token) = #[trigger] lex_from(src, from)[k];
                from <= at < src.len() && Token::of_byte(src[at]) == Some(token)
            },
        forall|k: int, l: int|
            0 <= k < l < lex_from(src, from).len() ==> (#[trigger] lex_from(src, from)[k]).0 < (
            #[trigger] lex_from(src, from)[l]).0,
        forall|at: int|
            from <= at < src.len() && Token::of_byte(#[trigger] src[at]) is Some ==> exists|k: int|
                0 <= k < lex_from(src, from).len() && (#[trigger] lex_from(src, from)[k]).0 == at,
        lex_from(src, from).len() == count_symbols(src, from),
    decreases src.len() - from,
{
    if from < src.len() {
        lemma_lex_from_exact(src, from + 1);
        let rest = lex_from(src, from + 1);
        let all = lex_from(src, from);
        match Token::of_byte(src[from]) {
            Some(token) => {
                assert(all == seq![(from, token)] + rest);
                assert(all[0] == (from, token));
                assert forall|k: int| 1 <= k < all.len() implies #[trigger] all[k] == rest[k - 1] by {}
                assert forall|at: int|
                    from <= at < src.len() && Token::of_byte(#[trigger] src[at]) is Some implies exists|
                    k: int|
                    0 <= k < all.len() && (#[trigger] all[k]).0 == at by {
                    if at == from {
                        assert(all[0].0 == at);
                    } else {
                        let k = choose|k: int| 0 <= k < rest.len() && (#[trigger] rest[k]).0 == at;
                        assert(all[k + 1].0 == at);
                    }
                }
                assert forall|k: int, l: int| 0 <= k < l < all.len() implies (#[trigger] all[k]).0 < (
                #[trigger] all[l]).0 by {
                    assert(all[l] == rest[l - 1]);
                    if k > 0 {
                        assert(all[k] == rest[k - 1]);
                    }
                }
            },
            None => {},
        }
    }
}

/// The tokens of a source are its symbols: every entry of `lex(src)` names an
/// offset of the source and the token of the byte there, the offsets increase
/// strictly, every symbol of the source has an entry, and there are as many
/// entries as symbols. So a comment has no entry, and no symbol has two.
pub proof fn lemma_lex_exact(src: Seq<u8>)
    ensures
        forall|k: int|
            0 <= k < lex(src).len() ==> {
                let (at, token) = #[trigger] lex(src)[k];
                0 <= at < src.len() && Token::of_byte(src[at]) == Some(token)
            },
        forall|k: int, l: int|
            0 <= k < l < lex(src).len() ==> (#[trigger] lex(src)[k]).0 < (#[trigger] lex(src)[l]).0,
        forall|at: int|
            0 <= at < src.len() && Token::of_byte(#[trigger] src[at]) is Some ==> exists|k: int|
                0 <= k < lex(src).len() && (#[trigger] lex(src)[k]).0 == at,
        lex(src).len() == count_symbols(src, 0),
{
    lemma_lex_from_exact(src, 0);
}

/// Scans a source text for tokens, one at a time and from front to back.
#[derive(Debug)]
pub struct Lexer<'a> {
    source: &'a [u8],
    index: usize,
}

impl<'a> Lexer<'a> {
    #[verifier::type_invariant]
    spec fn in_bounds(self) -> bool {
        self.index <= self.source@.len()
    }

    /// The source text that is scanned.
    pub closed spec fn source(self) -> Seq<u8> {
        self.source@
    }

    /// The offset of the first byte that was not yet scanned.
    pub closed spec fn position(self) -> int {
        self.index as int
    }

    /// The tokens that are still to come.
    pub open spec fn remaining(self) -> Seq<(int, Token)> {
        lex_from(self.source(), self.position())
    }

    /// A lexer at the start of `source`.
    pub fn new(source: &'a [u8]) -> (lexer: Self)
        ensures
            lexer.source() == source@,
            lexer.position() == 0,
    {
        Lexer { source, index: 0 }
    }

    /// The offset of the first byte that was not yet scanned.
    pub fn index(&self) -> (index: usize)
        ensures
            index == self.position(),
            index <= self.source().len(),
    {
        proof {
            use_type_invariant(self);
        }
        self.index
    }

    /// The next token with its offset, or `None` at the end of the source. The
    /// bytes up to and including the token's symbol are then scanned.
    pub fn next(&mut self) -> (item: Option<(usize, Token)>)
        ensures
            final(self).source() == old(self).source(),
            0 <= old(self).position() <= old(self).source().len() <= usize::MAX,
            match next_token(old(self).source(), old(self).position()) {
                Some((at, token)) => item == Some((at as usize, token)) && final(self).position() == at
                    + 1,
                None => item is None && final(self).position() == old(self).source().len(),
            },
    {
        proof {
            use_type_invariant(&*self);
        }
        let length = self.source.len();
        while self.index < length
            invariant
                length == self.source@.len(),
                self.index <= length,
                self.source == old(self).source,
                next_token(self.source@, old(self).index as int) == next_token(
                    self.source@,
                    self.index as int,
                ),
            decreases self.source@.len() - self.index,
        {
            let byte = self.source[self.index];
            self.index += 1;
            if let Ok(token) = Token::try_from(byte) {
                return Some((self.index - 1, token));
            }
        }
        None
    }

    /// The source text that is scanned.
    pub fn text(&self) -> (text: &'a [u8])
        ensures
            text@ == self.source(),
    {
        self.source
    }

    /// Scans the rest of the source and drops it: no token is left afterwards.
    pub fn finish(&mut self)
        ensures
            final(self).source() == old(self).source(),
            final(self).position() == old(self).source().len(),
            0 <= old(self).position() <= old(self).source().len() <= usize::MAX,
    {
        proof {
            use_type_invariant(&*self);
        }
        self.index = self.source.len();
    }

    /// The token that `next` would return, without scanning anything.
    pub fn peek(&self) -> (item: Option<(usize, Token)>)
        ensures
            0 <= self.position() <= self.source().len() <= usize::MAX,
            match next_token(self.source(), self.position()) {
                Some((at, token)) => item == Some((at as usize, token)),
                None => item is None,
            },
    {
        proof {
            use_type_invariant(self);
        }
        let mut at = self.index;
        while at < self.source.len()
            invariant
                self.index <= at <= self.source@.len(),
                next_token(self.source@, self.index as int) == next_token(self.source@, at as int),
            decreases self.source@.len() - at,
        {
            if let Ok(token) = Token::try_from(self.source[at]) {
                return Some((at, token));
            }
            at += 1;
        }
        None
    }
}

/// All tokens of `source` with their offsets, in source order.
pub fn tokenize(source: &[u8]) -> (tokens: Vec<(usize, Token)>)
    ensures
        tokens@.len() == lex(source@).len(),
        forall|k: int|
            0 <= k < tokens@.len() ==> (#[trigger] tokens@[k]).0 == lex(source@)[k].0 && tokens@[k].1
                == lex(source@)[k].1,
{
    let mut lexer = Lexer::new(source);
    let mut tokens: Vec<(usize, Token)> = Vec::new();
    loop
        invariant
            lexer.source() == source@,
            0 <= lexer.position(),
            lex(source@).len() == tokens@.len() + lex_from(source@, lexer.position()).len(),
            forall|k: int|
                0 <= k < tokens@.len() ==> (#[trigger] tokens@[k]).0 == lex(source@)[k].0
                    && tokens@[k].1 == lex(source@)[k].1,
            forall|k: int|
                0 <= k < lex_from(source@, lexer.position()).len() ==> lex(source@)[tokens@.len() + k]
                    == #[trigger] lex_from(source@, lexer.position())[k],
        ensures
            tokens@.len() == lex(source@).len(),
            forall|k: int|
                0 <= k < tokens@.len() ==> (#[trigger] tokens@[k]).0 == lex(source@)[k].0
                    && tokens@[k].1 == lex(source@)[k].1,
        decreases source@.len() - lexer.position(),
    {
        proof {
            lemma_lex_from_unfold(source@, lexer.position());
            lemma_next_token(source@, lexer.position());
        }
        let ghost before = lex_from(source@, lexer.position());
        match lexer.next() {
            Some(item) => {
                proof {
                    let after = lex_from(source@, lexer.position());
                    assert(before[0] == (item.0 as int, item.1));
                    assert forall|k: int| 0 <= k < after.len() implies lex(source@)[tokens@.len() + 1
                        + k] == #[trigger] after[k] by {
                        assert(before[k + 1] == after[k]);
                    }
                }
                tokens.push(item);
            },
            None => {
                break ;
            },
        }
    }
    tokens
}

/// A source text that can be scanned for tokens.
pub trait TokenIterator<'a> {
    /// The bytes of the source text.
    spec fn source_bytes(&self) -> Seq<u8>;

    /// A lexer at the start of this source text.
    fn iter_token(&'a self) -> (lexer: Lexer<'a>)
        ensures
            lexer.source() == self.source_bytes(),
            lexer.position() == 0,
    ;
}

impl<'a> TokenIterator<'a> for [u8] {
    open spec fn source_bytes(&self) -> Seq<u8> {
        self@
    }

    fn iter_token(&'a self) -> (lexer: Lexer<'a>) {
        Lexer::new(self)
    }
}

impl<'a> TokenIterator<'a> for str {
    open spec fn source_bytes(&self) -> Seq<u8> {
        self.spec_bytes()
    }

    fn iter_token(&'a self) -> (lexer: Lexer<'a>) {
        Lexer::new(self.as_bytes())
    }
}

} // verus!
