//! Why the body of a loop can always be built.
//!
//! The builder carves a body out between a `[` and the `]` that matches it.
//! Between the two, every `[` has its `]` and every `]` its `[`. So the
//! instructions of the body hold no error, whatever stands around the loop.

use vstd::prelude::*;
use crate::instruction::Instruction;
use crate::intermediate_representation::{
    build, build_from, build_next, is_counted, lemma_build_next_advances, lemma_loop_end_bounds,
    lemma_run_bounds, loop_end, run_end, Built,
};
use crate::lexer::{lemma_next_token, lemma_next_token_skips, next_token};
use crate::token::Token;

verus! {

/// Whether `byte` is no bracket: a comment or the symbol of another token.
pub open spec fn plain(byte: u8) -> bool {
    Token::of_byte(byte) != Some(Token::LoopStart) && Token::of_byte(byte) != Some(Token::LoopEnd)
}

/// Whether no item of `items` is an error.
pub open spec fn all_built(items: Seq<Built>) -> bool {
    forall|k: int| 0 <= k < items.len() ==> (#[trigger] items[k]) is Ok
}

/// The next token of a part of the source is the next token of the source,
/// where that lies in the part.
pub proof fn lemma_next_token_in_part(src: Seq<u8>, start: int, end: int, from: int)
    requires
        0 <= start <= end <= src.len(),
        0 <= from,
    ensures
        next_token(src.subrange(start, end), from) == match next_token(src, start + from) {
            Some((at, token)) => if at < end {
                Some((at - start, token))
            } else {
                None
            },
            None => None,
        },
    decreases end - start - from,
{
    let part = src.subrange(start, end);
    lemma_next_token(src, start + from);
    if from < end - start {
        assert(part[from] == src[start + from]);
        if Token::of_byte(part[from]) is None {
            lemma_next_token_in_part(src, start, end, from + 1);
        }
    }
}

/// Bytes that are no brackets do not matter to where a loop ends.
pub proof fn lemma_loop_end_skips_plain(src: Seq<u8>, from: int, to: int, depth: nat)
    requires
        0 <= from <= to <= src.len(),
        forall|j: int| from <= j < to ==> plain(#[trigger] src[j]),
    ensures
        loop_end(src, from, depth) == loop_end(src, to, depth),
    decreases to - from,
{
    lemma_next_token(src, from);
    match next_token(src, from) {
        Some((at, token)) => {
            if at < to {
                assert(plain(src[at]));
                lemma_loop_end_skips_plain(src, at + 1, to, depth);
            } else {
                lemma_next_token_skips(src, from, to);
            }
        },
        None => {
            lemma_next_token_skips(src, from, to);
        },
    }
}

/// A run of a counted token passes over no bracket.
pub proof fn lemma_run_is_plain(src: Seq<u8>, from: int, token: Token)
    requires
        0 <= from,
        is_counted(token),
    ensures
        forall|j: int| from <= j < run_end(src, from, token) ==> plain(#[trigger] src[j]),
    decreases src.len() - from,
{
    lemma_next_token(src, from);
    match next_token(src, from) {
        Some((at, found)) => {
            if found == token {
                lemma_run_is_plain(src, at + 1, token);
            }
        },
        None => {},
    }
}

/// A loop that ends `inner + outer` brackets up ends `inner` brackets up
/// first, and from there `outer` brackets up at the same place.
pub proof fn lemma_loop_end_splits(src: Seq<u8>, from: int, inner: nat, outer: nat, end: int)
    requires
        0 <= from,
        inner >= 1,
        outer >= 1,
        loop_end(src, from, inner + outer) == Some(end),
    ensures
        loop_end(src, from, inner) matches Some(first) && first < end && loop_end(
            src,
            first + 1,
            outer,
        ) == Some(end),
    decreases src.len() - from,
{
    lemma_next_token(src, from);
    match next_token(src, from) {
        Some((at, found)) => {
            match found {
                Token::LoopStart => {
                    lemma_loop_end_splits(src, at + 1, inner + 1, outer, end);
                },
                Token::LoopEnd => {
                    if inner == 1 {
                        lemma_loop_end_bounds(src, at + 1, outer);
                    } else {
                        lemma_loop_end_splits(src, at + 1, (inner - 1) as nat, outer, end);
                    }
                },
                _ => {
                    lemma_loop_end_splits(src, at + 1, inner, outer, end);
                },
            }
        },
        None => {},
    }
}

/// Where a loop ends inside a part of the source, it ends there in the part
/// taken alone.
pub proof fn lemma_loop_end_in_part(
    src: Seq<u8>,
    start: int,
    end: int,
    from: int,
    depth: nat,
    found: int,
)
    requires
        0 <= start <= end <= src.len(),
        0 <= from,
        loop_end(src, start + from, depth) == Some(found),
        found < end,
    ensures
        loop_end(src.subrange(start, end), from, depth) == Some(found - start),
    decreases src.len() - start - from,
{
    lemma_next_token(src, start + from);
    lemma_next_token_in_part(src, start, end, from);
    lemma_loop_end_bounds(src, start + from, depth);
    match next_token(src, start + from) {
        Some((at, token)) => {
            match token {
                Token::LoopStart => {
                    lemma_loop_end_bounds(src, at + 1, depth + 1);
                    lemma_loop_end_in_part(src, start, end, at + 1 - start, depth + 1, found);
                },
                Token::LoopEnd => {
                    if depth > 1 {
                        lemma_loop_end_bounds(src, at + 1, (depth - 1) as nat);
                        lemma_loop_end_in_part(
                            src,
                            start,
                            end,
                            at + 1 - start,
                            (depth - 1) as nat,
                            found,
                        );
                    }
                },
                _ => {
                    lemma_loop_end_bounds(src, at + 1, depth);
                    lemma_loop_end_in_part(src, start, end, at + 1 - start, depth, found);
                },
            }
        },
        None => {},
    }
}

/// From an offset of a body at which no loop of the body is open, the body
/// builds without an error.
pub proof fn lemma_body_builds_from(src: Seq<u8>, start: int, end: int, from: int)
    requires
        0 <= start,
        0 <= from,
        loop_end(src, start + from, 1) == Some(end),
    ensures
        all_built(build_from(src.subrange(start, end), from)),
    decreases end - start - from,
{
    let body = src.subrange(start, end);
    lemma_loop_end_bounds(src, start + from, 1);
    lemma_next_token(src, start + from);
    lemma_next_token_in_part(src, start, end, from);
    lemma_next_token(body, from);
    let (at, token) = next_token(src, start + from).unwrap();
    if token != Token::LoopEnd {
        let depth: nat = if token == Token::LoopStart {
            2
        } else {
            1
        };
        lemma_loop_end_bounds(src, at + 1, depth);
        let here = at - start;
        assert(next_token(body, from) == Some((here, token)));
        lemma_build_next_advances(body, from);
        let behind = build_next(body, from).unwrap().1;
        assert(build_next(body, from).unwrap().0 is Ok) by {
            if token == Token::LoopStart {
                lemma_loop_end_splits(src, at + 1, 1, 1, end);
                let first = loop_end(src, at + 1, 1).unwrap();
                lemma_loop_end_in_part(src, start, end, here + 1, 1, first);
            }
        }
        assert(loop_end(src, start + behind, 1) == Some(end)) by {
            if token == Token::LoopStart {
                lemma_loop_end_splits(src, at + 1, 1, 1, end);
                let first = loop_end(src, at + 1, 1).unwrap();
                lemma_loop_end_in_part(src, start, end, here + 1, 1, first);
            } else {
                if is_counted(token) {
                    lemma_run_is_plain(body, here + 1, token);
                    lemma_run_bounds(body, here + 1, token);
                }
                assert forall|j: int| start + from <= j < start + behind implies plain(
                    #[trigger] src[j],
                ) by {
                    assert(src[j] == body[j - start]);
                }
                lemma_loop_end_skips_plain(src, start + from, start + behind, 1);
            }
        }
        lemma_body_builds_from(src, start, end, behind);
        let rest = build_from(body, behind);
        let all = build_from(body, from);
        assert(all == seq![build_next(body, from).unwrap().0] + rest);
        assert forall|k: int| 0 <= k < all.len() implies (#[trigger] all[k]) is Ok by {
            if k > 0 {
                assert(all[k] == rest[k - 1]);
            }
        }
    }
}

/// Every loop that the builder yields has a body that builds without an error:
/// its brackets match among themselves.
pub proof fn lemma_loop_body_is_well_formed(src: Seq<u8>, from: int)
    requires
        0 <= from,
    ensures
        build_next(src, from) matches Some((Ok(Instruction::Loop(body)), _)) ==> all_built(
            build(body.0),
        ),
{
    lemma_next_token(src, from);
    match next_token(src, from) {
        Some((at, token)) => {
            if token == Token::LoopStart && loop_end(src, at + 1, 1) is Some {
                let end = loop_end(src, at + 1, 1).unwrap();
                lemma_body_builds_from(src, at + 1, end, 0);
            }
        },
        None => {},
    }
}

} // verus!
