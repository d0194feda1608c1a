//! UTF-8 validation with a shift-based DFA, proved against the byte grammar of RFC 3629.
use vstd::prelude::*;
use vstd::utf8::valid_utf8;
use vstd::slice::slice_subrange;
use vstd::string::StringSliceAdditionalSpecFns;

use crate::dfa::{
    dfa_state, lemma_ascii_run, lemma_dfa_accepts, lemma_dfa_truncated, lemma_mask_is_mod,
    lemma_run_state, next_state, resolve_error_location, run, run_with_error_handling,
    ST_ACCEPT, ST_ERROR, STATE_MASK,
};
use crate::grammar::{
    invalid_len, is_truncated_char, lemma_invalid_is_final, lemma_invalid_len_bound,
    lemma_truncated_iff, lemma_valid_prefix_is_longest, lemma_valid_utf8_iff, valid_prefix_len,
};

pub mod grammar;
pub mod dfa;
pub mod lossy;

verus! {

/// Length of the invalid byte sequence of a UTF-8 error, or `Eof` when the input ends in
/// the middle of a character.
#[derive(Debug, Clone, Copy, PartialEq, Eq, Structural)]
pub enum Utf8ErrorLen {
    Eof,
    One,
    Two,
    Three,
}

/// Why a byte slice is not UTF-8: the length of its longest valid prefix, and the length
/// of the invalid byte sequence after it (or that the input ends inside a character).
#[derive(Debug, PartialEq, Eq, Structural)]
pub struct Utf8Error {
    pub valid_up_to: usize,
    pub error_len: Utf8ErrorLen,
}

impl Utf8Error {
    /// The length of the invalid byte sequence, or `None` when the input ended inside a
    /// character that more bytes could complete.
    pub fn error_len(&self) -> (len: Option<usize>)
        ensures
            len == match self.error_len {
                Utf8ErrorLen::Eof => None,
                Utf8ErrorLen::One => Some(1usize),
                Utf8ErrorLen::Two => Some(2usize),
                Utf8ErrorLen::Three => Some(3usize),
            },
    {
        match self.error_len {
            Utf8ErrorLen::Eof => None,
            Utf8ErrorLen::One => Some(1),
            Utf8ErrorLen::Two => Some(2),
            Utf8ErrorLen::Three => Some(3),
        }
    }

    /// The length of the longest valid UTF-8 prefix of the input.
    pub fn valid_up_to(&self) -> (n: usize)
        ensures
            n == self.valid_up_to,
    {
        self.valid_up_to
    }
}

/// Calls `std::str::from_utf8`. Its documentation states that it returns the string slice
/// whose bytes are `bytes` when they are valid UTF-8, and an error otherwise; the contract
/// claims that, with validity as vstd's `valid_utf8` defines it. The error is dropped.
#[verifier::external_body]
pub(crate) fn str_from_utf8(bytes: &[u8]) -> (s: Option<&str>)
    ensures
        s is Some <==> valid_utf8(bytes@),
        s matches Some(s) ==> s.spec_bytes() == bytes@,
{
    match std::str::from_utf8(bytes) {
        Ok(s) => Some(s),
        Err(_) => None,
    }
}

/// Converts `bytes` to a string slice when they are valid UTF-8, and otherwise reports
/// where and how they stop being valid.
pub fn from_utf8(bytes: &[u8]) -> (res: Result<&str, Utf8Error>)
    ensures
        res is Ok <==> valid_utf8(bytes@),
        res matches Ok(s) ==> s.spec_bytes() == bytes@,
        res matches Err(err) ==> validation_result(bytes@) == Err::<(), Utf8Error>(err),
{
    match run_utf8_validation::<16, 16>(bytes) {
        Ok(()) => match str_from_utf8(bytes) {
            Some(s) => Ok(s),
            None => {
                // Unreachable: both checks decide the same property of `bytes`.
                proof {
                    assert(false);
                }
                Err(Utf8Error { valid_up_to: 0, error_len: Utf8ErrorLen::Eof })
            },
        },
        Err(err) => Err(err),
    }
}

proof fn lemma_chunk_count(len: int, m: int)
    by (nonlinear_arith)
    requires
        len >= 0,
        m > 0,
    ensures
        len - len % m == (len / m) * m,
        0 <= len % m <= len,
{
}

proof fn lemma_next_chunk(left: int, m: int)
    by (nonlinear_arith)
    requires
        left * m > 0,
        m > 0,
    ensures
        left >= 1,
        left * m >= m,
        (left - 1) * m == left * m - m,
{
}

proof fn lemma_ascii_chunk_fits(pos: int, cnt: int, rest: int, a: int)
    by (nonlinear_arith)
    requires
        0 <= pos < cnt,
        cnt == rest / a,
        a > 0,
        rest >= 0,
    ensures
        pos * a + a == (pos + 1) * a,
        (pos + 1) * a <= rest,
{
}

proof fn lemma_skip_ascii_chunks(left: int, pos: int, a: int, m: int)
    by (nonlinear_arith)
    requires
        a % m == 0,
        m > 0,
        pos >= 0,
    ensures
        left * m - pos * a == (left - pos * (a / m)) * m,
{
}

/// Validates `bytes` with the DFA, `MAIN_CHUNK_SIZE` bytes at a time, skipping runs of
/// `ASCII_CHUNK_SIZE` ASCII bytes while nothing is pending.
pub fn run_utf8_validation<const MAIN_CHUNK_SIZE: usize, const ASCII_CHUNK_SIZE: usize>(
    bytes: &[u8],
) -> (res: Result<(), Utf8Error>)
    requires
        MAIN_CHUNK_SIZE > 0,
        ASCII_CHUNK_SIZE > 0,
        ASCII_CHUNK_SIZE % MAIN_CHUNK_SIZE == 0,
    ensures
        res == validation_result(bytes@),
{
    let len = bytes.len();
    let mut i = len % MAIN_CHUNK_SIZE;
    proof {
        lemma_chunk_count(len as int, MAIN_CHUNK_SIZE as int);
        assert(bytes@.subrange(0, i as int).take(0) == Seq::<u8>::empty());
    }
    // Start at the initial state ACCEPT, on the bytes that do not fill a chunk.
    let head = slice_subrange(bytes, 0, i);
    let mut st = match run_with_error_handling(ST_ACCEPT, head, 0) {
        Ok(st) => st,
        Err(err) => {
            proof {
                assert(head@ + bytes@.skip(i as int) == bytes@);
            }
            return Err(err);
        },
    };
    let ghost mut chunks_left: int = len as int / MAIN_CHUNK_SIZE as int;
    proof {
        assert(head@ == bytes@.take(i as int));
    }
    while i < len
        invariant
            len == bytes@.len(),
            i <= len,
            MAIN_CHUNK_SIZE > 0,
            ASCII_CHUNK_SIZE > 0,
            ASCII_CHUNK_SIZE % MAIN_CHUNK_SIZE == 0,
            len - i == chunks_left * MAIN_CHUNK_SIZE,
            st == run(bytes@.take(i as int)),
            dfa_state(bytes@.take(i as int)) != 0,
        ensures
            i == len,
        decreases len - i,
    {
        // Fast path: if the current state is ACCEPT, skip to the next chunk that is not all
        // ASCII. A look at the first byte keeps text with almost no ASCII off this path.
        if st == ST_ACCEPT && bytes[i] <= 0x7F {
            proof {
                lemma_run_state(bytes@.take(i as int));
            }
            let rest_len = len - i;
            let ascii_rest_chunk_cnt = rest_len / ASCII_CHUNK_SIZE;
            let mut pos: usize = 0;
            while pos < ascii_rest_chunk_cnt
                invariant
                    len == bytes@.len(),
                    i < len,
                    rest_len == len - i,
                    ASCII_CHUNK_SIZE > 0,
                    ascii_rest_chunk_cnt == rest_len / ASCII_CHUNK_SIZE,
                    pos <= ascii_rest_chunk_cnt,
                    pos * ASCII_CHUNK_SIZE <= rest_len,
                    run(bytes@.take(i + pos * ASCII_CHUNK_SIZE)) == ST_ACCEPT,
                    dfa_state(bytes@.take(i + pos * ASCII_CHUNK_SIZE)) == 1,
                decreases ascii_rest_chunk_cnt - pos,
            {
                proof {
                    lemma_ascii_chunk_fits(
                        pos as int,
                        ascii_rest_chunk_cnt as int,
                        rest_len as int,
                        ASCII_CHUNK_SIZE as int,
                    );
                }
                let start = i + pos * ASCII_CHUNK_SIZE;
                // Always traverse the whole chunk instead of stopping at the first non-ASCII
                // byte, so that the check vectorizes.
                let mut all_ascii = true;
                let mut k: usize = 0;
                while k < ASCII_CHUNK_SIZE
                    invariant
                        len == bytes@.len(),
                        start + ASCII_CHUNK_SIZE <= len,
                        k <= ASCII_CHUNK_SIZE,
                        all_ascii <==> forall|j: int| start <= j < start + k ==> bytes@[j] <= 0x7F,
                    decreases ASCII_CHUNK_SIZE - k,
                {
                    all_ascii = all_ascii && bytes[start + k] <= 0x7F;
                    k += 1;
                }
                if !all_ascii {
                    break;
                }
                proof {
                    lemma_ascii_run(bytes@, start as int, ASCII_CHUNK_SIZE as int);
                }
                pos += 1;
            }
            i += pos * ASCII_CHUNK_SIZE;
            proof {
                lemma_skip_ascii_chunks(
                    chunks_left,
                    pos as int,
                    ASCII_CHUNK_SIZE as int,
                    MAIN_CHUNK_SIZE as int,
                );
                chunks_left = chunks_left - pos * (ASCII_CHUNK_SIZE as int / MAIN_CHUNK_SIZE as int);
            }
            if i >= len {
                break;
            }
        }
        proof {
            lemma_next_chunk(chunks_left, MAIN_CHUNK_SIZE as int);
        }
        // `i + MAIN_CHUNK_SIZE` is in bounds: what is left is a whole number of chunks.
        let mut new_st = st;
        let mut k: usize = 0;
        while k < MAIN_CHUNK_SIZE
            invariant
                len == bytes@.len(),
                i + MAIN_CHUNK_SIZE <= len,
                k <= MAIN_CHUNK_SIZE,
                new_st == run(bytes@.take(i + k)),
            decreases MAIN_CHUNK_SIZE - k,
        {
            proof {
                assert(bytes@.take(i + k + 1).drop_last() == bytes@.take(i + k));
            }
            new_st = next_state(new_st, bytes[i + k]);
            k += 1;
        }
        proof {
            lemma_mask_is_mod(new_st);
            lemma_run_state(bytes@.take(i + MAIN_CHUNK_SIZE));
        }
        if new_st & STATE_MASK == ST_ERROR {
            // `st` is the state after the valid start `bytes[..i]`, and the next chunk fails.
            let res = run_with_error_handling(st, bytes, i);
            proof {
                if res is Ok {
                    crate::dfa::lemma_dfa_error_sticks(bytes@, i + MAIN_CHUNK_SIZE);
                }
                assert(bytes@ + Seq::<u8>::empty() == bytes@);
            }
            if let Err(err) = res {
                return Err(err);
            }
        }
        st = new_st;
        i += MAIN_CHUNK_SIZE;
        proof {
            chunks_left = chunks_left - 1;
        }
    }
    proof {
        assert(bytes@.take(i as int) == bytes@);
        lemma_mask_is_mod(st);
        lemma_run_state(bytes@);
        lemma_valid_utf8_iff(bytes@);
    }
    if st & STATE_MASK != ST_ACCEPT {
        proof {
            lemma_dfa_truncated(bytes@);
        }
        let mut err = resolve_error_location(st, bytes.len(), Ghost(bytes@));
        err.error_len = Utf8ErrorLen::Eof;
        return Err(err);
    }
    proof {
        lemma_dfa_accepts(bytes@);
    }
    Ok(())
}

/// Validates `bytes` by running the DFA byte by byte.
pub fn run_utf8_validation_const(bytes: &[u8]) -> (res: Result<(), Utf8Error>)
    ensures
        res == validation_result(bytes@),
{
    proof {
        assert(bytes@.take(0) == Seq::<u8>::empty());
    }
    // Start at the empty string, in the accepting state.
    match run_with_error_handling(ST_ACCEPT, bytes, 0) {
        Err(err) => {
            proof {
                assert(bytes@ + Seq::<u8>::empty() == bytes@);
            }
            Err(err)
        },
        Ok(st) => {
            proof {
                lemma_mask_is_mod(st);
                lemma_run_state(bytes@);
                lemma_valid_utf8_iff(bytes@);
            }
            if st & STATE_MASK == ST_ACCEPT {
                proof {
                    lemma_dfa_accepts(bytes@);
                }
                Ok(())
            } else {
                proof {
                    lemma_dfa_truncated(bytes@);
                }
                let mut err = resolve_error_location(st, bytes.len(), Ghost(bytes@));
                err.error_len = Utf8ErrorLen::Eof;
                Err(err)
            }
        },
    }
}

/// The error kind for a nonzero length of invalid bytes, and `Eof` for 0.
pub open spec fn error_len_code(n: nat) -> Utf8ErrorLen {
    if n == 0 {
        Utf8ErrorLen::Eof
    } else if n == 1 {
        Utf8ErrorLen::One
    } else if n == 2 {
        Utf8ErrorLen::Two
    } else {
        Utf8ErrorLen::Three
    }
}

/// What validating `s` yields: success when `s` is valid UTF-8, otherwise the length of
/// its longest valid prefix and how the bytes after it fail.
pub open spec fn validation_result(s: Seq<u8>) -> Result<(), Utf8Error> {
    if valid_utf8(s) {
        Ok(())
    } else {
        Err(
            Utf8Error {
                valid_up_to: valid_prefix_len(s) as usize,
                error_len: error_len_code(invalid_len(s)),
            },
        )
    }
}

/// The number of invalid bytes an error kind stands for, 0 for `Eof`.
pub open spec fn error_len_nat(len: Utf8ErrorLen) -> nat {
    match len {
        Utf8ErrorLen::Eof => 0,
        Utf8ErrorLen::One => 1,
        Utf8ErrorLen::Two => 2,
        Utf8ErrorLen::Three => 3,
    }
}

/// The valid prefix an error reports is valid UTF-8, and it is the longest: no longer
/// prefix of the input is valid.
pub proof fn lemma_valid_up_to_is_longest(s: Seq<u8>)
    requires
        s.len() <= usize::MAX,
    ensures
        validation_result(s) matches Err(e) ==> {
            &&& e.valid_up_to < s.len()
            &&& valid_utf8(s.take(e.valid_up_to as int))
            &&& forall|i: int| e.valid_up_to < i <= s.len() ==> !valid_utf8(#[trigger] s.take(i))
        },
{
    lemma_valid_utf8_iff(s);
    lemma_invalid_len_bound(s);
    let v = valid_prefix_len(s) as int;
    lemma_valid_prefix_is_longest(s, v);
    lemma_valid_utf8_iff(s.take(v));
    assert forall|i: int| v < i <= s.len() implies !valid_utf8(#[trigger] s.take(i)) by {
        lemma_valid_prefix_is_longest(s, i);
        lemma_valid_utf8_iff(s.take(i));
    }
}

/// The invalid bytes an error reports lie inside the input.
pub proof fn lemma_error_within_input(s: Seq<u8>)
    requires
        s.len() <= usize::MAX,
    ensures
        validation_result(s) matches Err(e) ==> e.valid_up_to + error_len_nat(e.error_len)
            <= s.len(),
{
    lemma_invalid_len_bound(s);
}

/// An error of kind `Eof` is reported exactly when the input ends with a character cut
/// short after its valid prefix: more bytes could still make it valid.
pub proof fn lemma_eof_iff_truncated(s: Seq<u8>)
    requires
        s.len() <= usize::MAX,
    ensures
        validation_result(s) matches Err(e) ==> (e.error_len == Utf8ErrorLen::Eof
            <==> is_truncated_char(s.skip(e.valid_up_to as int))),
{
    lemma_valid_utf8_iff(s);
    lemma_invalid_len_bound(s);
    if !valid_utf8(s) {
        lemma_truncated_iff(s);
    }
}

/// An error with an invalid byte sequence stays the same whatever bytes follow the input.
pub proof fn lemma_error_is_final(s: Seq<u8>, t: Seq<u8>)
    requires
        s.len() + t.len() <= usize::MAX,
        validation_result(s) matches Err(e) && e.error_len != Utf8ErrorLen::Eof,
    ensures
        validation_result(s + t) == validation_result(s),
{
    lemma_valid_utf8_iff(s);
    lemma_invalid_len_bound(s);
    lemma_invalid_is_final(s, t);
    lemma_valid_utf8_iff(s + t);
    lemma_invalid_len_bound(s + t);
}

} // verus!
