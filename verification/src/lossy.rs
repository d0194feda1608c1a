//! Splitting bytes into runs of valid UTF-8, each followed by the invalid bytes after it.
use vstd::prelude::*;
use vstd::slice::slice_subrange;
use vstd::string::StringSliceAdditionalSpecFns;
use vstd::utf8::valid_utf8;

use crate::grammar::{
    char_prefix_run, encoded_len, first_char_len, invalid_len, is_char_prefix, is_truncated_char,
    lemma_char_prefix_take, lemma_invalid_len_bound, lemma_rest_has_no_first_char,
    lemma_truncated_iff, lemma_valid_prefix_is_longest, lemma_valid_utf8_iff, valid_prefix_len,
};
use crate::{error_len_nat, run_utf8_validation, str_from_utf8, validation_result, Utf8ErrorLen};

verus! {

/// A valid UTF-8 run and the invalid bytes that follow it.
#[derive(Clone, Debug, PartialEq, Eq)]
pub struct Utf8Chunk<'a> {
    pub valid: &'a str,
    pub invalid: &'a [u8],
}

/// The chunks of a byte slice, taken one by one with `next`.
#[derive(Clone)]
pub struct Utf8Chunks<'a, const MAIN_CHUNK_SIZE: usize, const ASCII_CHUNK_SIZE: usize> {
    source: &'a [u8],
}

impl<'a, const MAIN_CHUNK_SIZE: usize, const ASCII_CHUNK_SIZE: usize> View for Utf8Chunks<
    'a,
    MAIN_CHUNK_SIZE,
    ASCII_CHUNK_SIZE,
> {
    type V = Seq<u8>;

    /// The bytes not split into chunks yet.
    closed spec fn view(&self) -> Seq<u8> {
        self.source@
    }
}

/// The chunks of `source`.
pub fn to_utf8_chunks<const MAIN_CHUNK_SIZE: usize, const ASCII_CHUNK_SIZE: usize>(
    source: &[u8],
) -> (chunks: Utf8Chunks<'_, MAIN_CHUNK_SIZE, ASCII_CHUNK_SIZE>)
    ensures
        chunks@ == source@,
{
    Utf8Chunks { source }
}

/// The length of the invalid bytes that the next chunk of `s` takes: the invalid byte
/// sequence, or all that is left after the valid prefix when the input ends inside a
/// character.
pub open spec fn chunk_invalid_len(s: Seq<u8>) -> nat {
    if invalid_len(s) == 0 {
        (s.len() - valid_prefix_len(s)) as nat
    } else {
        invalid_len(s)
    }
}

/// Length of the valid text of the next chunk of `s`: all of `s` when it is valid UTF-8,
/// otherwise its valid prefix.
pub open spec fn chunk_valid_len(s: Seq<u8>) -> nat {
    if valid_utf8(s) {
        s.len()
    } else {
        valid_prefix_len(s)
    }
}

/// Length of the invalid bytes of the next chunk of `s`: none when `s` is valid UTF-8.
pub open spec fn chunk_taken_invalid_len(s: Seq<u8>) -> nat {
    if valid_utf8(s) {
        0
    } else {
        chunk_invalid_len(s)
    }
}

/// The whole sequence of chunks of `s`, each as its valid bytes and its invalid bytes.
pub open spec fn chunk_sequence(s: Seq<u8>) -> Seq<(Seq<u8>, Seq<u8>)>
    decreases s.len(),
{
    let v = chunk_valid_len(s) as int;
    let n = chunk_taken_invalid_len(s) as int;
    if s.len() == 0 || v + n == 0 || v + n > s.len() {
        Seq::empty()
    } else {
        seq![(s.take(v), s.subrange(v, v + n))] + chunk_sequence(s.skip(v + n))
    }
}

/// The bytes of a sequence of chunks, in order.
pub open spec fn join_chunks(cs: Seq<(Seq<u8>, Seq<u8>)>) -> Seq<u8>
    decreases cs.len(),
{
    if cs.len() == 0 {
        Seq::empty()
    } else {
        cs[0].0 + cs[0].1 + join_chunks(cs.drop_first())
    }
}

/// A nonempty input always gives a nonempty first chunk that lies inside it.
proof fn lemma_next_chunk_bounds(s: Seq<u8>)
    requires
        s.len() > 0,
    ensures
        0 < chunk_valid_len(s) + chunk_taken_invalid_len(s) <= s.len(),
        !valid_utf8(s) ==> chunk_taken_invalid_len(s) > 0,
        valid_utf8(s.take(chunk_valid_len(s) as int)),
{
    lemma_valid_utf8_iff(s);
    lemma_invalid_len_bound(s);
    if valid_utf8(s) {
        assert(s.take(s.len() as int) == s);
    } else {
        let v = valid_prefix_len(s) as int;
        lemma_valid_prefix_is_longest(s, v);
        lemma_valid_utf8_iff(s.take(v));
    }
}

/// The chunks of `s`, put back together, are `s`; the valid text of each is valid UTF-8;
/// and only the last chunk can have no invalid bytes.
pub proof fn lemma_chunk_sequence(s: Seq<u8>)
    ensures
        join_chunks(chunk_sequence(s)) == s,
        forall|i: int|
            0 <= i < chunk_sequence(s).len() ==> valid_utf8(#[trigger] chunk_sequence(s)[i].0),
        forall|i: int|
            0 <= i < chunk_sequence(s).len() && #[trigger] chunk_sequence(s)[i].1.len() == 0 ==> i
                == chunk_sequence(s).len() - 1,
    decreases s.len(),
{
    if s.len() == 0 {
        assert(join_chunks(chunk_sequence(s)) == Seq::<u8>::empty());
    } else {
        lemma_next_chunk_bounds(s);
        let v = chunk_valid_len(s) as int;
        let n = chunk_taken_invalid_len(s) as int;
        let rest = s.skip(v + n);
        lemma_chunk_sequence(rest);
        let cs = chunk_sequence(s);
        let first = (s.take(v), s.subrange(v, v + n));
        assert(cs == seq![first] + chunk_sequence(rest));
        assert(cs.drop_first() == chunk_sequence(rest));
        assert(s.take(v) + s.subrange(v, v + n) + rest == s);
        assert forall|i: int| 0 <= i < cs.len() implies valid_utf8(#[trigger] cs[i].0) by {
            if i > 0 {
                assert(cs[i] == chunk_sequence(rest)[i - 1]);
            }
        }
        assert forall|i: int| 0 <= i < cs.len() && #[trigger] cs[i].1.len() == 0 implies i == cs.len()
            - 1 by {
            if i > 0 {
                assert(cs[i] == chunk_sequence(rest)[i - 1]);
            } else {
                lemma_valid_utf8_iff(s);
                assert(rest.len() == 0);
                assert(chunk_sequence(rest).len() == 0);
            }
        }
    }
}

/// `s[..v]`, `s[v..v + k]` and `s[v + k..]` split `s` the way a chunk does: the valid
/// text is the longest valid prefix; there are invalid bytes unless that prefix is all of
/// `s`; the invalid bytes are one byte or the start of a character cut short; and the byte
/// after them, if any, cannot continue them.
pub open spec fn is_chunk_split(s: Seq<u8>, v: int, k: int) -> bool {
    &&& 0 <= v
    &&& 0 <= k
    &&& v + k <= s.len()
    &&& valid_utf8(s.take(v))
    &&& forall|i: int| v < i <= s.len() ==> !valid_utf8(#[trigger] s.take(i))
    &&& (k == 0 ==> v == s.len())
    &&& (k > 0 ==> k == 1 || is_truncated_char(s.subrange(v, v + k)))
    &&& (k > 0 && v + k < s.len() ==> !is_char_prefix(s.subrange(v, v + k + 1)))
}

/// A byte sequence has at most one chunk split: the one that `next` makes.
pub proof fn lemma_chunk_split_unique(s: Seq<u8>, v1: int, k1: int, v2: int, k2: int)
    requires
        is_chunk_split(s, v1, k1),
        is_chunk_split(s, v2, k2),
    ensures
        v1 == v2,
        k1 == k2,
{
    if v1 < v2 {
        assert(valid_utf8(s.take(v2)));
    }
    if v2 < v1 {
        assert(valid_utf8(s.take(v1)));
    }
    lemma_chunk_split_invalid_bound(s, v1, k1, k2);
    lemma_chunk_split_invalid_bound(s, v1, k2, k1);
}

/// With the same valid text, a chunk split's invalid bytes are no shorter than another's.
proof fn lemma_chunk_split_invalid_bound(s: Seq<u8>, v: int, k1: int, k2: int)
    requires
        is_chunk_split(s, v, k1),
        is_chunk_split(s, v, k2),
    ensures
        k2 <= k1,
{
    if k1 < k2 {
        let longer = s.subrange(v, v + k2);
        lemma_char_prefix_take(longer, k1 + 1);
        assert(longer.take(k1 + 1) == s.subrange(v, v + k1 + 1));
    }
}

/// The first chunk of a nonempty input, as `chunk_sequence` takes it, is a chunk split.
pub proof fn lemma_chunk_split_exists(s: Seq<u8>)
    requires
        s.len() > 0,
    ensures
        is_chunk_split(s, chunk_valid_len(s) as int, chunk_taken_invalid_len(s) as int),
{
    lemma_valid_utf8_iff(s);
    lemma_invalid_len_bound(s);
    if valid_utf8(s) {
        assert(s.take(s.len() as int) == s);
    } else {
        let v = valid_prefix_len(s) as int;
        lemma_valid_prefix_is_longest(s, v);
        lemma_valid_utf8_iff(s.take(v));
        assert forall|i: int| v < i <= s.len() implies !valid_utf8(#[trigger] s.take(i)) by {
            lemma_valid_prefix_is_longest(s, i);
            lemma_valid_utf8_iff(s.take(i));
        }
        lemma_rest_has_no_first_char(s);
        let y = s.skip(v);
        let k = chunk_invalid_len(s) as int;
        assert(s.subrange(v, v + k) == y.take(k));
        if invalid_len(s) == 0 {
            lemma_truncated_iff(s);
            assert(y.take(y.len() as int) == y);
        } else {
            let r = char_prefix_run(y) as int;
            if k >= 2 {
                let p = y.take(k);
                assert(p[0] == y[0]);
                if p.len() == encoded_len(p[0]) {
                    assert(y.take(encoded_len(y[0]) as int) == p);
                    assert(first_char_len(y) > 0);
                }
            }
            if v + k < s.len() {
                assert(s.subrange(v, v + k + 1) == y.take(k + 1));
                if r == 0 {
                    if is_char_prefix(y.take(2)) {
                        lemma_char_prefix_take(y.take(2), 1);
                        assert(y.take(2).take(1) == y.take(1));
                    }
                }
            }
        }
    }
}

impl<'a, const MAIN_CHUNK_SIZE: usize, const ASCII_CHUNK_SIZE: usize> Utf8Chunks<
    'a,
    MAIN_CHUNK_SIZE,
    ASCII_CHUNK_SIZE,
> {
    /// The next chunk: `None` once nothing is left. When what is left is valid UTF-8, it is
    /// the chunk's valid text, with no invalid bytes, and nothing is left. Otherwise the
    /// chunk is the valid prefix and the invalid bytes after it, and the rest is left for
    /// the next call. The chunk and what is left always make up what was left before, and
    /// the chunk is the first of `chunk_sequence` of what was left, the others being those
    /// of what is left now.
    pub fn next(&mut self) -> (chunk: Option<Utf8Chunk<'a>>)
        requires
            MAIN_CHUNK_SIZE > 0,
            ASCII_CHUNK_SIZE > 0,
            ASCII_CHUNK_SIZE % MAIN_CHUNK_SIZE == 0,
        ensures
            old(self)@.len() == 0 ==> chunk is None && final(self)@ == old(self)@,
            old(self)@.len() > 0 && valid_utf8(old(self)@) ==> {
                &&& chunk matches Some(c)
                &&& c.valid.spec_bytes() == old(self)@
                &&& c.invalid@ == Seq::<u8>::empty()
                &&& final(self)@ == Seq::<u8>::empty()
            },
            chunk matches Some(c) ==> c.valid.spec_bytes() + c.invalid@ + final(self)@ == old(
                self,
            )@,
            chunk matches Some(c) ==> chunk_sequence(old(self)@) == seq![
                (c.valid.spec_bytes(), c.invalid@),
            ] + chunk_sequence(final(self)@),
            chunk matches Some(c) ==> is_chunk_split(
                old(self)@,
                c.valid.spec_bytes().len() as int,
                c.invalid@.len() as int,
            ),
            chunk matches Some(c) ==> (validation_result(old(self)@) matches Err(e) ==> {
                &&& c.valid.spec_bytes().len() == e.valid_up_to
                &&& c.invalid@.len() == if e.error_len == Utf8ErrorLen::Eof {
                    (old(self)@.len() - e.valid_up_to) as nat
                } else {
                    error_len_nat(e.error_len)
                }
            }),
            old(self)@.len() > 0 && !valid_utf8(old(self)@) ==> {
                let s = old(self)@;
                let v = valid_prefix_len(s) as int;
                let n = chunk_invalid_len(s) as int;
                &&& chunk matches Some(c)
                &&& c.valid.spec_bytes() == s.take(v)
                &&& c.invalid@ == s.subrange(v, v + n)
                &&& final(self)@ == s.skip(v + n)
                &&& n > 0
                &&& c.valid.spec_bytes() + c.invalid@ + final(self)@ == s
            },
    {
        if self.source.len() == 0 {
            return None;
        }
        let ghost s = self.source@;
        proof {
            lemma_next_chunk_bounds(s);
            lemma_chunk_split_exists(s);
        }
        match run_utf8_validation::<MAIN_CHUNK_SIZE, ASCII_CHUNK_SIZE>(self.source) {
            Ok(()) => {
                // The whole rest is valid: it is the chunk, and nothing is left.
                let valid = self.source;
                let invalid = slice_subrange(valid, 0, 0);
                self.source = slice_subrange(valid, 0, 0);
                proof {
                    assert(s + Seq::<u8>::empty() + Seq::<u8>::empty() == s);
                    let l = s.len() as int;
                    assert(s.take(l) == s);
                    assert(s.subrange(l, l) == Seq::<u8>::empty());
                    assert(s.skip(l) == self.source@);
                    assert(chunk_sequence(s) == seq![(s.take(l), s.subrange(l, l))]
                        + chunk_sequence(s.skip(l)));
                }
                match str_from_utf8(valid) {
                    Some(valid) => Some(Utf8Chunk { valid, invalid }),
                    None => None,
                }
            },
            Err(err) => {
                proof {
                    lemma_invalid_len_bound(s);
                    lemma_valid_utf8_iff(s);
                    let v = valid_prefix_len(s) as int;
                    lemma_valid_prefix_is_longest(s, v);
                    lemma_valid_utf8_iff(s.take(v));
                }
                let valid_up_to = err.valid_up_to();
                let error_len = err.error_len().unwrap_or(self.source.len() - valid_up_to);
                let valid = slice_subrange(self.source, 0, valid_up_to);
                let remaining = slice_subrange(self.source, valid_up_to, self.source.len());
                let invalid = slice_subrange(remaining, 0, error_len);
                let after_invalid = slice_subrange(remaining, error_len, remaining.len());
                self.source = after_invalid;
                proof {
                    let v = valid_up_to as int;
                    let n = error_len as int;
                    assert(invalid@ == s.subrange(v, v + n));
                    assert(after_invalid@ == s.skip(v + n));
                    assert(s.take(v) + s.subrange(v, v + n) + s.skip(v + n) == s);
                    assert(chunk_sequence(s) == seq![(s.take(v), s.subrange(v, v + n))]
                        + chunk_sequence(s.skip(v + n)));
                }
                match str_from_utf8(valid) {
                    Some(valid) => Some(Utf8Chunk { valid, invalid }),
                    None => None,
                }
            },
        }
    }
}

} // verus!
