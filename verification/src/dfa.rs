//! The shift-based DFA: each of its states is stored as a 5-bit offset, and one 32-bit
//! word per input byte packs the offsets of the targets of all transitions on that byte.
//! Running the DFA is one shift per byte. What the DFA computes is proved here against
//! the byte grammar of `grammar`.
use vstd::prelude::*;

use vstd::utf8::valid_utf8;

use crate::grammar::{
    encoded_len, first_char_len, invalid_len, is_char, is_char_prefix, is_tail, is_truncated_char,
    lemma_char_prefix_take, lemma_no_first_char, lemma_valid_prefix_len_append,
    lemma_valid_prefix_len_bound, lemma_valid_push_char, lemma_valid_utf8_iff, valid_prefix_len,
};
use crate::{error_len_code, validation_result, Utf8Error, Utf8ErrorLen};

verus! {

/// Width of the field that holds a state.
pub const BITS_PER_STATE: u32 = 5;

/// Mask of the field that holds a state: `(1 << BITS_PER_STATE) - 1`.
pub const STATE_MASK: u32 = 0x1F;

/// Number of states of the DFA.
pub const STATE_CNT: usize = 10;

/// Offset of S0, the error state.
pub const ST_ERROR: u32 = 0;

/// Offset of S1, the accepting state, where the DFA starts.
pub const ST_ACCEPT: u32 = 6;

/// Offset of S2, the state one tail byte before the end of a character.
pub const ST_ONE_MORE: u32 = 16;

/// Offset of S9, the state two tail bytes before the end of a four-byte character.
pub const ST_TWO_MORE_OF_FOUR: u32 = 1;

/// Position of the bits of a full state word that tell how many bytes of the current
/// character have been read in S2 and S9.
pub const OFFSET_ERROR_LEN_DISCR: u32 = 25;

/// Table from those bits to that count.
pub const CVT_ERROR_LEN: u32 = 0x30302;

/// The offset at which state `s` (S0 to S9) is stored.
pub open spec fn state_offset(s: int) -> u32 {
    if s == 0 {
        0
    } else if s == 1 {
        6
    } else if s == 2 {
        16
    } else if s == 3 {
        19
    } else if s == 4 {
        13
    } else if s == 5 {
        25
    } else if s == 6 {
        11
    } else if s == 7 {
        18
    } else if s == 8 {
        24
    } else {
        1
    }
}

/// The DFA read off the grammar, with a state between each two bytes:
/// ```text
/// UTF8-1 = <S1> %x00-7F
/// UTF8-2 = <S1> %xC2-DF             <S2> UTF8-tail
/// UTF8-3 = <S1> %xE0                <S3> %xA0-BF   <S2> UTF8-tail /
///          <S1> (%xE1-EC / %xEE-EF) <S4> UTF8-tail <S2> UTF8-tail /
///          <S1> %xED                <S5> %x80-9F   <S2> UTF8-tail
/// UTF8-4 = <S1> %xF0                <S6> %x90-BF   <S9> UTF8-tail <S2> UTF8-tail /
///          <S1> %xF1-F3             <S7> UTF8-tail <S9> UTF8-tail <S2> UTF8-tail /
///          <S1> %xF4                <S8> %x80-8F   <S9> UTF8-tail <S2> UTF8-tail
/// ```
/// S0 is the error state; every byte that no rule allows leads there, and it is never left.
pub open spec fn dfa_step(s: int, b: u8) -> int {
    if s == 1 {
        if b <= 0x7F {
            1
        } else if 0xC2 <= b <= 0xDF {
            2
        } else if b == 0xE0 {
            3
        } else if (0xE1 <= b <= 0xEC) || (0xEE <= b <= 0xEF) {
            4
        } else if b == 0xED {
            5
        } else if b == 0xF0 {
            6
        } else if 0xF1 <= b <= 0xF3 {
            7
        } else if b == 0xF4 {
            8
        } else {
            0
        }
    } else if s == 2 {
        if is_tail(b) { 1 } else { 0 }
    } else if s == 4 || s == 9 {
        if is_tail(b) { 2 } else { 0 }
    } else if s == 3 {
        if 0xA0 <= b <= 0xBF { 2 } else { 0 }
    } else if s == 5 {
        if 0x80 <= b <= 0x9F { 2 } else { 0 }
    } else if s == 6 {
        if 0x90 <= b <= 0xBF { 9 } else { 0 }
    } else if s == 7 {
        if is_tail(b) { 9 } else { 0 }
    } else if s == 8 {
        if 0x80 <= b <= 0x8F { 9 } else { 0 }
    } else {
        0
    }
}

/// The packed transition word of byte `b`.
pub open spec fn transition_row(b: u8) -> u32 {
    if b <= 0x7F {
        0x180
    } else if 0xC2 <= b <= 0xDF {
        0x80000400
    } else if b == 0xE0 {
        0x4C0
    } else if (0xE1 <= b <= 0xEC) || (0xEE <= b <= 0xEF) {
        0x340
    } else if b == 0xED {
        0x640
    } else if b == 0xF0 {
        0x2C0
    } else if 0xF1 <= b <= 0xF3 {
        0x480
    } else if b == 0xF4 {
        0x600
    } else if 0x80 <= b <= 0x8F {
        0x21060020
    } else if 0x90 <= b <= 0x9F {
        0x20060820
    } else if 0xA0 <= b <= 0xBF {
        0x40860820
    } else {
        0
    }
}

/// One step of the packed DFA on a full state word: only its low 5 bits select the field.
pub open spec fn next_state_spec(st: u32, b: u8) -> u32 {
    transition_row(b) >> (st % 32)
}

/// The full state word after running the packed DFA from S1 over `p`.
pub open spec fn run(p: Seq<u8>) -> u32
    decreases p.len(),
{
    if p.len() == 0 {
        ST_ACCEPT
    } else {
        next_state_spec(run(p.drop_last()), p.last())
    }
}

/// The state of the grammar's DFA after `p`.
pub open spec fn dfa_state(p: Seq<u8>) -> int
    decreases p.len(),
{
    if p.len() == 0 {
        1
    } else {
        dfa_step(dfa_state(p.drop_last()), p.last())
    }
}

/// The bytes of the character that `p` ends in the middle of, if any: what is left after
/// reading `p` as whole characters for as long as it goes.
pub open spec fn pending(p: Seq<u8>) -> Seq<u8>
    decreases p.len(),
{
    if p.len() == 0 {
        Seq::empty()
    } else {
        let q = pending(p.drop_last()).push(p.last());
        if is_char(q) {
            Seq::empty()
        } else {
            q
        }
    }
}

/// The DFA state that a pending, incomplete character stands for.
pub open spec fn pending_state(r: Seq<u8>) -> int {
    if r.len() == 0 {
        1
    } else if encoded_len(r[0]) == r.len() + 1 {
        2
    } else if r.len() == 1 {
        if r[0] == 0xE0 {
            3
        } else if r[0] == 0xED {
            5
        } else if 0xE1 <= r[0] <= 0xEF {
            4
        } else if r[0] == 0xF0 {
            6
        } else if r[0] == 0xF4 {
            8
        } else {
            7
        }
    } else {
        9
    }
}

/// The count of bytes read of the current character that the high bits of a full state
/// word encode.
pub open spec fn error_len_bits(full_st: u32) -> u8 {
    ((CVT_ERROR_LEN >> ((full_st >> OFFSET_ERROR_LEN_DISCR) % 32)) as u8) & 3
}

// ---------------------------------------------------------------------------------------
// The packed table agrees with the DFA.
// ---------------------------------------------------------------------------------------

proof fn lemma_transition_rows()
    by (bit_vector)
    ensures
        (0x180u32 >> 0u32) % 32u32 == 0u32,
        (0x180u32 >> 6u32) % 32u32 == 6u32,
        (0x180u32 >> 16u32) % 32u32 == 0u32,
        (0x180u32 >> 19u32) % 32u32 == 0u32,
        (0x180u32 >> 13u32) % 32u32 == 0u32,
        (0x180u32 >> 25u32) % 32u32 == 0u32,
        (0x180u32 >> 11u32) % 32u32 == 0u32,
        (0x180u32 >> 18u32) % 32u32 == 0u32,
        (0x180u32 >> 24u32) % 32u32 == 0u32,
        (0x180u32 >> 1u32) % 32u32 == 0u32,
        (0x80000400u32 >> 0u32) % 32u32 == 0u32,
        (0x80000400u32 >> 6u32) % 32u32 == 16u32,
        (0x80000400u32 >> 16u32) % 32u32 == 0u32,
        (0x80000400u32 >> 19u32) % 32u32 == 0u32,
        (0x80000400u32 >> 13u32) % 32u32 == 0u32,
        (0x80000400u32 >> 25u32) % 32u32 == 0u32,
        (0x80000400u32 >> 11u32) % 32u32 == 0u32,
        (0x80000400u32 >> 18u32) % 32u32 == 0u32,
        (0x80000400u32 >> 24u32) % 32u32 == 0u32,
        (0x80000400u32 >> 1u32) % 32u32 == 0u32,
        (0x4c0u32 >> 0u32) % 32u32 == 0u32,
        (0x4c0u32 >> 6u32) % 32u32 == 19u32,
        (0x4c0u32 >> 16u32) % 32u32 == 0u32,
        (0x4c0u32 >> 19u32) % 32u32 == 0u32,
        (0x4c0u32 >> 13u32) % 32u32 == 0u32,
        (0x4c0u32 >> 25u32) % 32u32 == 0u32,
        (0x4c0u32 >> 11u32) % 32u32 == 0u32,
        (0x4c0u32 >> 18u32) % 32u32 == 0u32,
        (0x4c0u32 >> 24u32) % 32u32 == 0u32,
        (0x4c0u32 >> 1u32) % 32u32 == 0u32,
        (0x340u32 >> 0u32) % 32u32 == 0u32,
        (0x340u32 >> 6u32) % 32u32 == 13u32,
        (0x340u32 >> 16u32) % 32u32 == 0u32,
        (0x340u32 >> 19u32) % 32u32 == 0u32,
        (0x340u32 >> 13u32) % 32u32 == 0u32,
        (0x340u32 >> 25u32) % 32u32 == 0u32,
        (0x340u32 >> 11u32) % 32u32 == 0u32,
        (0x340u32 >> 18u32) % 32u32 == 0u32,
        (0x340u32 >> 24u32) % 32u32 == 0u32,
        (0x340u32 >> 1u32) % 32u32 == 0u32,
        (0x640u32 >> 0u32) % 32u32 == 0u32,
        (0x640u32 >> 6u32) % 32u32 == 25u32,
        (0x640u32 >> 16u32) % 32u32 == 0u32,
        (0x640u32 >> 19u32) % 32u32 == 0u32,
        (0x640u32 >> 13u32) % 32u32 == 0u32,
        (0x640u32 >> 25u32) % 32u32 == 0u32,
        (0x640u32 >> 11u32) % 32u32 == 0u32,
        (0x640u32 >> 18u32) % 32u32 == 0u32,
        (0x640u32 >> 24u32) % 32u32 == 0u32,
        (0x640u32 >> 1u32) % 32u32 == 0u32,
        (0x2c0u32 >> 0u32) % 32u32 == 0u32,
        (0x2c0u32 >> 6u32) % 32u32 == 11u32,
        (0x2c0u32 >> 16u32) % 32u32 == 0u32,
        (0x2c0u32 >> 19u32) % 32u32 == 0u32,
        (0x2c0u32 >> 13u32) % 32u32 == 0u32,
        (0x2c0u32 >> 25u32) % 32u32 == 0u32,
        (0x2c0u32 >> 11u32) % 32u32 == 0u32,
        (0x2c0u32 >> 18u32) % 32u32 == 0u32,
        (0x2c0u32 >> 24u32) % 32u32 == 0u32,
        (0x2c0u32 >> 1u32) % 32u32 == 0u32,
        (0x480u32 >> 0u32) % 32u32 == 0u32,
        (0x480u32 >> 6u32) % 32u32 == 18u32,
        (0x480u32 >> 16u32) % 32u32 == 0u32,
        (0x480u32 >> 19u32) % 32u32 == 0u32,
        (0x480u32 >> 13u32) % 32u32 == 0u32,
        (0x480u32 >> 25u32) % 32u32 == 0u32,
        (0x480u32 >> 11u32) % 32u32 == 0u32,
        (0x480u32 >> 18u32) % 32u32 == 0u32,
        (0x480u32 >> 24u32) % 32u32 == 0u32,
        (0x480u32 >> 1u32) % 32u32 == 0u32,
        (0x600u32 >> 0u32) % 32u32 == 0u32,
        (0x600u32 >> 6u32) % 32u32 == 24u32,
        (0x600u32 >> 16u32) % 32u32 == 0u32,
        (0x600u32 >> 19u32) % 32u32 == 0u32,
        (0x600u32 >> 13u32) % 32u32 == 0u32,
        (0x600u32 >> 25u32) % 32u32 == 0u32,
        (0x600u32 >> 11u32) % 32u32 == 0u32,
        (0x600u32 >> 18u32) % 32u32 == 0u32,
        (0x600u32 >> 24u32) % 32u32 == 0u32,
        (0x600u32 >> 1u32) % 32u32 == 0u32,
        (0x21060020u32 >> 0u32) % 32u32 == 0u32,
        (0x21060020u32 >> 6u32) % 32u32 == 0u32,
        (0x21060020u32 >> 16u32) % 32u32 == 6u32,
        (0x21060020u32 >> 19u32) % 32u32 == 0u32,
        (0x21060020u32 >> 13u32) % 32u32 == 16u32,
        (0x21060020u32 >> 25u32) % 32u32 == 16u32,
        (0x21060020u32 >> 11u32) % 32u32 == 0u32,
        (0x21060020u32 >> 18u32) % 32u32 == 1u32,
        (0x21060020u32 >> 24u32) % 32u32 == 1u32,
        (0x21060020u32 >> 1u32) % 32u32 == 16u32,
        (0x20060820u32 >> 0u32) % 32u32 == 0u32,
        (0x20060820u32 >> 6u32) % 32u32 == 0u32,
        (0x20060820u32 >> 16u32) % 32u32 == 6u32,
        (0x20060820u32 >> 19u32) % 32u32 == 0u32,
        (0x20060820u32 >> 13u32) % 32u32 == 16u32,
        (0x20060820u32 >> 25u32) % 32u32 == 16u32,
        (0x20060820u32 >> 11u32) % 32u32 == 1u32,
        (0x20060820u32 >> 18u32) % 32u32 == 1u32,
        (0x20060820u32 >> 24u32) % 32u32 == 0u32,
        (0x20060820u32 >> 1u32) % 32u32 == 16u32,
        (0x40860820u32 >> 0u32) % 32u32 == 0u32,
        (0x40860820u32 >> 6u32) % 32u32 == 0u32,
        (0x40860820u32 >> 16u32) % 32u32 == 6u32,
        (0x40860820u32 >> 19u32) % 32u32 == 16u32,
        (0x40860820u32 >> 13u32) % 32u32 == 16u32,
        (0x40860820u32 >> 25u32) % 32u32 == 0u32,
        (0x40860820u32 >> 11u32) % 32u32 == 1u32,
        (0x40860820u32 >> 18u32) % 32u32 == 1u32,
        (0x40860820u32 >> 24u32) % 32u32 == 0u32,
        (0x40860820u32 >> 1u32) % 32u32 == 16u32,
        (0x0u32 >> 0u32) % 32u32 == 0u32,
        (0x0u32 >> 6u32) % 32u32 == 0u32,
        (0x0u32 >> 16u32) % 32u32 == 0u32,
        (0x0u32 >> 19u32) % 32u32 == 0u32,
        (0x0u32 >> 13u32) % 32u32 == 0u32,
        (0x0u32 >> 25u32) % 32u32 == 0u32,
        (0x0u32 >> 11u32) % 32u32 == 0u32,
        (0x0u32 >> 18u32) % 32u32 == 0u32,
        (0x0u32 >> 24u32) % 32u32 == 0u32,
        (0x0u32 >> 1u32) % 32u32 == 0u32,
{
}

proof fn lemma_ascii_row()
    by (bit_vector)
    ensures
        0x180u32 >> 6u32 == 6u32,
{
}

proof fn lemma_error_len_rows()
    by (bit_vector)
    ensures
        ((0x30302u32 >> (((0x80000400u32 >> 6u32) >> 25u32) % 32u32)) as u8) & 3u8 == 1u8,
        ((0x30302u32 >> (((0x21060020u32 >> 13u32) >> 25u32) % 32u32)) as u8) & 3u8 == 2u8,
        ((0x30302u32 >> (((0x21060020u32 >> 25u32) >> 25u32) % 32u32)) as u8) & 3u8 == 2u8,
        ((0x30302u32 >> (((0x21060020u32 >> 18u32) >> 25u32) % 32u32)) as u8) & 3u8 == 2u8,
        ((0x30302u32 >> (((0x21060020u32 >> 24u32) >> 25u32) % 32u32)) as u8) & 3u8 == 2u8,
        ((0x30302u32 >> (((0x21060020u32 >> 1u32) >> 25u32) % 32u32)) as u8) & 3u8 == 3u8,
        ((0x30302u32 >> (((0x20060820u32 >> 13u32) >> 25u32) % 32u32)) as u8) & 3u8 == 2u8,
        ((0x30302u32 >> (((0x20060820u32 >> 25u32) >> 25u32) % 32u32)) as u8) & 3u8 == 2u8,
        ((0x30302u32 >> (((0x20060820u32 >> 11u32) >> 25u32) % 32u32)) as u8) & 3u8 == 2u8,
        ((0x30302u32 >> (((0x20060820u32 >> 18u32) >> 25u32) % 32u32)) as u8) & 3u8 == 2u8,
        ((0x30302u32 >> (((0x20060820u32 >> 1u32) >> 25u32) % 32u32)) as u8) & 3u8 == 3u8,
        ((0x30302u32 >> (((0x40860820u32 >> 19u32) >> 25u32) % 32u32)) as u8) & 3u8 == 2u8,
        ((0x30302u32 >> (((0x40860820u32 >> 13u32) >> 25u32) % 32u32)) as u8) & 3u8 == 2u8,
        ((0x30302u32 >> (((0x40860820u32 >> 11u32) >> 25u32) % 32u32)) as u8) & 3u8 == 2u8,
        ((0x30302u32 >> (((0x40860820u32 >> 18u32) >> 25u32) % 32u32)) as u8) & 3u8 == 2u8,
        ((0x30302u32 >> (((0x40860820u32 >> 1u32) >> 25u32) % 32u32)) as u8) & 3u8 == 3u8,

{
}

/// One packed step moves the state field as the DFA moves.
pub(crate) proof fn lemma_step_offset(s: int, b: u8)
    requires
        0 <= s <= 9,
    ensures
        (transition_row(b) >> state_offset(s)) % 32 == state_offset(dfa_step(s, b)),
{
    lemma_transition_rows();
}

/// In S2 and S9 the high bits of the full state word give the bytes read of the character.
proof fn lemma_step_error_len(s: int, b: u8)
    requires
        0 <= s <= 9,
        dfa_step(s, b) == 2 || dfa_step(s, b) == 9,
    ensures
        error_len_bits(transition_row(b) >> state_offset(s)) == (if s == 1 {
            1u8
        } else if s == 9 {
            3u8
        } else {
            2u8
        }),
{
    lemma_error_len_rows();
}

/// The state field of the packed run is the offset of the DFA's state.
pub(crate) proof fn lemma_run_state(p: Seq<u8>)
    ensures
        0 <= dfa_state(p) <= 9,
        run(p) % 32 == state_offset(dfa_state(p)),
    decreases p.len(),
{
    if p.len() > 0 {
        lemma_run_state(p.drop_last());
        lemma_step_offset(dfa_state(p.drop_last()), p.last());
    }
}

/// Masking with `STATE_MASK` is taking the state field.
pub(crate) proof fn lemma_mask_is_mod(x: u32)
    ensures
        x & STATE_MASK == x % 32,
{
    assert(x & 0x1F == x % 32) by (bit_vector);
}

// ---------------------------------------------------------------------------------------
// The DFA agrees with the grammar.
// ---------------------------------------------------------------------------------------

/// From the state of an incomplete character, one more byte completes it, extends it or
/// is an error, as the grammar says.
pub(crate) proof fn lemma_step_pending(r: Seq<u8>, b: u8)
    requires
        r.len() == 0 || is_truncated_char(r),
    ensures
        dfa_step(pending_state(r), b) == (if is_char(r.push(b)) {
            1
        } else if is_char_prefix(r.push(b)) {
            pending_state(r.push(b))
        } else {
            0
        }),
        is_char_prefix(r.push(b)) && !is_char(r.push(b)) ==> is_truncated_char(r.push(b)),
{
    let q = r.push(b);
    assert(q[q.len() - 1] == b);
    if r.len() > 0 {
        assert(q[0] == r[0]);
    }
    if r.len() > 1 {
        assert(q[1] == r[1]);
    }
    if r.len() > 2 {
        assert(q[2] == r[2]);
    }
}

/// Where the DFA has not failed, its input is whole characters followed by the pending
/// part of one more, and its state is the state of that pending part.
pub(crate) proof fn lemma_dfa_decomposition(p: Seq<u8>)
    requires
        dfa_state(p) != 0,
    ensures
        pending(p).len() == 0 || is_truncated_char(pending(p)),
        pending(p).len() <= p.len(),
        p.skip(p.len() - pending(p).len()) == pending(p),
        valid_prefix_len(p.take(p.len() - pending(p).len())) == p.len() - pending(p).len(),
        dfa_state(p) == pending_state(pending(p)),
    decreases p.len(),
{
    if p.len() == 0 {
        assert(p.take(0).len() == 0);
        assert(first_char_len(p.take(0)) == 0);
    } else {
        let q = p.drop_last();
        let b = p.last();
        lemma_dfa_decomposition(q);
        let r0 = pending(q);
        let n0 = q.len() - r0.len();
        lemma_step_pending(r0, b);
        let x = r0.push(b);
        assert(q == q.take(n0) + r0) by {
            assert(q.take(n0) + q.skip(n0) == q);
        }
        assert(p == q.push(b));
        assert(p == q.take(n0) + x);
        if is_char(x) {
            lemma_valid_push_char(q.take(n0), x);
            assert(p.take(p.len() as int) == p);
            assert(p.skip(p.len() as int).len() == 0);
        } else {
            assert(p.take(n0) == q.take(n0));
            assert(p.skip(n0) == x);
        }
    }
}

/// The DFA fails on a byte exactly when the pending part followed by that byte cannot
/// begin a character.
pub(crate) proof fn lemma_dfa_error(p: Seq<u8>, b: u8)
    requires
        dfa_state(p) != 0,
    ensures
        (dfa_step(dfa_state(p), b) == 0) <==> !is_char_prefix(pending(p).push(b)),
{
    lemma_dfa_decomposition(p);
    lemma_step_pending(pending(p), b);
}

/// The error state is never left.
pub(crate) proof fn lemma_dfa_error_sticks(p: Seq<u8>, k: int)
    requires
        0 <= k <= p.len(),
        dfa_state(p.take(k)) == 0,
    ensures
        dfa_state(p) == 0,
    decreases p.len() - k,
{
    if k < p.len() {
        let p1 = p.take(k + 1);
        assert(p1.drop_last() == p.take(k));
        assert(dfa_state(p1) == 0);
        assert(p1.take(k + 1) == p1);
        lemma_dfa_error_sticks(p, k + 1);
    } else {
        assert(p.take(k) == p);
    }
}

/// In S2 and S9 the high bits of the full state word count the pending bytes.
pub(crate) proof fn lemma_error_len_bits(p: Seq<u8>)
    requires
        dfa_state(p) == 2 || dfa_state(p) == 9,
    ensures
        error_len_bits(run(p)) == pending(p).len(),
{
    let q = p.drop_last();
    let b = p.last();
    lemma_dfa_decomposition(p);
    lemma_dfa_decomposition(q);
    lemma_run_state(q);
    lemma_step_pending(pending(q), b);
    lemma_step_error_len(dfa_state(q), b);
}

/// A run that ends in S1 read whole characters.
pub(crate) proof fn lemma_dfa_accepts(p: Seq<u8>)
    requires
        dfa_state(p) == 1,
    ensures
        valid_prefix_len(p) == p.len(),
{
    lemma_dfa_decomposition(p);
    assert(p.take(p.len() as int) == p);
}

/// A run that ends inside a character reports a character cut short by the end.
pub(crate) proof fn lemma_dfa_truncated(p: Seq<u8>)
    requires
        dfa_state(p) != 0,
        dfa_state(p) != 1,
    ensures
        pending(p).len() > 0,
        valid_prefix_len(p) == p.len() - pending(p).len(),
        invalid_len(p) == 0,
{
    lemma_dfa_decomposition(p);
    let r = pending(p);
    let n = p.len() - r.len();
    assert(p == p.take(n) + r) by {
        assert(p.take(n) + p.skip(n) == p);
    }
    lemma_valid_prefix_len_append(p.take(n), r);
    assert(first_char_len(r) == 0);
    assert(r.take(r.len() as int) == r);
}

/// A run that fails on byte `b` after `p` reports, for any input that starts with
/// `p` and `b`, the start of the pending part as the end of the valid prefix, and the
/// pending bytes (at least one) as the invalid sequence.
pub(crate) proof fn lemma_dfa_rejects(p: Seq<u8>, b: u8, t: Seq<u8>)
    requires
        dfa_state(p) != 0,
        dfa_step(dfa_state(p), b) == 0,
    ensures
        valid_prefix_len(p.push(b) + t) == p.len() - pending(p).len(),
        invalid_len(p.push(b) + t) == (if pending(p).len() == 0 {
            1
        } else {
            pending(p).len()
        }),
{
    lemma_dfa_decomposition(p);
    lemma_dfa_error(p, b);
    let r = pending(p);
    let n = p.len() - r.len();
    let y = r.push(b) + t;
    let s = p.push(b) + t;
    assert(p == p.take(n) + r) by {
        assert(p.take(n) + p.skip(n) == p);
    }
    assert(s == p.take(n) + y);
    lemma_valid_prefix_len_append(p.take(n), y);
    let k = (r.len() + 1) as int;
    assert(y.take(k) == r.push(b));
    if r.len() > 0 {
        assert(y[0] == r[0]);
    } else {
        assert(y[0] == b);
    }
    lemma_no_first_char(y, k);
    assert(valid_prefix_len(y) == 0);
    assert(s.skip(n) == y);
    // Only the pending bytes can begin a character.
    assert forall|j: int| k <= j <= y.len() implies !is_char_prefix(#[trigger] y.take(j)) by {
        if is_char_prefix(y.take(j)) {
            lemma_char_prefix_take(y.take(j), k);
            assert(y.take(j).take(k) == y.take(k));
        }
    }
    if r.len() > 0 {
        assert(y.take(r.len() as int) == r);
    }
}

/// ASCII bytes read in S1, with nothing pending, leave the full state word at S1.
pub(crate) proof fn lemma_ascii_run(s: Seq<u8>, j: int, n: int)
    requires
        0 <= j,
        0 <= n,
        j + n <= s.len(),
        run(s.take(j)) == ST_ACCEPT,
        dfa_state(s.take(j)) == 1,
        forall|k: int| j <= k < j + n ==> s[k] <= 0x7F,
    ensures
        run(s.take(j + n)) == ST_ACCEPT,
        dfa_state(s.take(j + n)) == 1,
    decreases n,
{
    if n > 0 {
        lemma_ascii_run(s, j, n - 1);
        let p = s.take(j + n);
        assert(p.drop_last() == s.take(j + n - 1));
        assert(p.last() == s[j + n - 1]);
        lemma_ascii_row();
    }
}

/// The packed transition word of `byte`.
fn transition(byte: u8) -> (t: u32)
    ensures
        t == transition_row(byte),
{
    if byte <= 0x7F {
        0x180
    } else if 0xC2 <= byte && byte <= 0xDF {
        0x80000400
    } else if byte == 0xE0 {
        0x4C0
    } else if (0xE1 <= byte && byte <= 0xEC) || (0xEE <= byte && byte <= 0xEF) {
        0x340
    } else if byte == 0xED {
        0x640
    } else if byte == 0xF0 {
        0x2C0
    } else if 0xF1 <= byte && byte <= 0xF3 {
        0x480
    } else if byte == 0xF4 {
        0x600
    } else if 0x80 <= byte && byte <= 0x8F {
        0x21060020
    } else if 0x90 <= byte && byte <= 0x9F {
        0x20060820
    } else if 0xA0 <= byte && byte <= 0xBF {
        0x40860820
    } else {
        0
    }
}

/// One step of the DFA: the field of the transition word of `byte` selected by the state
/// field of `st`, with everything above it.
pub fn next_state(st: u32, byte: u8) -> (r: u32)
    ensures
        r == next_state_spec(st, byte),
{
    transition(byte).wrapping_shr(st)
}

/// The error reported when the DFA, at full state `full_st` after the `i` bytes of `p`,
/// fails on the next byte (or meets the end of the input; the caller then marks it so):
/// the valid prefix ends where the pending character starts, and the invalid sequence is
/// that character's bytes read so far, at least one.
pub(crate) fn resolve_error_location(full_st: u32, i: usize, Ghost(p): Ghost<Seq<u8>>) -> (err:
    Utf8Error)
    requires
        dfa_state(p) != 0,
        run(p) == full_st,
        p.len() == i,
        dfa_state(p) == 1 ==> i < usize::MAX,
    ensures
        err.valid_up_to == i - pending(p).len(),
        err.error_len == error_len_code(
            if pending(p).len() == 0 {
                1
            } else {
                pending(p).len()
            },
        ),
{
    let st = full_st & STATE_MASK;
    // S2 and S9 require inspecting higher bits to decide the prefix length.
    let error_len_s2_s9 = CVT_ERROR_LEN.wrapping_shr(full_st >> OFFSET_ERROR_LEN_DISCR) as u8 & 3;
    proof {
        lemma_mask_is_mod(full_st);
        lemma_run_state(p);
        lemma_dfa_decomposition(p);
        if dfa_state(p) == 2 || dfa_state(p) == 9 {
            lemma_error_len_bits(p);
        }
    }
    let mut i = i;
    if st == ST_ACCEPT {
        i += 1;
    }
    let error_len: u8 = if st == ST_ONE_MORE || st == ST_TWO_MORE_OF_FOUR {
        error_len_s2_s9
    } else {
        1
    };
    Utf8Error {
        valid_up_to: i - error_len as usize,
        error_len: match error_len {
            1 => Utf8ErrorLen::One,
            2 => Utf8ErrorLen::Two,
            _ => Utf8ErrorLen::Three,
        },
    }
}

/// Runs the DFA over `bytes` from position `i`, where it is in full state `st` after the
/// valid start `bytes[..i]`. Returns the full state at the end, or the error at the first
/// byte on which the DFA fails; that error is the one of every input that starts with
/// `bytes`.
pub(crate) fn run_with_error_handling(st: u32, bytes: &[u8], i: usize) -> (res: Result<u32, Utf8Error>)
    requires
        i <= bytes@.len(),
        st == run(bytes@.take(i as int)),
        dfa_state(bytes@.take(i as int)) != 0,
    ensures
        match res {
            Ok(end_st) => dfa_state(bytes@) != 0 && end_st == run(bytes@),
            Err(err) => dfa_state(bytes@) == 0 && forall|t: Seq<u8>|
                #[trigger] validation_result(bytes@ + t) == Err::<(), Utf8Error>(err),
        },
{
    let mut st = st;
    let mut i = i;
    while i < bytes.len()
        invariant
            i <= bytes@.len(),
            st == run(bytes@.take(i as int)),
            dfa_state(bytes@.take(i as int)) != 0,
        decreases bytes@.len() - i,
    {
        let b = bytes[i];
        let new_st = next_state(st, b);
        let ghost p = bytes@.take(i as int);
        proof {
            assert(bytes@.take(i + 1) == p.push(b));
            assert(bytes@.take(i + 1).drop_last() == p);
            lemma_mask_is_mod(new_st);
            lemma_run_state(bytes@.take(i + 1));
        }
        if new_st & STATE_MASK == ST_ERROR {
            proof {
                lemma_dfa_error_sticks(bytes@, i + 1);
                assert forall|t: Seq<u8>| #[trigger]
                    validation_result(bytes@ + t) == Err::<(), Utf8Error>(
                        Utf8Error {
                            valid_up_to: (i - pending(p).len()) as usize,
                            error_len: error_len_code(
                                if pending(p).len() == 0 {
                                    1
                                } else {
                                    pending(p).len()
                                },
                            ),
                        },
                    ) by {
                    let rest = bytes@.skip(i + 1) + t;
                    assert(bytes@ + t == p.push(b) + rest) by {
                        assert(bytes@ == bytes@.take(i + 1) + bytes@.skip(i + 1));
                    }
                    lemma_dfa_rejects(p, b, rest);
                    lemma_valid_utf8_iff(bytes@ + t);
                }
            }
            return Err(resolve_error_location(st, i, Ghost(p)));
        }
        st = new_st;
        i += 1;
    }
    proof {
        assert(bytes@.take(i as int) == bytes@);
    }
    Ok(st)
}

/// A run that ends in the error state failed on some byte after a prefix where it had not.
proof fn lemma_first_failure(p: Seq<u8>) -> (k: int)
    requires
        dfa_state(p) == 0,
    ensures
        0 <= k < p.len(),
        dfa_state(p.take(k)) != 0,
        dfa_step(dfa_state(p.take(k)), p[k]) == 0,
    decreases p.len(),
{
    let q = p.drop_last();
    assert(p.take(p.len() - 1) == q);
    if dfa_state(q) == 0 {
        let k = lemma_first_failure(q);
        assert(q.take(k) == p.take(k));
        k
    } else {
        (p.len() - 1) as int
    }
}

/// The packed DFA, started in S1, ends in S1 exactly on valid UTF-8.
pub proof fn lemma_dfa_recognizes_utf8(p: Seq<u8>)
    ensures
        (run(p) % 32 == ST_ACCEPT) <==> valid_utf8(p),
{
    lemma_run_state(p);
    lemma_valid_utf8_iff(p);
    lemma_valid_prefix_len_bound(p);
    if dfa_state(p) == 1 {
        lemma_dfa_accepts(p);
    } else if dfa_state(p) != 0 {
        lemma_dfa_truncated(p);
    } else {
        let k = lemma_first_failure(p);
        let q = p.take(k);
        lemma_dfa_rejects(q, p[k], p.skip(k + 1));
        assert(q.push(p[k]) + p.skip(k + 1) == p);
        lemma_dfa_decomposition(q);
    }
}

} // verus!
