//! The byte grammar of UTF-8 (RFC 3629, section 4) and what a validator reports about a
//! byte sequence: how long its valid prefix is, and how the bytes after it fail.
use vstd::prelude::*;
use vstd::utf8::*;

verus! {

/// `UTF8-tail = %x80-BF`
pub open spec fn is_tail(b: u8) -> bool {
    0x80 <= b <= 0xBF
}

/// Number of bytes of a character whose encoding starts with `lead`, or 0 when no
/// well-formed encoding starts with `lead` (`%x80-C1` and `%xF5-FF`).
pub open spec fn encoded_len(lead: u8) -> nat {
    if lead <= 0x7F {
        1
    } else if 0xC2 <= lead <= 0xDF {
        2
    } else if 0xE0 <= lead <= 0xEF {
        3
    } else if 0xF0 <= lead <= 0xF4 {
        4
    } else {
        0
    }
}

/// The allowed range of the byte after a multi-byte lead: narrower than `UTF8-tail`
/// after `E0`, `ED`, `F0` and `F4`, which excludes overlong forms, surrogates and
/// values above U+10FFFF.
pub open spec fn second_byte_fits(lead: u8, b: u8) -> bool {
    if lead == 0xE0 {
        0xA0 <= b <= 0xBF
    } else if lead == 0xED {
        0x80 <= b <= 0x9F
    } else if lead == 0xF0 {
        0x90 <= b <= 0xBF
    } else if lead == 0xF4 {
        0x80 <= b <= 0x8F
    } else {
        is_tail(b)
    }
}

/// `c` is a nonempty prefix (possibly the whole) of the encoding of some character.
pub open spec fn is_char_prefix(c: Seq<u8>) -> bool {
    &&& 1 <= c.len() <= encoded_len(c[0])
    &&& (c.len() >= 2 ==> second_byte_fits(c[0], c[1]))
    &&& (c.len() >= 3 ==> is_tail(c[2]))
    &&& (c.len() >= 4 ==> is_tail(c[3]))
}

/// `c` is exactly the encoding of one character (`UTF8-char`).
pub open spec fn is_char(c: Seq<u8>) -> bool {
    is_char_prefix(c) && c.len() == encoded_len(c[0])
}

/// `c` is the encoding of a character cut short: more bytes could complete it.
pub open spec fn is_truncated_char(c: Seq<u8>) -> bool {
    is_char_prefix(c) && c.len() < encoded_len(c[0])
}

/// Length of the character encoded at the start of `s`, or 0 when `s` does not start
/// with a well-formed character.
pub open spec fn first_char_len(s: Seq<u8>) -> nat {
    if s.len() > 0 && encoded_len(s[0]) <= s.len() && is_char(s.take(encoded_len(s[0]) as int)) {
        encoded_len(s[0])
    } else {
        0
    }
}

/// Length of the longest prefix of `s` made of whole characters, read from the front.
pub open spec fn valid_prefix_len(s: Seq<u8>) -> nat
    decreases s.len(),
{
    let w = first_char_len(s);
    if w > 0 {
        w + valid_prefix_len(s.skip(w as int))
    } else {
        0
    }
}

/// Length of the longest prefix of `r` (at most 4 bytes) that could begin a character.
pub open spec fn char_prefix_run(r: Seq<u8>) -> nat {
    if r.len() >= 4 && is_char_prefix(r.take(4)) {
        4
    } else if r.len() >= 3 && is_char_prefix(r.take(3)) {
        3
    } else if r.len() >= 2 && is_char_prefix(r.take(2)) {
        2
    } else if r.len() >= 1 && is_char_prefix(r.take(1)) {
        1
    } else {
        0
    }
}

/// How the bytes after the valid prefix of `s` fail: 0 when they are a character cut
/// short by the end of the input (or when there are none), otherwise the length of the
/// invalid byte sequence that starts there: the bytes that could still begin a
/// character before the one that cannot, and at least 1.
pub open spec fn invalid_len(s: Seq<u8>) -> nat {
    let r = s.skip(valid_prefix_len(s) as int);
    let k = char_prefix_run(r);
    if k == r.len() {
        0
    } else if k == 0 {
        1
    } else {
        k
    }
}

// ---------------------------------------------------------------------------------------
// Facts about the grammar.
// ---------------------------------------------------------------------------------------

/// A prefix of a character prefix is a character prefix.
pub(crate) proof fn lemma_char_prefix_take(c: Seq<u8>, k: int)
    requires
        is_char_prefix(c),
        1 <= k <= c.len(),
    ensures
        is_char_prefix(c.take(k)),
{
}

/// The first character only depends on the first bytes.
pub(crate) proof fn lemma_first_char_len_append(s: Seq<u8>, t: Seq<u8>)
    requires
        first_char_len(s) > 0,
    ensures
        first_char_len(s + t) == first_char_len(s),
        (s + t).skip(first_char_len(s) as int) == s.skip(first_char_len(s) as int) + t,
{
    let w = first_char_len(s) as int;
    assert((s + t).take(w) == s.take(w));
    assert((s + t).skip(w) == s.skip(w) + t);
}

/// When a byte sequence cannot even begin a character at some length `k` no longer than
/// the character its first byte announces, it does not start with a character.
pub(crate) proof fn lemma_no_first_char(x: Seq<u8>, k: int)
    requires
        1 <= k <= x.len(),
        k <= encoded_len(x[0]) || encoded_len(x[0]) == 0,
        !is_char_prefix(x.take(k)),
    ensures
        first_char_len(x) == 0,
{
    if first_char_len(x) > 0 {
        let w = encoded_len(x[0]) as int;
        lemma_char_prefix_take(x.take(w), k);
        assert(x.take(w).take(k) == x.take(k));
    }
}

/// The valid prefix of `s` is a prefix of it.
pub(crate) proof fn lemma_valid_prefix_len_bound(s: Seq<u8>)
    ensures
        valid_prefix_len(s) <= s.len(),
    decreases s.len(),
{
    let w = first_char_len(s);
    if w > 0 {
        lemma_valid_prefix_len_bound(s.skip(w as int));
    }
}

/// Whole characters in front do not change where the input stops being valid.
pub(crate) proof fn lemma_valid_prefix_len_append(a: Seq<u8>, t: Seq<u8>)
    requires
        valid_prefix_len(a) == a.len(),
    ensures
        valid_prefix_len(a + t) == a.len() + valid_prefix_len(t),
        (a + t).skip(a.len() as int) == t,
    decreases a.len(),
{
    assert((a + t).skip(a.len() as int) == t);
    if a.len() > 0 {
        let w = first_char_len(a);
        lemma_first_char_len_append(a, t);
        lemma_valid_prefix_len_append(a.skip(w as int), t);
    } else {
        assert(a + t == t);
    }
}

/// Appending one character to a valid sequence keeps it valid.
pub(crate) proof fn lemma_valid_push_char(a: Seq<u8>, c: Seq<u8>)
    requires
        valid_prefix_len(a) == a.len(),
        is_char(c),
    ensures
        valid_prefix_len(a + c) == (a + c).len(),
{
    lemma_valid_prefix_len_append(a, c);
    assert(c.take(c.len() as int) == c);
    assert(first_char_len(c) == c.len());
    assert(first_char_len(c.skip(c.len() as int)) == 0);
    assert(valid_prefix_len(c.skip(c.len() as int)) == 0);
    assert(valid_prefix_len(c) == c.len());
}

/// The valid prefix of a sequence is itself valid, and taking more makes it invalid.
pub(crate) proof fn lemma_valid_prefix_is_longest(s: Seq<u8>, i: int)
    requires
        0 <= i <= s.len(),
    ensures
        valid_prefix_len(s.take(valid_prefix_len(s) as int)) == valid_prefix_len(s),
        valid_prefix_len(s) < i ==> valid_prefix_len(s.take(i)) < i,
    decreases s.len(),
{
    let v = valid_prefix_len(s) as int;
    lemma_valid_prefix_len_bound(s);
    let w = first_char_len(s) as int;
    if w > 0 {
        let rest = s.skip(w);
        lemma_valid_prefix_is_longest(rest, if i >= w { i - w } else { 0 });
        let vr = valid_prefix_len(rest) as int;
        // The valid prefix of s is the first character followed by that of the rest.
        assert(s.take(v).take(w) == s.take(w));
        assert(first_char_len(s.take(v)) == w);
        assert(s.take(v).skip(w) == rest.take(vr));
        if v < i {
            assert(s.take(i).take(w) == s.take(w));
            assert(first_char_len(s.take(i)) == w);
            assert(s.take(i).skip(w) == rest.take(i - w));
        }
    } else {
        assert(s.take(0).len() == 0);
        if 0 < i {
            if first_char_len(s.take(i)) > 0 {
                let wi = encoded_len(s[0]) as int;
                assert(s.take(i).take(wi) == s.take(wi));
            }
        }
    }
}

/// A sequence is valid UTF-8, as vstd defines it, exactly when its valid prefix is all of it.
pub proof fn lemma_valid_utf8_iff(s: Seq<u8>)
    ensures
        valid_utf8(s) <==> valid_prefix_len(s) == s.len(),
    decreases s.len(),
{
    lemma_valid_prefix_len_bound(s);
    if s.len() > 0 {
        lemma_first_scalar(s);
        let w = first_char_len(s);
        if w > 0 {
            lemma_valid_utf8_iff(s.skip(w as int));
        }
    }
}

/// vstd's reading of the first scalar agrees with the byte grammar.
pub proof fn lemma_first_scalar(s: Seq<u8>)
    requires
        s.len() > 0,
    ensures
        valid_first_scalar(s) <==> first_char_len(s) > 0,
        first_char_len(s) > 0 ==> length_of_first_scalar(s) == first_char_len(s)
            && pop_first_scalar(s) == s.skip(first_char_len(s) as int),
{
    let b0 = s[0];
    if s.len() >= 1 && is_leading_byte_width_1(b0) {
        assert(b0 <= 0x7f ==> ((b0 & 0x7f) as u32) < 0xD800u32) by (bit_vector);
        assert(s.take(1).len() == 1);
    } else if is_leading_byte_width_2(b0) {
        if s.len() >= 2 {
            let b1 = s[1];
            assert(0xc0 <= b0 <= 0xdf && 0x80 <= b1 <= 0xbf ==> ((0x80u32 <= ((((b0 & 0x1f) as u32)
                << 6) | ((b1 & 0x3f) as u32)) <==> 0xc2 <= b0) && ((((b0 & 0x1f) as u32) << 6) | ((b1
                & 0x3f) as u32)) < 0xD800u32)) by (bit_vector);
            assert(s.take(2)[1] == b1);
        }
    } else if is_leading_byte_width_3(b0) {
        if s.len() >= 3 {
            let b1 = s[1];
            let b2 = s[2];
            assert(0xe0 <= b0 <= 0xef && 0x80 <= b1 <= 0xbf && 0x80 <= b2 <= 0xbf ==> ({
                let cp = (((b0 & 0x0f) as u32) << 12) | (((b1 & 0x3f) as u32) << 6) | ((b2
                    & 0x3f) as u32);
                &&& (0x800u32 <= cp <==> !(b0 == 0xe0 && b1 < 0xa0))
                &&& (0xD800u32 <= cp <= 0xDFFFu32 <==> (b0 == 0xed && b1 >= 0xa0))
            })) by (bit_vector);
            assert(s.take(3)[1] == b1 && s.take(3)[2] == b2);
        }
    } else if is_leading_byte_width_4(b0) {
        if s.len() >= 4 {
            let b1 = s[1];
            let b2 = s[2];
            let b3 = s[3];
            assert(0xf0 <= b0 <= 0xf7 && 0x80 <= b1 <= 0xbf && 0x80 <= b2 <= 0xbf && 0x80 <= b3
                <= 0xbf ==> ({
                let cp = (((b0 & 0x07) as u32) << 18) | (((b1 & 0x3f) as u32) << 12) | (((b2
                    & 0x3f) as u32) << 6) | ((b3 & 0x3f) as u32);
                &&& (0x10000u32 <= cp <= 0x10ffffu32 <==> ((b0 == 0xf0 && b1 >= 0x90) || (0xf1
                    <= b0 <= 0xf3) || (b0 == 0xf4 && b1 <= 0x8f)))
                &&& (0x10000u32 <= cp ==> !(0xD800u32 <= cp <= 0xDFFFu32))
            })) by (bit_vector);
            assert(s.take(4)[1] == b1 && s.take(4)[2] == b2 && s.take(4)[3] == b3);
        }
    }
}

/// The invalid bytes after the valid prefix lie inside the input.
pub(crate) proof fn lemma_invalid_len_bound(s: Seq<u8>)
    ensures
        valid_prefix_len(s) <= s.len(),
        valid_prefix_len(s) + invalid_len(s) <= s.len(),
        invalid_len(s) <= 3,
{
    lemma_valid_prefix_len_bound(s);
    lemma_rest_has_no_first_char(s);
    let y = s.skip(valid_prefix_len(s) as int);
    if y.len() >= 4 && is_char_prefix(y.take(4)) {
        assert(y.take(4).take(4) == y.take(4));
        assert(y.take(4)[0] == y[0]);
    }
}

/// The bytes after the valid prefix do not start with a character.
pub(crate) proof fn lemma_rest_has_no_first_char(s: Seq<u8>)
    ensures
        s == s.take(valid_prefix_len(s) as int) + s.skip(valid_prefix_len(s) as int),
        first_char_len(s.skip(valid_prefix_len(s) as int)) == 0,
        valid_prefix_len(s.skip(valid_prefix_len(s) as int)) == 0,
{
    let v = valid_prefix_len(s) as int;
    lemma_valid_prefix_len_bound(s);
    lemma_valid_prefix_is_longest(s, v);
    assert(s == s.take(v) + s.skip(v));
    lemma_valid_prefix_len_append(s.take(v), s.skip(v));
}

/// The input stops being valid at the end, inside a character, exactly when the bytes
/// after its valid prefix are a character cut short.
pub(crate) proof fn lemma_truncated_iff(s: Seq<u8>)
    requires
        valid_prefix_len(s) < s.len(),
    ensures
        invalid_len(s) == 0 <==> is_truncated_char(s.skip(valid_prefix_len(s) as int)),
{
    let v = valid_prefix_len(s) as int;
    let y = s.skip(v);
    lemma_rest_has_no_first_char(s);
    assert(y.take(y.len() as int) == y);
    if is_char_prefix(y) {
        assert(y.len() <= 4);
        if y.len() == encoded_len(y[0]) {
            assert(first_char_len(y) > 0);
        }
    }
}

/// Once the input has an invalid byte sequence, no bytes appended after it change what
/// is reported.
pub(crate) proof fn lemma_invalid_is_final(s: Seq<u8>, t: Seq<u8>)
    requires
        valid_prefix_len(s) < s.len(),
        invalid_len(s) > 0,
    ensures
        valid_prefix_len(s + t) == valid_prefix_len(s),
        invalid_len(s + t) == invalid_len(s),
{
    let v = valid_prefix_len(s) as int;
    let y = s.skip(v);
    lemma_rest_has_no_first_char(s);
    let k = char_prefix_run(y) as int;
    assert(k < y.len());
    // y.take(k + 1) cannot begin a character, and is no longer than what y[0] announces.
    assert(y.take(k + 1).len() == k + 1);
    if k > 0 {
        assert(y.take(k).take(1) == y.take(1));
        assert(y.take(k)[0] == y[0]);
        if k == encoded_len(y[0]) {
            assert(y.take(k).take(k) == y.take(k));
            assert(first_char_len(y) > 0);
        }
    }
    assert(!is_char_prefix(y.take(k + 1))) by {
        if k + 1 <= 4 {
        }
    }
    let z = y + t;
    assert(z.take(k + 1) == y.take(k + 1));
    assert(z[0] == y[0]);
    lemma_no_first_char(z, k + 1);
    assert(s + t == s.take(v) + z) by {
        assert(s == s.take(v) + y);
    }
    lemma_valid_prefix_is_longest(s, v);
    lemma_valid_prefix_len_append(s.take(v), z);
    assert(valid_prefix_len(z) == 0);
    assert forall|j: int| 0 <= j <= y.len() implies #[trigger] z.take(j) == y.take(j) by {}
    assert forall|j: int| k + 1 <= j <= z.len() implies !is_char_prefix(#[trigger] z.take(j)) by {
        if is_char_prefix(z.take(j)) {
            lemma_char_prefix_take(z.take(j), k + 1);
            assert(z.take(j).take(k + 1) == z.take(k + 1));
        }
    }
}

} // verus!
