use shift_dfa_utf8::dfa::{next_state, BITS_PER_STATE, STATE_CNT, STATE_MASK, ST_ACCEPT, ST_ERROR};
use shift_dfa_utf8::{
    from_utf8 as parse, run_utf8_validation, run_utf8_validation_const, Utf8Error, Utf8ErrorLen,
};

fn error(valid_up_to: usize, error_len: Option<u8>) -> Utf8Error {
    Utf8Error {
        valid_up_to,
        error_len: match error_len {
            None => Utf8ErrorLen::Eof,
            Some(1) => Utf8ErrorLen::One,
            Some(2) => Utf8ErrorLen::Two,
            Some(3) => Utf8ErrorLen::Three,
            _ => unreachable!(),
        },
    }
}

fn cvt_err(err: std::str::Utf8Error) -> Utf8Error {
    error(err.valid_up_to(), err.error_len().map(|x| x as u8))
}

fn cvt<T>(ret: Result<T, std::str::Utf8Error>) -> Result<T, Utf8Error> {
    ret.map_err(cvt_err)
}

/// Every validator of the crate agrees with `std::str::from_utf8` on `bytes`.
fn check_all(bytes: &[u8]) {
    let expected = cvt(std::str::from_utf8(bytes));
    assert_eq!(parse(bytes), expected, "from_utf8 on {:x?}", bytes);
    let expected = expected.map(|_| ());
    assert_eq!(run_utf8_validation_const(bytes), expected, "const on {:x?}", bytes);
    assert_eq!(run_utf8_validation::<1, 1>(bytes), expected, "1/1 on {:x?}", bytes);
    assert_eq!(run_utf8_validation::<4, 8>(bytes), expected, "4/8 on {:x?}", bytes);
    assert_eq!(run_utf8_validation::<8, 16>(bytes), expected, "8/16 on {:x?}", bytes);
    assert_eq!(run_utf8_validation::<8, 32>(bytes), expected, "8/32 on {:x?}", bytes);
    assert_eq!(run_utf8_validation::<16, 16>(bytes), expected, "16/16 on {:x?}", bytes);
    assert_eq!(run_utf8_validation::<16, 32>(bytes), expected, "16/32 on {:x?}", bytes);
}

const SAMPLES: [&str; 4] = [
    "\x00\u{80}\u{800}\u{10000}",
    "El veloz murciélago hindú comía feliz cardillo y kiwi. La cigüeña tocaba el saxofón detrás del palenque de paja. ¿Qué?",
    "我能吞下玻璃而不伤身体。敏捷的棕色狐狸跳过了懒狗。天地玄黄，宇宙洪荒。日月盈昃，辰宿列张。",
    "ASCII text long enough to take the fast path over several chunks of sixteen and thirty-two bytes, then ünïcödé, 𝄞𝄞𝄞 and more ASCII at the end of it all.",
];

#[test]
fn empty() {
    parse(&[]).unwrap();
}

#[test]
fn valid() {
    let s = "\x00\u{80}\u{800}\u{10000}";
    parse(s.as_bytes()).unwrap();
}

#[test]
fn from_utf8_gives_back_the_same_text() {
    for s in SAMPLES {
        let parsed = parse(s.as_bytes()).unwrap();
        assert_eq!(parsed, s);
        assert_eq!(parsed.as_ptr(), s.as_ptr());
    }
    assert_eq!(parse(b"abc").unwrap(), "abc");
}

#[test]
fn truncated_samples() {
    for s in SAMPLES {
        for i in 0..=s.len() {
            let (lhs, rhs) = s.as_bytes().split_at(i);
            check_all(lhs);
            check_all(rhs);
        }
    }
}

#[test]
fn mutated_samples() {
    for s in SAMPLES {
        let mut s = s.as_bytes().to_vec();
        for i in 0..s.len() {
            let orig_byte = s[i];
            for new_byte in 0..=u8::MAX {
                s[i] = new_byte;
                check_all(&s);
            }
            s[i] = orig_byte;
        }
    }
}

#[test]
fn all_short_inputs() {
    check_all(&[]);
    for a in 0..=u8::MAX {
        check_all(&[a]);
        for b in 0..=u8::MAX {
            check_all(&[a, b]);
        }
    }
}

#[test]
fn boundary_byte_triples_and_quads() {
    let edges: [u8; 26] = [
        0x00, 0x41, 0x7F, 0x80, 0x8F, 0x90, 0x9F, 0xA0, 0xBF, 0xC0, 0xC1, 0xC2, 0xDF, 0xE0, 0xE1,
        0xEC, 0xED, 0xEE, 0xEF, 0xF0, 0xF1, 0xF3, 0xF4, 0xF5, 0xFE, 0xFF,
    ];
    for &a in &edges {
        for &b in &edges {
            for &c in &edges {
                check_all(&[a, b, c]);
                for &d in &edges {
                    check_all(&[a, b, c, d]);
                }
            }
        }
    }
}

#[test]
fn each_error_kind() {
    // A byte that cannot begin a character.
    assert_eq!(run_utf8_validation_const(b"ab\xFFcd"), Err(error(2, Some(1))));
    // A lead byte followed by a byte that cannot continue it.
    assert_eq!(run_utf8_validation_const(b"a\xE0\x80"), Err(error(1, Some(1))));
    // Two bytes of a three-byte character, then ASCII.
    assert_eq!(run_utf8_validation_const(b"\xE2\x82A"), Err(error(0, Some(2))));
    // Three bytes of a four-byte character, then ASCII.
    assert_eq!(run_utf8_validation_const(b"x\xF0\x9F\x98A"), Err(error(1, Some(3))));
    // Two bytes of a four-byte character, then ASCII.
    assert_eq!(run_utf8_validation_const(b"\xF0\x9F!"), Err(error(0, Some(2))));
    // The input ends inside a character.
    assert_eq!(run_utf8_validation_const(b"ok\xE2\x82"), Err(error(2, None)));
    assert_eq!(run_utf8_validation::<16, 16>(b"ok\xF0\x9F\x98"), Err(error(2, None)));
    // Surrogates and values above U+10FFFF.
    assert_eq!(run_utf8_validation::<8, 16>(b"\xED\xA0\x80"), Err(error(0, Some(1))));
    assert_eq!(run_utf8_validation::<8, 16>(b"\xF4\x90\x80\x80"), Err(error(0, Some(1))));
    // Overlong forms.
    assert_eq!(run_utf8_validation::<8, 16>(b"\xC0\xAF"), Err(error(0, Some(1))));
    assert_eq!(run_utf8_validation::<8, 16>(b"\xE0\x9F\xBF"), Err(error(0, Some(1))));
}

#[test]
fn error_accessors() {
    let e = error(7, Some(3));
    assert_eq!(e.valid_up_to(), 7);
    assert_eq!(e.error_len(), Some(3));
    assert_eq!(error(0, Some(1)).error_len(), Some(1));
    assert_eq!(error(0, Some(2)).error_len(), Some(2));
    assert_eq!(error(4, None).error_len(), None);
    assert_eq!(error(4, None).valid_up_to(), 4);
}

#[test]
fn errors_inside_and_after_chunks() {
    // Less than one chunk; inside a chunk on the DFA path; in the trailing chunk.
    let cases: [&[u8]; 5] = [
        b"\xFF",
        b"\xC2\x8023456789abcde\xFF",
        b"\xC2\x8023456789abcdef\xFF",
        b"\xC2\x8023456789abcdefg\xFF",
        b"\xC2\x8023456789abcd\xFF",
    ];
    for s in cases {
        assert_eq!(run_utf8_validation::<16, 16>(s), Err(error(s.len() - 1, Some(1))));
        check_all(s);
    }
    let ok_cases: [&[u8]; 4] = [
        b"1",
        b"\xC2\x8023456789abcdef",
        b"\xC2\x8023456789abcdefg",
        b"\xC2\x8023456789abcde",
    ];
    for s in ok_cases {
        assert_eq!(run_utf8_validation::<16, 16>(s), Ok(()));
        check_all(s);
    }
}

#[test]
fn longest_valid_prefix() {
    let s = b"caf\xC3\xA9 \xE2\x82\xAC\xFF tail";
    let e = run_utf8_validation_const(s).unwrap_err();
    assert_eq!(e.valid_up_to(), 9);
    assert!(std::str::from_utf8(&s[..e.valid_up_to()]).is_ok());
    for i in e.valid_up_to() + 1..=s.len() {
        assert!(run_utf8_validation_const(&s[..i]).is_err());
    }
}

#[test]
fn invalid_sequence_is_final() {
    let s = b"abc\xE2\x82X";
    let e = run_utf8_validation_const(s).unwrap_err();
    assert_eq!(e, error(3, Some(2)));
    for tail in [&b""[..], b"\xAC", b"more text", b"\xF0\x9F\x98\x80"] {
        let mut longer = s.to_vec();
        longer.extend_from_slice(tail);
        assert_eq!(run_utf8_validation_const(&longer), Err(error(3, Some(2))));
    }
}

#[test]
fn eof_error_means_a_cut_character() {
    let s = b"abc\xF0\x9F\x98";
    assert_eq!(run_utf8_validation_const(s), Err(error(3, None)));
    let mut completed = s.to_vec();
    completed.push(0x80);
    assert_eq!(run_utf8_validation_const(&completed), Ok(()));
}

#[test]
fn dfa_state_walk() {
    let mut st = ST_ACCEPT;
    for b in "a\u{e9}\u{20ac}\u{1f600}".bytes() {
        st = next_state(st, b);
        assert_ne!(st & STATE_MASK, ST_ERROR);
    }
    assert_eq!(st & STATE_MASK, ST_ACCEPT);
    assert_eq!(next_state(ST_ACCEPT, b'a'), ST_ACCEPT);
    assert_eq!(next_state(ST_ACCEPT, 0xFF) & STATE_MASK, ST_ERROR);
    assert_eq!(next_state(next_state(ST_ACCEPT, 0xE2), b'a') & STATE_MASK, ST_ERROR);
}

#[test]
fn state_distribution_of_sample() {
    let s = SAMPLES[2];
    let mut counts = [0usize; STATE_CNT];
    let mut st = ST_ACCEPT;
    for b in s.bytes() {
        st = next_state(st, b);
        assert_ne!(st & STATE_MASK, ST_ERROR);
        counts[((st & STATE_MASK) / BITS_PER_STATE) as usize] += 1;
    }
    assert_eq!(counts.iter().sum::<usize>(), s.len());
    for (st, &cnt) in counts.iter().enumerate() {
        let frac = cnt as f64 / s.len() as f64;
        println!("S{st}: {cnt:6}, {frac:.6}");
    }
}
