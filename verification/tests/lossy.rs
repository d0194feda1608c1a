use shift_dfa_utf8::lossy::{to_utf8_chunks, Utf8Chunk, Utf8Chunks};

fn collect<const M: usize, const A: usize>(mut chunks: Utf8Chunks<'_, M, A>) -> Vec<Utf8Chunk<'_>> {
    let mut out = Vec::new();
    while let Some(c) = chunks.next() {
        out.push(c);
    }
    out
}

#[test]
fn chunks_of_mixed_input() {
    let bytes = b"Hello\xC0\x80 There\xE6\x83 Goodbye";
    let chunks = collect(to_utf8_chunks::<16, 16>(bytes));
    assert_eq!(
        chunks,
        vec![
            Utf8Chunk { valid: "Hello", invalid: b"\xC0" },
            Utf8Chunk { valid: "", invalid: b"\x80" },
            Utf8Chunk { valid: " There", invalid: b"\xE6\x83" },
            Utf8Chunk { valid: " Goodbye", invalid: b"" },
        ]
    );
    assert_eq!(chunks.len(), bytes.utf8_chunks().count());
}

#[test]
fn chunks_count_like_std() {
    let cases: [&[u8]; 6] = [
        b"",
        b"plain",
        b"\xF5\xF5\xF5",
        b"ends cut \xE2\x82",
        b"\xF0\x9F\x98\x80 ok \xED\xA0\x80 x",
        b"a\xC3\xA9b\xC3c",
    ];
    for bytes in cases {
        assert_eq!(collect(to_utf8_chunks::<8, 16>(bytes)).len(), bytes.utf8_chunks().count());
        assert_eq!(collect(to_utf8_chunks::<16, 32>(bytes)).len(), bytes.utf8_chunks().count());
    }
    let invalid = [0xF5u8; 100];
    assert_eq!(collect(to_utf8_chunks::<8, 32>(&invalid)).len(), 100);
}

#[test]
fn chunks_agree_with_std() {
    let cases: [&[u8]; 7] = [
        b"ab\xFFcd\xE2\x82\xACef\xE2\x82\xF0\x9F\x98\x80\x80g",
        b"Hello\xC0\x80 There\xE6\x83 Goodbye",
        b"plain text",
        b"ends cut \xE2\x82",
        b"\xF5\xF5",
        b"x\xED\xA0\x80y\xF4\x90\x80\x80z",
        b"",
    ];
    for bytes in cases {
        let ours = collect(to_utf8_chunks::<16, 16>(bytes));
        let std_chunks: Vec<(&str, &[u8])> =
            bytes.utf8_chunks().map(|c| (c.valid(), c.invalid())).collect();
        let ours_pairs: Vec<(&str, &[u8])> = ours.iter().map(|c| (c.valid, c.invalid)).collect();
        assert_eq!(ours_pairs, std_chunks);
        // Putting the chunks back together gives the bytes they came from.
        let mut joined = Vec::new();
        for c in &ours {
            joined.extend_from_slice(c.valid.as_bytes());
            joined.extend_from_slice(c.invalid);
        }
        assert_eq!(&joined[..], bytes);
    }
}

#[test]
fn valid_input_is_one_chunk() {
    let mut chunks = to_utf8_chunks::<16, 16>(b"abc");
    assert_eq!(chunks.next(), Some(Utf8Chunk { valid: "abc", invalid: b"" }));
    assert_eq!(chunks.next(), None);
}

#[test]
fn truncated_end_is_one_chunk() {
    let chunks = collect(to_utf8_chunks::<8, 16>(b"abc\xF0\x9F\x98"));
    assert_eq!(chunks, vec![Utf8Chunk { valid: "abc", invalid: b"\xF0\x9F\x98" }]);
}
