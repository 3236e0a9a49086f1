use pi_natives::decode::{decode_reads, OutputDecoder};

fn run(reads: &[&[u8]]) -> Vec<String> {
    let mut d = OutputDecoder::new();
    let mut out = Vec::new();
    for r in reads {
        out.extend(d.feed(r));
    }
    out.extend(d.finish());
    out
}

#[test]
fn echo_output_is_one_chunk() {
    let chunks = run(&[b"hi\n"]);
    assert_eq!(chunks, vec!["hi\n".to_string()]);
}

#[test]
fn multibyte_char_split_across_reads() {
    let bytes = "a€b".as_bytes();
    let chunks = run(&[&bytes[..2], &bytes[2..3], &bytes[3..]]);
    assert_eq!(chunks.concat(), "a€b");
    assert_eq!(chunks, vec!["a".to_string(), "€b".to_string()]);
}

#[test]
fn carry_waits_for_next_read() {
    let mut d = OutputDecoder::new();
    let first = d.feed(&[0xe4, 0xb8]);
    assert!(first.is_empty());
    let second = d.feed(&[0x96, b'x']);
    assert_eq!(second, vec!["世x".to_string()]);
    assert!(d.finish().is_empty());
}

#[test]
fn invalid_byte_becomes_one_replacement_chunk() {
    let chunks = run(&[b"ab\xffcd"]);
    assert_eq!(
        chunks,
        vec!["ab".to_string(), "\u{FFFD}".to_string(), "cd".to_string()]
    );
}

#[test]
fn truncated_sequence_then_ascii_is_one_replacement() {
    let chunks = run(&[b"\xe2\x82A"]);
    assert_eq!(chunks.concat(), "\u{FFFD}A");
}

#[test]
fn incomplete_tail_flushed_at_end() {
    let chunks = run(&[b"ok\xf0\x9f\x98"]);
    assert_eq!(chunks, vec!["ok".to_string(), "\u{FFFD}".to_string()]);
}

#[test]
fn surrogate_encoding_is_invalid() {
    let chunks = run(&[b"\xed\xa0\x80"]);
    assert_eq!(chunks.concat(), "\u{FFFD}\u{FFFD}\u{FFFD}");
}

#[test]
fn every_split_point_gives_the_same_text() {
    let bytes: Vec<u8> = b"x\xce\xbb\xff\xe2\x82\xacq\xf0\x9f\x98\x80\xc3"
        .iter()
        .copied()
        .collect();
    let whole = String::from_utf8_lossy(&bytes).into_owned();
    for i in 0..=bytes.len() {
        for j in i..=bytes.len() {
            let chunks = run(&[&bytes[..i], &bytes[i..j], &bytes[j..]]);
            assert_eq!(chunks.concat(), whole, "split at {i} and {j}");
            assert!(chunks.iter().all(|c| !c.is_empty()));
        }
    }
}

#[test]
fn byte_at_a_time_matches_whole() {
    let text = "héllo wörld ✓ 🎉";
    let bytes = text.as_bytes();
    let reads: Vec<&[u8]> = bytes.chunks(1).collect();
    assert_eq!(run(&reads).concat(), text);
}

#[test]
fn chunk_boundaries_follow_runs_and_replacements() {
    let mut d = OutputDecoder::new();
    assert_eq!(d.feed(b"ab\xe2\x82"), vec!["ab".to_string()]);
    assert_eq!(
        d.feed(b"\xac\xff\xfecd"),
        vec!["€".to_string(), "\u{FFFD}".to_string(), "\u{FFFD}".to_string(), "cd".to_string()]
    );
    assert_eq!(d.feed(b""), Vec::<String>::new());
    assert_eq!(d.finish(), Vec::<String>::new());
}

#[test]
fn many_reads_decode_as_the_whole_stream() {
    let bytes: Vec<u8> = b"\xf0\x9f\x8e\x89 caf\xc3\xa9 \xc0\xaf \xe2\x82 end\xed\xbf\xbf\xf4\x90"
        .to_vec();
    let whole = String::from_utf8_lossy(&bytes).into_owned();
    for size in 1..=bytes.len() {
        let reads: Vec<Vec<u8>> = bytes.chunks(size).map(|c| c.to_vec()).collect();
        assert_eq!(decode_reads(&reads).concat(), whole, "reads of {size} bytes");
    }
    assert!(decode_reads(&Vec::new()).is_empty());
}
