use rstrings::{
    checkForString, detect_workers, fastBadHash, format_line, getString, isPrintableASCII, isUTF8,
    plan_chunks, scan, scan_range, worker_count, Hit, ScanConfig, ScanError,
};

fn config(min_len: i32, null_bytes: bool, utf8: bool, remove_repeats: bool) -> ScanConfig {
    ScanConfig { min_len, null_bytes, utf8, remove_repeats }
}

fn texts(hits: &[Hit]) -> Vec<String> {
    hits.iter().map(|h| h.text.clone()).collect()
}

#[test]
fn testGetString() {
    let vec = vec![104u8, 105u8];
    assert_eq!(String::from("hi"), getString(vec, 0, 2));
}

#[test]
fn testIsUTF8() {
    let vec = vec![62u8, 194u8, 162u8, 62u8];
    assert_eq!((true, 3), isUTF8(vec.clone(), 0));
    assert_eq!(String::from("¢"), getString(vec, 1, 3));
}

#[test]
fn testIsNotUTF8() {
    let vec = vec![62u8, 62u8, 62u8, 62u8];
    assert_eq!((false, 0), isUTF8(vec.clone(), 0));
}

#[test]
fn testCheckForString() {
    let vec = vec![10u8, 62u8, 63u8, 64u8, 65u8, 66u8, 10u8, 63u8, 64u8, 65u8, 66u8, 67u8, 0u8, 12u8];
    let numBytes = 4;
    let mut nullBytes = false;
    let utf8 = false;
    assert_eq!((false, 0), checkForString(vec.clone(), 0, numBytes, nullBytes, utf8));
    assert_eq!((false, 5), checkForString(vec.clone(), 1, numBytes, nullBytes, utf8));
    assert_eq!((false, 4), checkForString(vec.clone(), 2, numBytes, nullBytes, utf8));
    assert_eq!((true, 5), checkForString(vec.clone(), 7, numBytes, nullBytes, utf8));
    nullBytes = true;
    assert_eq!((true, 5), checkForString(vec.clone(), 1, numBytes, nullBytes, utf8));
}

#[test]
fn testHash() {
    assert_eq!(35793, fastBadHash(String::from("testHash")));
}

#[test]
fn testIsASCII() {
    assert_eq!(true, isPrintableASCII(97u8));
    assert_eq!(false, isPrintableASCII(10u8));
}

#[test]
fn printable_edges() {
    assert!(isPrintableASCII(32));
    assert!(isPrintableASCII(126));
    assert!(!isPrintableASCII(31));
    assert!(!isPrintableASCII(127));
    assert!(!isPrintableASCII(0));
    assert!(!isPrintableASCII(200));
}

#[test]
fn hash_of_empty_is_basis() {
    assert_eq!(2166136261u32, fastBadHash(String::new()));
}

#[test]
fn hash_of_one_byte() {
    // ((2166136261 ^ 97) * 16777619) % 65536
    let expected = (((2166136261u64 ^ 97) * 16777619) % 65536) as u32;
    assert_eq!(expected, fastBadHash(String::from("a")));
}

#[test]
fn validator_finds_two_byte_sequence_at_offset_one() {
    let buf = vec![0x3Eu8, 0xC2, 0xA2, 0x3E];
    assert_eq!((true, 2), isUTF8(buf, 1));
}

#[test]
fn validator_never_accepts_plain_ascii() {
    let buf = vec![0x3Eu8, 0x3E, 0x3E, 0x3E];
    for i in 0..6 {
        assert_eq!((false, 0), isUTF8(buf.clone(), i));
    }
}

#[test]
fn validator_three_and_four_byte_sequences() {
    // the euro sign, three bytes
    assert_eq!((true, 3), isUTF8(vec![0xE2, 0x82, 0xAC], 0));
    // a four-byte character (U+1F600)
    assert_eq!((true, 4), isUTF8(vec![0xF0, 0x9F, 0x98, 0x80], 0));
    // cut short by the end of the buffer
    assert_eq!((false, 0), isUTF8(vec![0xE2, 0x82], 0));
    // a lone continuation byte
    assert_eq!((false, 0), isUTF8(vec![0xA2, 0x41, 0x41, 0x41], 0));
}

#[test]
fn matcher_scenario() {
    let buf = vec![0x0A, 0x3E, 0x3F, 0x40, 0x41, 0x42, 0x0A, 0x3F, 0x40, 0x41, 0x42, 0x43, 0x00, 0x0C];
    assert_eq!((true, 5), checkForString(buf.clone(), 7, 4, false, false));
    assert_eq!((false, 5), checkForString(buf.clone(), 1, 4, false, false));
    assert_eq!((false, 0), checkForString(buf.clone(), 0, 4, false, false));
}

#[test]
fn run_ending_at_buffer_end() {
    let buf = b"xx\0abcdef".to_vec();
    assert_eq!((false, 6), checkForString(buf.clone(), 3, 4, false, false));
    assert_eq!((false, 6), checkForString(buf.clone(), 3, 4, true, false));
    assert_eq!((false, 6), checkForString(buf.clone(), 3, 4, true, true));
    assert_eq!((false, 0), checkForString(buf.clone(), 9, 4, true, false));
    assert_eq!((false, 0), checkForString(buf, 20, 4, true, true));
}

#[test]
fn utf8_mode_counts_characters() {
    // "abc", a control byte followed by the two-byte "¢", then "d" and a zero
    let buf = vec![b'a', b'b', b'c', 0x01, 0xC2, 0xA2, b'd', 0x00];
    assert_eq!((true, 7), checkForString(buf.clone(), 0, 5, false, true));
    assert_eq!((false, 7), checkForString(buf.clone(), 0, 6, false, true));
    // in ASCII mode the run stops at the control byte
    assert_eq!((false, 3), checkForString(buf, 0, 3, false, false));
}

#[test]
fn get_string_ranges() {
    assert_eq!(String::from("hi"), getString(vec![104u8, 105u8], 0, 2));
    assert_eq!(String::new(), getString(vec![104u8, 105u8], 2, 1));
    assert_eq!(String::new(), getString(vec![0xC2u8, 0x41], 0, 2));
    assert_eq!(String::from("é"), getString(vec![0x41, 0xC3, 0xA9], 1, 3));
}

#[test]
fn scan_finds_null_terminated_strings() {
    let buf = b"\x01hello\0ab\0world!\0tail".to_vec();
    let hits = scan(&buf, &config(4, false, false, false));
    assert_eq!(vec!["hello".to_string(), "world!".to_string()], texts(&hits));
    assert_eq!(1, hits[0].offset);
    assert_eq!(5, hits[0].len);
    assert_eq!(10, hits[1].offset);
    assert_eq!(6, hits[1].len);
}

#[test]
fn scan_without_null_requirement() {
    let buf = b"\x01hello\nab\x02world!\x7f".to_vec();
    let strict = scan(&buf, &config(4, false, false, false));
    assert!(strict.is_empty());
    let loose = scan(&buf, &config(4, true, false, false));
    assert_eq!(vec!["hello".to_string(), "world!".to_string()], texts(&loose));
}

#[test]
fn scan_respects_min_len() {
    let buf = b"abc\0abcd\0abcde\0".to_vec();
    let hits = scan(&buf, &config(4, false, false, false));
    assert_eq!(vec!["abcd".to_string(), "abcde".to_string()], texts(&hits));
    for h in &hits {
        assert!(h.text.chars().count() >= 4);
    }
    let hits = scan(&buf, &config(5, false, false, false));
    assert_eq!(vec!["abcde".to_string()], texts(&hits));
}

#[test]
fn scan_ranges_do_not_overlap() {
    let buf = b"one1\0two22\0\0three\0x\0four4444\0".to_vec();
    let hits = scan(&buf, &config(4, false, false, false));
    assert_eq!(4, hits.len());
    for w in hits.windows(2) {
        assert!(w[0].offset + w[0].len < w[1].offset);
    }
}

#[test]
fn scan_is_repeatable() {
    let buf = b"\x05alpha\0beta\0gamma\0\xffdelta\0".to_vec();
    let cfg = config(4, false, false, true);
    let first = scan(&buf, &cfg);
    let second = scan(&buf, &cfg);
    assert_eq!(first.len(), second.len());
    for (a, b) in first.iter().zip(second.iter()) {
        assert_eq!(a.offset, b.offset);
        assert_eq!(a.len, b.len);
        assert_eq!(a.text, b.text);
    }
}

#[test]
fn eleven_repeats_are_capped_at_ten() {
    let mut buf = Vec::new();
    for _ in 0..11 {
        buf.extend_from_slice(b"pad!\0");
    }
    let held = scan(&buf, &config(4, false, false, true));
    assert_eq!(10, held.len());
    let all = scan(&buf, &config(4, false, false, false));
    assert_eq!(11, all.len());
}

#[test]
fn repeats_resume_after_a_different_string() {
    let mut buf = Vec::new();
    for _ in 0..12 {
        buf.extend_from_slice(b"pad!\0");
    }
    buf.extend_from_slice(b"other\0");
    buf.extend_from_slice(b"pad!\0");
    let hits = scan(&buf, &config(4, false, false, true));
    let t = texts(&hits);
    assert_eq!(12, t.len());
    assert_eq!("other", t[10]);
    assert_eq!("pad!", t[11]);
}

#[test]
fn scan_utf8_mode() {
    let buf = vec![0x00, b'a', b'b', 0x01, 0xC2, 0xA2, b'c', 0x00];
    let hits = scan(&buf, &config(4, false, true, false));
    assert_eq!(1, hits.len());
    assert_eq!(1, hits[0].offset);
    assert_eq!(6, hits[0].len);
    assert_eq!("ab\u{1}¢c", hits[0].text);
    // the same bytes give nothing in ASCII mode
    assert!(scan(&buf, &config(4, false, false, false)).is_empty());
}

#[test]
fn parallel_needs_large_buffer() {
    assert_eq!(Err(ScanError::TooSmallForWorkers), plan_chunks(500, 4).map(|_| ()));
    assert_eq!(Err(ScanError::TooSmallForWorkers), plan_chunks(999, 2).map(|_| ()));
    assert!(plan_chunks(1000, 2).is_ok());
}

#[test]
fn chunks_take_remainder_last() {
    let chunks = plan_chunks(1003, 4).unwrap();
    assert_eq!(vec![(0, 250), (250, 500), (500, 750), (750, 1003)], chunks);
    let one = plan_chunks(1200, 1).unwrap();
    assert_eq!(vec![(0, 1200)], one);
}

#[test]
fn parallel_matches_sequential_on_clean_edges() {
    // 4 chunks of 250 bytes; each chunk ends with a zero byte
    let mut buf = vec![0u8; 1000];
    for c in 0..4 {
        let word = format!("chunk{}word", c);
        let at = c * 250 + 10;
        buf[at..at + word.len()].copy_from_slice(word.as_bytes());
        let other = b"another";
        buf[at + 100..at + 107].copy_from_slice(other);
    }
    let cfg = config(4, false, false, false);
    let sequential = scan(&buf, &cfg);
    let mut parallel = Vec::new();
    for (s, e) in plan_chunks(buf.len(), 4).unwrap() {
        parallel.extend(scan_range(&buf, s, e, &cfg));
    }
    assert_eq!(8, sequential.len());
    assert_eq!(sequential.len(), parallel.len());
    for (a, b) in sequential.iter().zip(parallel.iter()) {
        assert_eq!(a.offset, b.offset);
        assert_eq!(a.len, b.len);
        assert_eq!(a.text, b.text);
    }
}

#[test]
fn chunk_edge_cuts_a_string() {
    let mut buf = vec![0u8; 1000];
    buf[495..505].copy_from_slice(b"straddling");
    let cfg = config(4, false, false, false);
    assert_eq!(vec!["straddling".to_string()], texts(&scan(&buf, &cfg)));
    let left = scan_range(&buf, 0, 500, &cfg);
    let right = scan_range(&buf, 500, 1000, &cfg);
    assert!(left.is_empty());
    assert_eq!(vec!["dling".to_string()], texts(&right));
    assert_eq!(500, right[0].offset);
}

#[test]
fn worker_counts() {
    assert_eq!(1, worker_count(1, 8));
    assert_eq!(4, worker_count(4, 8));
    assert_eq!(128, worker_count(0, 8));
    assert_eq!(0, worker_count(-3, 8));
    assert_eq!(usize::MAX, worker_count(0, usize::MAX));
    assert_eq!(7, detect_workers(7));
    assert!(detect_workers(0) >= 16);
    assert_eq!(0, detect_workers(-1));
}

#[test]
fn output_lines() {
    let hit = Hit { offset: 1207, len: 5, text: String::from("hello") };
    assert_eq!(b"hello".to_vec(), format_line(&hit, "a.out", false, false));
    assert_eq!(b"a.out:hello".to_vec(), format_line(&hit, "a.out", true, false));
    assert_eq!(b"1207:hello".to_vec(), format_line(&hit, "a.out", false, true));
    assert_eq!(b"a.out:1207:hello".to_vec(), format_line(&hit, "a.out", true, true));
    let first = Hit { offset: 0, len: 4, text: String::from("¢¢") };
    assert_eq!("0:¢¢".as_bytes().to_vec(), format_line(&first, "f", false, true));
}

#[test]
fn malformed_utf8_run_gives_empty_text() {
    // the byte 0x80 before the two-byte "¢" is consumed with it, and the
    // whole run is then not well-formed UTF-8
    let buf = vec![b'a', b'b', 0x80, 0xC2, 0xA2, b'c', b'd', 0x00];
    assert_eq!((true, 7), checkForString(buf.clone(), 0, 5, false, true));
    let hits = scan(&buf, &config(5, false, true, false));
    assert_eq!(1, hits.len());
    assert_eq!(7, hits[0].len);
    assert_eq!("", hits[0].text);
}
