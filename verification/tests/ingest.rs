//! Tests for the ingest path: digit parsing, time arithmetic, the subtitle
//! scanners and the segment-to-word builders.

use heurisko::ingest::{
    parse_u32_digits, words_from_segment, words_from_tokens, youtube_words, IngestError, SbvFile,
    SrtFile, SrtTime,
};

#[test]
fn digits_parse_exactly() {
    assert_eq!(parse_u32_digits("0"), Some(0));
    assert_eq!(parse_u32_digits("000123"), Some(123));
    assert_eq!(parse_u32_digits("4294967295"), Some(u32::MAX));
    assert_eq!(parse_u32_digits("4294967296"), None);
    assert_eq!(parse_u32_digits("99999999999"), None);
    assert_eq!(parse_u32_digits(""), None);
    assert_eq!(parse_u32_digits("12a"), None);
}

#[test]
fn timestamps_in_milliseconds() {
    let t = SrtTime { hours: 1, minutes: 2, seconds: 3, millis: 456 };
    assert_eq!(t.in_millis(), 3_600_000 + 120_000 + 3_000 + 456);
    // a millisecond field beyond three digits still just adds on
    let t = SrtTime { hours: 0, minutes: 0, seconds: 1, millis: 2000 };
    assert_eq!(t.in_millis(), 3_000);
}

#[test]
fn srt_blocks_are_scanned() {
    let text = "1\n00:00:01,000 --> 00:00:02,500\nhello there\n\n2\n00:00:03,000 --> 00:00:04,000\nbye\n";
    let f = SrtFile::parse(text).expect("two blocks");
    assert_eq!(f.segments.len(), 2);
    assert_eq!(f.segments[0].id, 1);
    assert_eq!(f.segments[0].start.in_millis(), 1000);
    assert_eq!(f.segments[0].end.in_millis(), 2500);
    assert_eq!(f.segments[0].text, "hello there");
    assert_eq!(f.segments[1].id, 2);
    let words = f.into_words();
    let texts: Vec<&str> = words.iter().map(|w| w.word.as_str()).collect();
    assert_eq!(texts, vec!["hello", "there", "bye"]);
    assert_eq!(words[0].start_ms, Some(1000));
    assert_eq!(words[0].end_ms, Some(2500));
    assert_eq!(words[2].start_ms, Some(3000));
}

#[test]
fn srt_needs_a_terminated_text_line() {
    let text = "1\n00:00:01,000 --> 00:00:02,000\nhello";
    assert_eq!(SrtFile::parse(text).err(), Some(IngestError::NoSegments));
    assert_eq!(SrtFile::parse("").err(), Some(IngestError::NoSegments));
    assert_eq!(SrtFile::parse("just some prose\n").err(), Some(IngestError::NoSegments));
}

#[test]
fn srt_number_may_trail_other_text() {
    let text = "ab12\n00:00:01,000 --> 00:00:02,000\nt\n";
    let f = SrtFile::parse(text).expect("one block");
    assert_eq!(f.segments.len(), 1);
    assert_eq!(f.segments[0].id, 12);
}

#[test]
fn srt_overflowing_number_is_an_error() {
    let text = "99999999999\n00:00:01,000 --> 00:00:02,000\nt\n";
    assert_eq!(SrtFile::parse(text).err(), Some(IngestError::NumberOutOfRange));
}

#[test]
fn srt_overflowing_number_without_time_line_is_no_match() {
    // the digits never take part in a block, so they are never parsed
    let text = "99999999999\nnot a time line\nx\n\n";
    assert_eq!(SrtFile::parse(text).err(), Some(IngestError::NoSegments));
}

#[test]
fn sbv_time_pair_may_follow_a_prefix() {
    let text = "xx0:00:01.000,0:00:02.000\nok\n";
    let f = SbvFile::parse(text).expect("scans");
    assert_eq!(f.segments.len(), 1);
    assert_eq!(f.segments[0].start.in_millis(), 1000);
    assert_eq!(f.segments[0].text, "ok");
}

#[test]
fn sbv_blocks_are_scanned() {
    let text = "0:00:01.000,0:00:02.000\nhi you\n";
    let f = SbvFile::parse(text).expect("scans");
    assert_eq!(f.segments.len(), 1);
    assert_eq!(f.segments[0].start.in_millis(), 1000);
    assert_eq!(f.segments[0].end.in_millis(), 2000);
    let words = f.into_words();
    let texts: Vec<&str> = words.iter().map(|w| w.word.as_str()).collect();
    assert_eq!(texts, vec!["hi", "you"]);
}

#[test]
fn sbv_millisecond_separator_is_loose() {
    let text = "0:00:01x123,0:00:02x000\nok\n";
    let f = SbvFile::parse(text).expect("scans");
    assert_eq!(f.segments.len(), 1);
    assert_eq!(f.segments[0].start.in_millis(), 1123);
}

#[test]
fn sbv_without_blocks_is_empty() {
    let f = SbvFile::parse("no captions here\n").expect("scans");
    assert!(f.segments.is_empty());
}

#[test]
fn segment_words_share_the_segment_times() {
    let words = words_from_segment("a  b\tc", Some(5), None);
    let texts: Vec<&str> = words.iter().map(|w| w.word.as_str()).collect();
    assert_eq!(texts, vec!["a", "b", "c"]);
    assert!(words.iter().all(|w| w.start_ms == Some(5) && w.end_ms.is_none()));
    assert!(words_from_segment("   ", Some(5), None).is_empty());
}

#[test]
fn caption_end_is_the_next_start() {
    let words = youtube_words(vec![("a b".to_string(), 10), ("c".to_string(), 20)]);
    let texts: Vec<&str> = words.iter().map(|w| w.word.as_str()).collect();
    assert_eq!(texts, vec!["a", "b", "c"]);
    assert_eq!(words[0].start_ms, Some(10));
    assert_eq!(words[0].end_ms, Some(20));
    assert_eq!(words[1].end_ms, Some(20));
    assert_eq!(words[2].start_ms, Some(20));
    assert_eq!(words[2].end_ms, None);
}

#[test]
fn aligned_tokens_pass_through() {
    let words = words_from_tokens(vec![
        ("Hey".to_string(), Some(1), Some(2)),
        ("you".to_string(), None, None),
    ]);
    assert_eq!(words.len(), 2);
    assert_eq!(words[0].word, "Hey");
    assert_eq!(words[0].start_ms, Some(1));
    assert_eq!(words[1].end_ms, None);
}
