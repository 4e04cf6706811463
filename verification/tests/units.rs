//! Unit tests for the building blocks: normalization, the window test of
//! segment ranges, the k-way merge, term-id bitsets, the word-index map and
//! the compressed envelope.

use heurisko::hsk::{decode_envelope, encode_envelope, index_words, Word};
use heurisko::merge::{merge_special, WordSegmentRange};
use heurisko::normalize::normalize_word;
use heurisko::searcher::find_all_extended_words;
use heurisko::word_id::{WordId, WordIdSet};

#[test]
fn normalize_examples() {
    assert_eq!(normalize_word("Hello, World!"), "helloworld");
    assert_eq!(normalize_word("1 John 3:10"), "1john310");
    assert_eq!(normalize_word("1"), "1");
    assert_eq!(normalize_word("John"), "john");
    assert_eq!(normalize_word("3:10"), "310");
    assert_eq!(normalize_word(",,,"), "");
    assert_eq!(normalize_word(""), "");
}

#[test]
fn normalize_idempotent_and_shrinking() {
    for raw in ["MiXeD CaSe", "héllo", "a1b2C3", "  spaces  "] {
        let once = normalize_word(raw);
        let twice = normalize_word(&once);
        assert_eq!(once, twice);
        assert!(once.chars().count() <= raw.chars().count());
        assert!(once.chars().all(|c| c.is_ascii_lowercase() || c.is_ascii_digit()));
    }
}

#[test]
fn window_test_boundaries() {
    // a fresh range seeded at 10 with an allowed range of 4
    let r = WordSegmentRange::new(10, WordId::from_index(0));
    assert!(r.can_add(11, 4));
    assert!(r.can_add(12, 4));
    assert!(r.can_add(13, 4));
    assert!(!r.can_add(14, 4));
    assert!(!r.can_add(15, 4));
    // a position equal to the seed passes the strictly-inside test too
    assert!(r.can_add(10, 4));
}

#[test]
fn add_updates_bounds() {
    let mut r = WordSegmentRange::new(10, WordId::from_index(0));
    assert!(r.add(12, 4));
    assert_eq!(r.min, 10);
    assert_eq!(r.max, 12);
    assert_eq!(r.elements, vec![10, 12]);
    assert_eq!(r.total_range(), 2);
    assert!(!r.add(14, 4));
    assert_eq!(r.elements, vec![10, 12]);
}

#[test]
fn merge_clusters_two_streams() {
    let ranges = merge_special(vec![vec![1], vec![3]], 10);
    assert_eq!(ranges.len(), 1);
    assert_eq!(ranges[0].min, 1);
    assert_eq!(ranges[0].max, 3);
    assert_eq!(ranges[0].elements, vec![1, 3]);
    assert_eq!(ranges[0].set.unique_count(), 2);
}

#[test]
fn merge_covers_every_position_within_the_window() {
    let streams = vec![vec![0usize, 7, 20], vec![2usize, 21], vec![40usize]];
    let allowed = 5;
    let ranges = merge_special(streams.clone(), allowed);
    for stream in &streams {
        for &p in stream {
            assert!(ranges.iter().any(|r| r.elements.contains(&p)));
        }
    }
    for r in &ranges {
        assert!(r.max - r.min <= allowed);
        assert!(r.set.unique_count() >= 1);
        assert!(!r.elements.is_empty());
    }
}

#[test]
fn merge_of_nothing_is_empty() {
    assert!(merge_special(vec![], 3).is_empty());
    assert!(merge_special(vec![vec![], vec![]], 3).is_empty());
}

#[test]
fn word_ids_are_single_bits() {
    for k in 0..32 {
        let id = WordId::from_index(k);
        assert_eq!(id.to_index(), k);
    }
    let mut set = WordIdSet::new(WordId::from_index(3));
    assert_eq!(set.unique_count(), 1);
    set.add(WordId::from_index(5));
    assert_eq!(set.unique_count(), 2);
    set.add(WordId::from_index(3));
    assert_eq!(set.unique_count(), 2);
}

#[test]
fn index_words_round_trip() {
    let words: Vec<Word> = "the Quick the! fox"
        .split_whitespace()
        .map(|w| Word::new(w.to_string(), None, None))
        .collect();
    let entries = index_words(&words);
    let keys: Vec<&str> = entries.iter().map(|(k, _)| k.as_str()).collect();
    assert_eq!(keys, vec!["fox", "quick", "the"]);
    let the = entries.iter().find(|(k, _)| k == "the").unwrap();
    assert_eq!(the.1, vec![0, 2]);
    let quick = entries.iter().find(|(k, _)| k == "quick").unwrap();
    assert_eq!(quick.1, vec![1]);
}

#[test]
fn index_words_skips_empty_normalizations() {
    let words: Vec<Word> = vec![
        Word::new(",,,".to_string(), None, None),
        Word::new("go".to_string(), None, None),
    ];
    let entries = index_words(&words);
    assert_eq!(entries.len(), 1);
    assert_eq!(entries[0].0, "go");
    assert_eq!(entries[0].1, vec![1]);
}

#[test]
fn envelope_round_trip() {
    let doc = br#"{"words":[{"word":"go","start":1.5,"end":null}],"word_index_map":{"go":[0]}}"#
        .to_vec();
    let framed = encode_envelope(&doc).expect("compresses");
    assert_ne!(framed, doc);
    let back = decode_envelope(&framed).expect("decompresses");
    assert_eq!(back, doc);
}

#[test]
fn envelope_rejects_garbage() {
    let garbage = vec![1u8, 2, 3, 4, 5];
    assert!(decode_envelope(&garbage).is_err());
}

#[test]
fn extended_words_share_the_prefix() {
    let keys: Vec<String> = ["run", "runner", "running", "walk"]
        .iter()
        .map(|s| s.to_string())
        .collect();
    let r = find_all_extended_words(&keys, "run").expect("matches");
    assert_eq!(r, vec!["run", "runner", "running"]);
    assert!(find_all_extended_words(&keys, "zeb").is_none());
    let all = find_all_extended_words(&keys, "").expect("everything matches the empty prefix");
    assert_eq!(all.len(), 4);
}

#[test]
fn timed_words_keep_their_times() {
    let w = Word::new("go".to_string(), Some(1500), Some(2250));
    assert_eq!(w.start_ms, Some(1500));
    assert_eq!(w.end_ms, Some(2250));
    let d = w.duplicate();
    assert_eq!(d.word, "go");
    assert_eq!(d.start_ms, Some(1500));
}
