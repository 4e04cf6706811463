//! End-to-end scenarios against a small in-memory corpus: proximity search
//! with ranking and context, exact-phrase search, diagnostics, and paging.

use heurisko::hsk::{index_words, Word};
use heurisko::searcher::Searcher;

fn words_of(text: &str) -> Vec<Word> {
    text.split_whitespace()
        .map(|w| Word::new(w.to_string(), None, None))
        .collect()
}

fn stop_words() -> Vec<String> {
    vec!["the".to_string(), "a".to_string(), "of".to_string()]
}

/// word_distance = 2, word_distance_with_stop_words_removed = 5,
/// page_size = 50, stop words {the, a, of}.
fn searcher_over(corpus: &[(&str, &str)]) -> Searcher {
    let mut s = Searcher::new(stop_words(), 2, 5, 50);
    for (path, text) in corpus {
        let words = words_of(text);
        let entries = index_words(&words);
        let ok = s.add_transcript(path.to_string(), words, entries);
        assert!(ok);
    }
    s
}

const T1: &str = "the quick brown fox jumps over the lazy dog";

#[test]
fn search_quick_fox_in_context() {
    let s = searcher_over(&[("t1", T1)]);
    let r = s.search("quick fox", 2, 0, true);
    assert_eq!(r.len(), 1);
    let hit = &r[0];
    assert_eq!(hit.transcript, "t1");
    assert_eq!(hit.unique_count, 2);
    assert_eq!(hit.element_count, 2);
    let texts: Vec<&str> = hit.words.iter().map(|w| w.word.as_str()).collect();
    assert_eq!(texts, vec!["the", "quick", "brown", "fox", "jumps", "over"]);
    let flags: Vec<bool> = hit.words.iter().map(|w| w.matched).collect();
    assert_eq!(flags, vec![false, true, false, true, false, false]);
}

#[test]
fn search_drops_stop_words() {
    let s = searcher_over(&[("t1", T1)]);
    let r = s.search("the quick", 2, 0, true);
    assert_eq!(r.len(), 1);
    let hit = &r[0];
    assert_eq!(hit.unique_count, 1);
    assert_eq!(hit.element_count, 1);
    // the single range {1, 1} windowed by two words of context
    let texts: Vec<&str> = hit.words.iter().map(|w| w.word.as_str()).collect();
    assert_eq!(texts, vec!["the", "quick", "brown", "fox"]);
    let flags: Vec<bool> = hit.words.iter().map(|w| w.matched).collect();
    assert_eq!(flags, vec![false, true, false, false]);
}

#[test]
fn search_empty_after_stop_word_removal() {
    let s = searcher_over(&[("t1", T1)]);
    let r = s.search("the of a", 2, 0, true);
    assert_eq!(r.len(), 0);
}

#[test]
fn ranking_prefers_more_distinct_terms() {
    let s = searcher_over(&[
        ("t1", "alpha beta gamma"),
        ("t2", "alpha beta delta"),
    ]);
    let r = s.search("alpha beta gamma", 0, 0, false);
    assert!(r.len() >= 2);
    assert_eq!(r[0].transcript, "t1");
    assert_eq!(r[0].unique_count, 3);
    assert_eq!(r[0].element_count, 3);
    // every further hit ranks no higher
    for hit in r.iter().skip(1) {
        assert!(
            hit.unique_count < r[0].unique_count
                || (hit.unique_count == r[0].unique_count
                    && hit.element_count <= r[0].element_count)
        );
    }
    assert!(r.iter().any(|h| h.transcript == "t2" && h.unique_count == 2));
}

#[test]
fn exact_phrase_two_hits() {
    let s = searcher_over(&[("t1", "alpha beta gamma beta gamma delta")]);
    let r = s.search_exact("beta gamma", 0);
    assert_eq!(r.len(), 2);
    for hit in &r {
        assert_eq!(hit.transcript, "t1");
        assert_eq!(hit.unique_count, 2);
        assert_eq!(hit.element_count, 2);
        let texts: Vec<&str> = hit.words.iter().map(|w| w.word.as_str()).collect();
        assert_eq!(texts, vec!["beta", "gamma"]);
        assert!(hit.words.iter().all(|w| w.matched));
    }
}

#[test]
fn exact_phrase_consecutive_only() {
    let s = searcher_over(&[("t1", "alpha x beta")]);
    let r = s.search_exact("alpha beta", 0);
    assert_eq!(r.len(), 0);
}

#[test]
fn exact_phrase_single_token() {
    let s = searcher_over(&[("t1", "alpha beta alpha")]);
    let r = s.search_exact("alpha", 0);
    assert_eq!(r.len(), 2);
    assert_eq!(r[0].words[0].word, "alpha");
    assert_eq!(r[0].unique_count, 1);
}

#[test]
fn diagnostics_partitions_query() {
    let s = searcher_over(&[("t1", "run runner running walk")]);
    let d = s.diagnose_query("run walk zebra the");
    assert_eq!(d.words, vec!["run", "walk", "zebra", "the"]);
    assert_eq!(d.ignored_words, vec!["the"]);
    assert_eq!(d.kept_words, vec!["run", "walk"]);
    assert_eq!(d.unmatched_words, vec!["zebra"]);
    let run_entry = d
        .similar_words
        .iter()
        .find(|(k, _)| k == "run")
        .expect("an entry for run");
    assert_eq!(run_entry.1, vec!["run", "runner", "running"]);
    let zebra_entry = d
        .similar_words
        .iter()
        .find(|(k, _)| k == "zebra")
        .expect("an entry for zebra");
    assert!(zebra_entry.1.is_empty());
}

#[test]
fn paging_cuts_the_ranked_hits() {
    // 120 isolated hits: the term repeats every tenth position, far outside
    // the proximity window of 1 token * 5.
    let mut text = String::new();
    for i in 0..120 {
        text.push_str("hit ");
        let filler = format!("f{} f{} f{} f{} f{} f{} f{} f{} f{} ", i, i, i, i, i, i, i, i, i);
        text.push_str(&filler);
    }
    let s = searcher_over(&[("t1", &text)]);
    let page0 = s.search("hit", 0, 0, true);
    assert_eq!(page0.len(), 50);
    // the window takes skip + page_size items after skipping skip items
    let page1 = s.search("hit", 0, 1, true);
    assert_eq!(page1.len(), 70);
    let page2 = s.search("hit", 0, 2, true);
    assert_eq!(page2.len(), 20);
    let page3 = s.search("hit", 0, 3, true);
    assert_eq!(page3.len(), 0);
}

#[test]
fn transcript_words_by_path() {
    let s = searcher_over(&[("dir/t1", "alpha beta")]);
    let v = s.get_transcript_words("dir/t1".to_string()).expect("stored path");
    assert_eq!(v.len(), 2);
    assert_eq!(v[0].word, "alpha");
    assert!(s.get_transcript_words("missing".to_string()).is_none());
}

#[test]
fn bad_index_map_is_refused() {
    let mut s = Searcher::new(stop_words(), 2, 5, 50);
    let words = words_of("alpha beta");
    // position out of range
    let entries = vec![("alpha".to_string(), vec![5usize])];
    assert!(!s.add_transcript("t1".to_string(), words, entries));
    // a refused file leaves the index empty
    assert_eq!(s.search("alpha", 0, 0, false).len(), 0);
    // positions not strictly increasing
    let words = words_of("alpha alpha");
    let entries = vec![("alpha".to_string(), vec![1usize, 0usize])];
    assert!(!s.add_transcript("t1".to_string(), words, entries));
}

#[test]
fn tokenize_normalizes_and_filters() {
    let s = searcher_over(&[("t1", T1)]);
    let toks = s.tokenize_query("The QUICK, fox! of", true);
    assert_eq!(toks, vec!["quick", "fox"]);
    let toks = s.tokenize_query("The QUICK, fox! of", false);
    assert_eq!(toks, vec!["the", "quick", "fox", "of"]);
    let toks = s.tokenize_query("  ,,, !!!  ", true);
    assert!(toks.is_empty());
}
