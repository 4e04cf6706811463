//! The global inverted index and the query planner: loading transcripts into
//! the index, proximity search with ranking and paging, exact-phrase search,
//! and query diagnostics.

use vstd::prelude::*;

use crate::hsk::{clone_words, copy_positions, Word};
use crate::merge::{non_decreasing, range_wf, strictly_increasing, WordSegmentRange};
use crate::normalize::{normalize_seq, normalize_word};
use crate::text::{is_prefix, split_ws};
use crate::word_id::popcount;
use crate::text::{lemma_seq_lt_irrefl, lemma_seq_lt_trans, lemma_seq_lt_trichotomy};
use crate::text::{seq_lt, str_lt};

verus! {

/// One word of a returned snippet, with its match flag.
#[derive(Debug)]
pub struct QueryWord {
    pub word: String,
    pub start_ms: Option<u64>,
    pub end_ms: Option<u64>,
    pub matched: bool,
}

/// One ranked search hit: the transcript path, the snippet, and the
/// two-level ranking key.
#[derive(Debug)]
pub struct QueryResult {
    pub transcript: String,
    pub words: Vec<QueryWord>,
    pub unique_count: usize,
    pub element_count: usize,
}

impl QueryResult {
    /// Builds a result from its parts.
    pub fn new(transcript: String, words: Vec<QueryWord>, unique_count: usize, element_count: usize) -> (r:
        QueryResult)
        ensures
            r.transcript == transcript,
            r.words == words,
            r.unique_count == unique_count,
            r.element_count == element_count,
    {
        QueryResult { transcript, words, unique_count, element_count }
    }
}

/// What became of each query term: dropped as a stop word, kept, missing
/// from the index, or extended by index keys sharing its prefix.
#[derive(Debug)]
pub struct QueryDiagnostics {
    pub words: Vec<String>,
    pub ignored_words: Vec<String>,
    pub kept_words: Vec<String>,
    pub unmatched_words: Vec<String>,
    pub similar_words: Vec<(String, Vec<String>)>,
}

/// Per-request knobs a caller may carry around.
#[derive(Debug)]
pub struct QueryParams {
    pub page: usize,
    pub context: usize,
    pub remove_stop_words: bool,
    pub word_distance: usize,
    pub keep_words: Vec<String>,
    pub similar_words: Vec<(String, Vec<String>)>,
}

/// One posting entry is sound for the stored transcripts.
pub open spec fn entry_wf(entry: (usize, Vec<usize>), tw: Seq<Vec<Word>>) -> bool {
    &&& (entry.0 as int) < tw.len()
    &&& strictly_increasing(entry.1@)
    &&& forall|p: int| 0 <= p < entry.1@.len() ==> (#[trigger] entry.1@[p]) < tw[entry.0 as int]@.len()
}

/// A posting list is sound: entries sound, transcript ids strictly ascending.
pub open spec fn posting_wf(entries: Seq<(usize, Vec<usize>)>, tw: Seq<Vec<Word>>) -> bool {
    &&& forall|e: int| 0 <= e < entries.len() ==> entry_wf(#[trigger] entries[e], tw)
    &&& forall|e1: int, e2: int|
        0 <= e1 < e2 < entries.len() ==> (#[trigger] entries[e1]).0 < (#[trigger] entries[e2]).0
}

/// The in-memory search index: one word list and path per transcript, and a
/// global inverted map from normalized word to per-transcript positions,
/// held as the sorted key list and a parallel posting table.
pub struct Searcher {
    pub transcript_paths: Vec<String>,
    pub transcript_words: Vec<Vec<Word>>,
    pub all_words: Vec<String>,
    pub postings: Vec<Vec<(usize, Vec<usize>)>>,
    pub stop_words: Vec<String>,
    pub word_distance: usize,
    pub word_distance_with_stop_words_removed: usize,
    pub page_size: usize,
}

impl Searcher {
    /// Structural soundness of the index.
    pub open spec fn wf(self) -> bool {
        &&& self.transcript_paths@.len() == self.transcript_words@.len()
        &&& self.all_words@.len() == self.postings@.len()
        &&& forall|i: int, j: int|
            0 <= i < j < self.all_words@.len() ==> seq_lt(
                (#[trigger] self.all_words@[i])@,
                (#[trigger] self.all_words@[j])@,
            )
        &&& forall|w: int|
            0 <= w < self.postings@.len() ==> posting_wf(
                (#[trigger] self.postings@[w])@,
                self.transcript_words@,
            )
    }

    /// The index has an entry for the normalized word.
    pub open spec fn has_key(self, w: Seq<char>) -> bool {
        exists|i: int| 0 <= i < self.all_words@.len() && (#[trigger] self.all_words@[i])@ == w
    }

    /// The index slot of the normalized word.
    pub open spec fn key_at(self, w: Seq<char>) -> int {
        choose|i: int| 0 <= i < self.all_words@.len() && (#[trigger] self.all_words@[i])@ == w
    }

    /// The per-transcript position entries recorded under the word, oldest
    /// transcript first; empty when the word is unknown.
    pub open spec fn postings_of(self, w: Seq<char>) -> Seq<(usize, Vec<usize>)> {
        if self.has_key(w) {
            self.postings@[self.key_at(w)]@
        } else {
            Seq::empty()
        }
    }

    /// The word occurs in the transcript.
    pub open spec fn has_tid(self, w: Seq<char>, tid: int) -> bool {
        exists|e: int|
            0 <= e < self.postings_of(w).len() && (#[trigger] self.postings_of(w)[e]).0 == tid
    }

    /// The posting slot of the transcript under the word.
    pub open spec fn tid_entry_at(self, w: Seq<char>, tid: int) -> int {
        choose|e: int|
            0 <= e < self.postings_of(w).len() && (#[trigger] self.postings_of(w)[e]).0 == tid
    }

    /// The ascending positions of the word in the transcript; empty when it
    /// does not occur.
    pub open spec fn positions_of(self, w: Seq<char>, tid: int) -> Seq<usize> {
        if self.has_tid(w, tid) {
            self.postings_of(w)[self.tid_entry_at(w, tid)].1@
        } else {
            Seq::empty()
        }
    }

    /// An empty index with the given stop words and configuration knobs.
    pub fn new(
        stop_words: Vec<String>,
        word_distance: usize,
        word_distance_with_stop_words_removed: usize,
        page_size: usize,
    ) -> (r: Searcher)
        ensures
            r.wf(),
            r.transcript_paths@.len() == 0,
            r.transcript_words@.len() == 0,
            r.all_words@.len() == 0,
            r.stop_words == stop_words,
            r.word_distance == word_distance,
            r.word_distance_with_stop_words_removed == word_distance_with_stop_words_removed,
            r.page_size == page_size,
    {
        Searcher {
            transcript_paths: Vec::new(),
            transcript_words: Vec::new(),
            all_words: Vec::new(),
            postings: Vec::new(),
            stop_words,
            word_distance,
            word_distance_with_stop_words_removed,
            page_size,
        }
    }
}

proof fn lemma_key_slot_unique(s: Searcher, w: Seq<char>, i: int)
    requires
        s.wf(),
        0 <= i < s.all_words@.len(),
        s.all_words@[i]@ == w,
    ensures
        s.has_key(w),
        s.key_at(w) == i,
{
    assert(s.has_key(w));
    let j = s.key_at(w);
    if i != j {
        if i < j {
            lemma_seq_lt_irrefl(w);
        } else {
            lemma_seq_lt_irrefl(w);
        }
    }
}

proof fn lemma_tid_slot_unique(s: Searcher, w: Seq<char>, e: int)
    requires
        s.wf(),
        s.has_key(w),
        0 <= e < s.postings_of(w).len(),
    ensures
        s.has_tid(w, s.postings_of(w)[e].0 as int),
        s.tid_entry_at(w, s.postings_of(w)[e].0 as int) == e,
{
    let tid = s.postings_of(w)[e].0 as int;
    assert(s.has_tid(w, tid));
    let e2 = s.tid_entry_at(w, tid);
    assert(posting_wf(s.postings_of(w), s.transcript_words@));
    if e != e2 {
        if e < e2 {
            assert(s.postings_of(w)[e].0 < s.postings_of(w)[e2].0);
        } else {
            assert(s.postings_of(w)[e2].0 < s.postings_of(w)[e].0);
        }
    }
}

impl Searcher {
    /// Finds the index slot of a word.
    fn lookup_key(&self, w: &String) -> (r: Option<usize>)
        requires
            self.wf(),
        ensures
            match r {
                Some(i) => self.has_key(w@) && i == self.key_at(w@) && i < self.all_words@.len(),
                None => !self.has_key(w@),
            },
    {
        let n = self.all_words.len();
        let mut i: usize = 0;
        while i < n
            invariant
                i <= n,
                n == self.all_words@.len(),
                self.wf(),
                forall|x: int| 0 <= x < i ==> (#[trigger] self.all_words@[x])@ != w@,
            decreases n - i,
        {
            if self.all_words[i] == *w {
                proof {
                    lemma_key_slot_unique(*self, w@, i as int);
                }
                return Some(i);
            }
            i += 1;
        }
        None
    }

    /// Finds the posting entry of a transcript under a word slot.
    fn lookup_tid(&self, slot: usize, tid: usize) -> (r: Option<usize>)
        requires
            self.wf(),
            slot < self.postings@.len(),
            self.has_key(self.all_words@[slot as int]@),
            self.key_at(self.all_words@[slot as int]@) == slot,
        ensures
            ({
                let w = self.all_words@[slot as int]@;
                match r {
                    Some(e) => self.has_tid(w, tid as int) && e == self.tid_entry_at(w, tid as int)
                        && e < self.postings@[slot as int]@.len(),
                    None => !self.has_tid(w, tid as int),
                }
            }),
    {
        let ghost w = self.all_words@[slot as int]@;
        proof {
            assert(self.postings_of(w) == self.postings@[slot as int]@);
        }
        let entries = &self.postings[slot];
        let n = entries.len();
        let mut e: usize = 0;
        while e < n
            invariant
                e <= n,
                n == entries@.len(),
                entries@ == self.postings_of(w),
                self.wf(),
                self.has_key(w),
                self.key_at(w) == slot as int,
                slot < self.postings@.len(),
                w == self.all_words@[slot as int]@,
                entries@ == self.postings@[slot as int]@,
                forall|x: int| 0 <= x < e ==> (#[trigger] entries@[x]).0 != tid,
            decreases n - e,
        {
            if entries[e].0 == tid {
                proof {
                    lemma_tid_slot_unique(*self, w, e as int);
                }
                return Some(e);
            }
            e += 1;
        }
        proof {
            if self.has_tid(w, tid as int) {
                let x = choose|x: int|
                    0 <= x < self.postings_of(w).len() && (#[trigger] self.postings_of(w)[x]).0
                        == tid;
                assert(entries@[x].0 == tid);
            }
        }
        None
    }
}

/// Every word other than the named key answers queries as before.
pub open spec fn frame_except(s1: Searcher, s2: Searcher, key: Seq<char>) -> bool {
    forall|w: Seq<char>, t: int|
        #![trigger s2.positions_of(w, t)]
        #![trigger s2.has_tid(w, t)]
        w != key ==> s2.has_tid(w, t) == s1.has_tid(w, t) && s2.positions_of(w, t)
            == s1.positions_of(w, t)
}

/// Reads one instance out of a frame fact.
pub proof fn lemma_frame_apply(s1: Searcher, s2: Searcher, key: Seq<char>, w: Seq<char>, t: int)
    requires
        frame_except(s1, s2, key),
        w != key,
    ensures
        s2.has_tid(w, t) == s1.has_tid(w, t),
        s2.positions_of(w, t) == s1.positions_of(w, t),
{
    assert(s2.positions_of(w, t) == s2.positions_of(w, t));
}

proof fn lemma_same_postings(s1: Searcher, s2: Searcher, w: Seq<char>, t: int)
    requires
        s1.wf(),
        s2.wf(),
        s1.has_key(w) == s2.has_key(w),
        s1.postings_of(w) == s2.postings_of(w),
    ensures
        s1.has_tid(w, t) == s2.has_tid(w, t),
        s1.positions_of(w, t) == s2.positions_of(w, t),
{
    if s1.has_tid(w, t) {
        let e = s1.tid_entry_at(w, t);
        assert(s2.postings_of(w)[e].0 == t);
        assert(s2.has_tid(w, t));
    }
    if s2.has_tid(w, t) {
        let e = s2.tid_entry_at(w, t);
        assert(s1.postings_of(w)[e].0 == t);
        assert(s1.has_tid(w, t));
    }
    if s1.has_tid(w, t) {
        assert(s1.has_key(w)) by {
            if !s1.has_key(w) {
                assert(s1.postings_of(w).len() == 0);
            }
        }
        let e1 = s1.tid_entry_at(w, t);
        lemma_tid_slot_unique(s2, w, e1);
        assert(s2.tid_entry_at(w, t) == e1);
    }
}

proof fn lemma_frame_updated_slot(s1: Searcher, s2: Searcher, key: Seq<char>, slot: int)
    requires
        s1.wf(),
        s2.wf(),
        s2.all_words == s1.all_words,
        0 <= slot < s1.postings@.len(),
        s1.all_words@[slot]@ == key,
        s2.postings@.len() == s1.postings@.len(),
        forall|x: int|
            0 <= x < s1.postings@.len() && x != slot ==> #[trigger] s2.postings@[x]
                == s1.postings@[x],
    ensures
        frame_except(s1, s2, key),
{
    assert(s2.all_words@ == s1.all_words@);
    assert forall|w: Seq<char>, t: int|
        #![trigger s2.positions_of(w, t)]
        #![trigger s2.has_tid(w, t)]
        w != key implies s2.has_tid(w, t) == s1.has_tid(w, t) && s2.positions_of(w, t)
        == s1.positions_of(w, t) by {
        if s1.has_key(w) {
            let i = s1.key_at(w);
            lemma_key_slot_unique(s1, w, i);
            assert(s2.all_words@[i]@ == w);
            lemma_key_slot_unique(s2, w, i);
            assert(i != slot) by {
                if i == slot {
                    assert(s1.all_words@[slot]@ == key);
                }
            }
            assert(s2.postings@[i] == s1.postings@[i]);
            assert(s2.postings_of(w) == s1.postings_of(w));
        } else {
            assert(!s2.has_key(w)) by {
                if s2.has_key(w) {
                    let j = choose|j: int|
                        0 <= j < s2.all_words@.len() && (#[trigger] s2.all_words@[j])@ == w;
                    assert(s1.all_words@[j]@ == w);
                }
            }
            assert(s2.postings_of(w) == s1.postings_of(w));
        }
        lemma_same_postings(s1, s2, w, t);
    }
}

proof fn lemma_frame_inserted_slot(s1: Searcher, s2: Searcher, key_s: String, e: int)
    requires
        s1.wf(),
        s2.wf(),
        0 <= e <= s1.all_words@.len(),
        s2.all_words@ == s1.all_words@.insert(e, key_s),
        s2.postings@.len() == s1.postings@.len() + 1,
        forall|x: int| 0 <= x < e ==> #[trigger] s2.postings@[x] == s1.postings@[x],
        forall|x: int| e < x < s2.postings@.len() ==> #[trigger] s2.postings@[x] == s1.postings@[x
            - 1],
    ensures
        frame_except(s1, s2, key_s@),
{
    let key = key_s@;
    assert forall|w: Seq<char>, t: int|
        #![trigger s2.positions_of(w, t)]
        #![trigger s2.has_tid(w, t)]
        w != key implies s2.has_tid(w, t) == s1.has_tid(w, t) && s2.positions_of(w, t)
        == s1.positions_of(w, t) by {
        if s1.has_key(w) {
            let i = s1.key_at(w);
            lemma_key_slot_unique(s1, w, i);
            let i2: int = if i < e {
                i
            } else {
                i + 1
            };
            assert(s2.all_words@[i2]@ == w);
            lemma_key_slot_unique(s2, w, i2);
            assert(s2.postings_of(w) == s1.postings_of(w));
        } else {
            assert(!s2.has_key(w)) by {
                if s2.has_key(w) {
                    let j = choose|j: int|
                        0 <= j < s2.all_words@.len() && (#[trigger] s2.all_words@[j])@ == w;
                    if j < e {
                        assert(s1.all_words@[j]@ == w);
                    } else if j > e {
                        assert(s1.all_words@[j - 1]@ == w);
                    }
                }
            }
            assert(s2.postings_of(w) == s1.postings_of(w));
        }
        lemma_same_postings(s1, s2, w, t);
    }
}

/// Every transcript id recorded anywhere in the posting table lies below
/// the bound.
pub open spec fn tids_below(s: Searcher, bound: int) -> bool {
    forall|w: int, e: int|
        0 <= w < s.postings@.len() && 0 <= e < s.postings@[w]@.len() ==> ((#[trigger] s.postings@[w]@[e]).0 as int) < bound
}

proof fn lemma_wf_tids_below(s: Searcher)
    requires
        s.wf(),
    ensures
        tids_below(s, s.transcript_words@.len() as int),
{
    assert forall|w: int, e: int|
        0 <= w < s.postings@.len() && 0 <= e < s.postings@[w]@.len() implies ((
    #[trigger] s.postings@[w]@[e]).0 as int) < s.transcript_words@.len() as int by {
        assert(posting_wf(s.postings@[w]@, s.transcript_words@));
        assert(entry_wf(s.postings@[w]@[e], s.transcript_words@));
    }
}

/// A word-index map is acceptable for a transcript of n words: keys strictly
/// sorted (hence unique), every position list strictly increasing and within
/// the transcript.
pub open spec fn entries_valid(entries: Seq<(String, Vec<usize>)>, n: int) -> bool {
    &&& forall|e1: int, e2: int|
        0 <= e1 < e2 < entries.len() ==> seq_lt(
            (#[trigger] entries[e1]).0@,
            (#[trigger] entries[e2]).0@,
        )
    &&& forall|e: int|
        0 <= e < entries.len() ==> strictly_increasing((#[trigger] entries[e]).1@) && (forall|
            p: int,
        | 0 <= p < entries[e].1@.len() ==> ((#[trigger] entries[e].1@[p]) as int) < n)
}

impl Searcher {
    /// Appends one transcript's positions under one normalized key, creating
    /// the key when it is new. Every other key's postings are untouched.
    #[verifier::rlimit(100)]
    fn add_entry(&mut self, key: String, tid: usize, positions: Vec<usize>)
        requires
            old(self).wf(),
            (tid as int) < old(self).transcript_words@.len(),
            strictly_increasing(positions@),
            forall|p: int|
                0 <= p < positions@.len() ==> ((#[trigger] positions@[p]) as int) < old(self).transcript_words@[tid as int]@.len(),
            tids_below(*old(self), tid as int + 1),
            !old(self).has_tid(key@, tid as int),
        ensures
            final(self).wf(),
            final(self).transcript_paths == old(self).transcript_paths,
            final(self).transcript_words == old(self).transcript_words,
            final(self).stop_words == old(self).stop_words,
            final(self).word_distance == old(self).word_distance,
            final(self).word_distance_with_stop_words_removed == old(self).word_distance_with_stop_words_removed,
            final(self).page_size == old(self).page_size,
            tids_below(*final(self), tid as int + 1),
            final(self).has_key(key@),
            final(self).has_tid(key@, tid as int),
            final(self).positions_of(key@, tid as int) == positions@,
            frame_except(*old(self), *final(self), key@),
            forall|w: Seq<char>| #[trigger]
                final(self).has_key(w) == (old(self).has_key(w) || w == key@),
    {
        let ghost g_old = *self;
        let slot_opt = self.lookup_key(&key);
        match slot_opt {
            Some(slot) => {
                let ghost old_posting = self.postings@[slot as int]@;
                let plist = &mut self.postings[slot];
                plist.push((tid, positions));
                proof {
                    assert(self.postings@ == g_old.postings@.update(
                        slot as int,
                        self.postings@[slot as int],
                    ));
                    assert(self.postings@[slot as int]@ == old_posting.push((tid, positions)));
                    assert(self.all_words == g_old.all_words);
                    // the updated posting stays sound
                    assert((*self).wf()) by {
                        assert forall|w: int|
                            0 <= w < self.postings@.len() implies posting_wf(
                            (#[trigger] self.postings@[w])@,
                            self.transcript_words@,
                        ) by {
                            if w == slot {
                                let es = self.postings@[w]@;
                                assert(posting_wf(old_posting, self.transcript_words@));
                                assert forall|e: int| 0 <= e < es.len() implies entry_wf(
                                    #[trigger] es[e],
                                    self.transcript_words@,
                                ) by {
                                    if e < old_posting.len() {
                                        assert(es[e] == old_posting[e]);
                                    }
                                }
                                assert forall|e1: int, e2: int|
                                    0 <= e1 < e2 < es.len() implies (#[trigger] es[e1]).0 < (
                                #[trigger] es[e2]).0 by {
                                    if e2 < old_posting.len() {
                                        assert(es[e1] == old_posting[e1] && es[e2]
                                            == old_posting[e2]);
                                    } else {
                                        assert(es[e2].0 == tid);
                                        assert(es[e1] == old_posting[e1]);
                                        assert((g_old.postings@[slot as int]@[e1].0 as int) < tid
                                            + 1);
                                        assert(g_old.postings_of(key@) == old_posting);
                                        if (es[e1].0 as int) == tid as int {
                                            assert(g_old.has_tid(key@, tid as int));
                                        }
                                    }
                                }
                            } else {
                                assert(self.postings@[w]@ == g_old.postings@[w]@);
                            }
                        }
                    }
                    lemma_key_slot_unique(*self, key@, slot as int);
                    assert(self.postings_of(key@) == old_posting.push((tid, positions)));
                    lemma_tid_slot_unique(*self, key@, old_posting.len() as int);
                    assert(self.positions_of(key@, tid as int) == positions@);
                    // untouched keys answer as before
                    lemma_frame_updated_slot(g_old, *self, key@, slot as int);
                    assert forall|w: Seq<char>| #[trigger]
                        self.has_key(w) == (g_old.has_key(w) || w == key@) by {}
                    assert(tids_below(*self, tid as int + 1)) by {
                        assert forall|w: int, e: int|
                            0 <= w < self.postings@.len() && 0 <= e < self.postings@[w]@.len() implies ((
                        #[trigger] self.postings@[w]@[e]).0 as int) < tid as int + 1 by {
                            if w == slot && e == old_posting.len() {
                            } else {
                                assert(self.postings@[w]@[e] == g_old.postings@[w]@[e]);
                            }
                        }
                    }
                }
            },
            None => {
                // new key: insert into the sorted key list and the posting
                // table in parallel
                let mut e: usize = 0;
                let ghost kseq = key@;
                loop
                    invariant
                        e <= self.all_words@.len(),
                        *self == g_old,
                        kseq == key@,
                        forall|x: int| 0 <= x < e ==> seq_lt((#[trigger] self.all_words@[x])@, kseq),
                    ensures
                        e <= self.all_words@.len(),
                        *self == g_old,
                        forall|x: int| 0 <= x < e ==> seq_lt((#[trigger] self.all_words@[x])@, kseq),
                        e < self.all_words@.len() ==> !seq_lt(self.all_words@[e as int]@, kseq),
                    decreases self.all_words@.len() - e,
                {
                    if e >= self.all_words.len() {
                        break ;
                    }
                    if !str_lt(self.all_words[e].as_str(), key.as_str()) {
                        break ;
                    }
                    e += 1;
                }
                proof {
                    assert forall|x: int|
                        e <= x < self.all_words@.len() implies seq_lt(
                        kseq,
                        (#[trigger] self.all_words@[x])@,
                    ) by {
                        lemma_seq_lt_trichotomy(self.all_words@[e as int]@, kseq);
                        if self.all_words@[e as int]@ == kseq {
                            lemma_key_slot_unique(g_old, kseq, e as int);
                        }
                        if x > e {
                            lemma_seq_lt_trans(kseq, self.all_words@[e as int]@, self.all_words@[x]@);
                        }
                    }
                }
                let mut new_posting: Vec<(usize, Vec<usize>)> = Vec::new();
                new_posting.push((tid, positions));
                self.all_words.insert(e, key);
                self.postings.insert(e, new_posting);
                proof {
                    assert(self.all_words@ == g_old.all_words@.insert(e as int, key));
                    assert(self.postings@[e as int]@ =~= seq![(tid, positions)]);
                    assert forall|x: int| 0 <= x < e implies #[trigger] self.all_words@[x]
                        == g_old.all_words@[x] && self.postings@[x] == g_old.postings@[x] by {}
                    assert forall|x: int|
                        e < x < self.all_words@.len() implies #[trigger] self.all_words@[x]
                        == g_old.all_words@[x - 1] && self.postings@[x] == g_old.postings@[x
                        - 1] by {}
                    assert((*self).wf()) by {
                        assert forall|i: int, j: int|
                            0 <= i < j < self.all_words@.len() implies seq_lt(
                            (#[trigger] self.all_words@[i])@,
                            (#[trigger] self.all_words@[j])@,
                        ) by {
                            if i < e && j > e {
                                lemma_seq_lt_trans(
                                    g_old.all_words@[i]@,
                                    kseq,
                                    g_old.all_words@[j - 1]@,
                                );
                            }
                        }
                        assert forall|w: int|
                            0 <= w < self.postings@.len() implies posting_wf(
                            (#[trigger] self.postings@[w])@,
                            self.transcript_words@,
                        ) by {
                            if w == e {
                                assert(self.postings@[w]@ =~= seq![(tid, positions)]);
                                assert(entry_wf((tid, positions), self.transcript_words@));
                            } else if w < e {
                                assert(self.postings@[w]@ == g_old.postings@[w]@);
                            } else {
                                assert(self.postings@[w]@ == g_old.postings@[w - 1]@);
                            }
                        }
                    }
                    lemma_key_slot_unique(*self, kseq, e as int);
                    assert(self.postings_of(kseq) =~= seq![(tid, positions)]);
                    lemma_tid_slot_unique(*self, kseq, 0);
                    assert(self.positions_of(kseq, tid as int) == positions@);
                    lemma_frame_inserted_slot(g_old, *self, key, e as int);
                    assert forall|w: Seq<char>| #[trigger]
                        self.has_key(w) == (g_old.has_key(w) || w == kseq) by {
                        if self.has_key(w) && w != kseq {
                            let j = choose|j: int|
                                0 <= j < self.all_words@.len() && (#[trigger] self.all_words@[j])@
                                    == w;
                            if j < e {
                                assert(g_old.all_words@[j]@ == w);
                            } else if j > e {
                                assert(g_old.all_words@[j - 1]@ == w);
                            }
                        }
                        if g_old.has_key(w) {
                            let i = g_old.key_at(w);
                            lemma_key_slot_unique(g_old, w, i);
                            let i2: int = if i < e {
                                i
                            } else {
                                i + 1
                            };
                            assert(self.all_words@[i2]@ == w);
                        }
                        if w == kseq {
                            assert(self.all_words@[e as int]@ == w);
                        }
                    }
                    assert(tids_below(*self, tid as int + 1)) by {
                        assert forall|w: int, ex: int|
                            0 <= w < self.postings@.len() && 0 <= ex < self.postings@[w]@.len() implies
                            ((#[trigger] self.postings@[w]@[ex]).0 as int) < tid as int + 1 by {
                            if w < e {
                                assert(self.postings@[w]@[ex] == g_old.postings@[w]@[ex]);
                            } else if w > e {
                                assert(self.postings@[w]@[ex] == g_old.postings@[w - 1]@[ex]);
                            }
                        }
                    }
                }
            },
        }
    }
}

proof fn lemma_pairwise_keys(entries: Seq<(String, Vec<usize>)>, e1: int, e2: int)
    requires
        forall|x: int|
            0 <= x < entries.len() - 1 ==> seq_lt(
                (#[trigger] entries[x]).0@,
                entries[x + 1].0@,
            ),
        0 <= e1 < e2 < entries.len(),
    ensures
        seq_lt(entries[e1].0@, entries[e2].0@),
    decreases e2 - e1,
{
    if e2 == e1 + 1 {
    } else {
        lemma_pairwise_keys(entries, e1, e2 - 1);
        lemma_seq_lt_trans(entries[e1].0@, entries[e2 - 1].0@, entries[e2].0@);
    }
}

proof fn lemma_pairwise_positions(ps: Seq<usize>, p1: int, p2: int)
    requires
        forall|x: int| 0 <= x < ps.len() - 1 ==> (#[trigger] ps[x]) < ps[x + 1],
        0 <= p1 < p2 < ps.len(),
    ensures
        ps[p1] < ps[p2],
    decreases p2 - p1,
{
    if p2 > p1 + 1 {
        lemma_pairwise_positions(ps, p1, p2 - 1);
    }
}

/// No word of the index mentions a transcript id at or above the bound.
proof fn lemma_no_tid(s: Searcher, w: Seq<char>, t: int, bound: int)
    requires
        s.wf(),
        tids_below(s, bound),
        t >= bound,
    ensures
        !s.has_tid(w, t),
{
    if s.has_tid(w, t) {
        let e = choose|e: int|
            0 <= e < s.postings_of(w).len() && (#[trigger] s.postings_of(w)[e]).0 == t;
        assert(s.has_key(w)) by {
            if !s.has_key(w) {
                assert(s.postings_of(w).len() == 0);
            }
        }
        let slot = s.key_at(w);
        assert(0 <= slot < s.all_words@.len());
        assert(s.postings_of(w) == s.postings@[slot]@);
        assert(s.postings@[slot]@[e].0 == t);
        assert((s.postings@[slot]@[e].0 as int) < bound);
    }
}

impl Searcher {
    /// Checks that a word-index map carried by a transcript file is sound
    /// for a transcript of n words.
    fn check_entries(entries: &Vec<(String, Vec<usize>)>, n: usize) -> (r: bool)
        ensures
            r == entries_valid(entries@, n as int),
    {
        let len = entries.len();
        let mut e: usize = 0;
        while e < len
            invariant
                e <= len,
                len == entries@.len(),
                forall|x: int|
                    0 <= x < e && x < len - 1 ==> seq_lt(
                        (#[trigger] entries@[x]).0@,
                        entries@[x + 1].0@,
                    ),
                forall|x: int|
                    0 <= x < e ==> strictly_increasing((#[trigger] entries@[x]).1@) && (forall|
                        p: int,
                    | 0 <= p < entries@[x].1@.len() ==> ((#[trigger] entries@[x].1@[p]) as int)
                        < n as int),
            decreases len - e,
        {
            if e + 1 < len {
                let a = &entries[e];
                let b = &entries[e + 1];
                if !str_lt(a.0.as_str(), b.0.as_str()) {
                    proof {
                        assert(!entries_valid(entries@, n as int));
                    }
                    return false;
                }
            }
            let ps = &entries[e].1;
            let m = ps.len();
            let mut p: usize = 0;
            while p < m
                invariant
                    p <= m,
                    m == ps@.len(),
                    ps@ == entries@[e as int].1@,
                    e < entries@.len(),
                    n == n,
                    forall|x: int| 0 <= x < p && x < m - 1 ==> (#[trigger] ps@[x]) < ps@[x + 1],
                    forall|x: int| 0 <= x < p ==> ((#[trigger] ps@[x]) as int) < n as int,
                decreases m - p,
            {
                if ps[p] >= n {
                    proof {
                        assert(((entries@[e as int].1@[p as int]) as int) >= n as int);
                        assert(!entries_valid(entries@, n as int));
                    }
                    return false;
                }
                if p + 1 < m {
                    if ps[p] >= ps[p + 1] {
                        proof {
                            assert(!strictly_increasing(entries@[e as int].1@));
                            assert(!entries_valid(entries@, n as int));
                        }
                        return false;
                    }
                }
                p += 1;
            }
            proof {
                assert(strictly_increasing(entries@[e as int].1@)) by {
                    assert forall|x: int, y: int|
                        0 <= x < y < ps@.len() implies (#[trigger] ps@[x]) < (
                    #[trigger] ps@[y]) by {
                        lemma_pairwise_positions(ps@, x, y);
                    }
                }
            }
            e += 1;
        }
        proof {
            assert forall|e1: int, e2: int| 0 <= e1 < e2 < entries@.len() implies seq_lt(
                (#[trigger] entries@[e1]).0@,
                (#[trigger] entries@[e2]).0@,
            ) by {
                lemma_pairwise_keys(entries@, e1, e2);
            }
        }
        true
    }

    /// Loads one transcript: records its path and word list under the next
    /// transcript id and appends its word-index map into the global index.
    /// A structurally unsound map is refused and the index is untouched, so
    /// that one bad file never poisons loading.
    #[verifier::rlimit(100)]
    pub fn add_transcript(
        &mut self,
        path: String,
        words: Vec<Word>,
        entries: Vec<(String, Vec<usize>)>,
    ) -> (ok: bool)
        requires
            old(self).wf(),
        ensures
            final(self).wf(),
            ok == entries_valid(entries@, words@.len() as int),
            !ok ==> *final(self) == *old(self),
            ok ==> final(self).transcript_paths@ == old(self).transcript_paths@.push(path)
                && final(self).transcript_words@ == old(self).transcript_words@.push(words) && (
            forall|x: int|
                0 <= x < entries@.len() ==> final(self).positions_of(
                    (#[trigger] entries@[x]).0@,
                    old(self).transcript_words@.len() as int,
                ) == entries@[x].1@),
            final(self).stop_words == old(self).stop_words,
            final(self).word_distance == old(self).word_distance,
            final(self).word_distance_with_stop_words_removed == old(
                self,
            ).word_distance_with_stop_words_removed,
            final(self).page_size == old(self).page_size,
    {
        let n = words.len();
        if !Self::check_entries(&entries, n) {
            return false;
        }
        let ghost g0 = *self;
        let tid = self.transcript_words.len();
        proof {
            lemma_wf_tids_below(g0);
        }
        self.transcript_paths.push(path);
        self.transcript_words.push(words);
        proof {
            assert(self.wf()) by {
                assert forall|w: int|
                    0 <= w < self.postings@.len() implies posting_wf(
                    (#[trigger] self.postings@[w])@,
                    self.transcript_words@,
                ) by {
                    assert(posting_wf(g0.postings@[w]@, g0.transcript_words@));
                    assert forall|x: int|
                        0 <= x < self.postings@[w]@.len() implies entry_wf(
                        #[trigger] self.postings@[w]@[x],
                        self.transcript_words@,
                    ) by {
                        assert(entry_wf(g0.postings@[w]@[x], g0.transcript_words@));
                        assert(self.transcript_words@[g0.postings@[w]@[x].0 as int]
                            == g0.transcript_words@[g0.postings@[w]@[x].0 as int]);
                    }
                }
            }
            assert(tids_below(*self, tid as int));
        }
        let ghost g_entries = entries@;
        let mut entries = entries;
        proof {
            assert forall|x: int| 0 <= x < entries@.len() implies !self.has_tid(
                (#[trigger] g_entries[x]).0@,
                tid as int,
            ) by {
                lemma_no_tid(*self, g_entries[x].0@, tid as int, tid as int);
            }
        }
        while entries.len() > 0
            invariant
                self.wf(),
                tids_below(*self, tid as int + 1),
                entries@ == g_entries.take(entries@.len() as int),
                entries@.len() <= g_entries.len(),
                (tid as int) < self.transcript_words@.len(),
                self.transcript_words@[tid as int]@.len() == n as int,
                entries_valid(g_entries, n as int),
                self.transcript_paths@ == g0.transcript_paths@.push(path),
                self.transcript_words@ == g0.transcript_words@.push(words),
                self.stop_words == g0.stop_words,
                self.word_distance == g0.word_distance,
                self.word_distance_with_stop_words_removed
                    == g0.word_distance_with_stop_words_removed,
                self.page_size == g0.page_size,
                tid as int == g0.transcript_words@.len(),
                forall|x: int|
                    entries@.len() <= x < g_entries.len() ==> self.positions_of(
                        (#[trigger] g_entries[x]).0@,
                        tid as int,
                    ) == g_entries[x].1@,
                forall|x: int|
                    0 <= x < entries@.len() ==> !self.has_tid(
                        (#[trigger] g_entries[x]).0@,
                        tid as int,
                    ),
            decreases entries@.len(),
        {
            let ghost m = entries@.len() as int;
            let kp = entries.pop().unwrap();
            let (key, positions) = kp;
            proof {
                assert(g_entries.take(m)[m - 1] == g_entries[m - 1]);
                assert(key == g_entries[m - 1].0);
                assert(positions == g_entries[m - 1].1);
                assert(entries@ =~= g_entries.take(m - 1));
                assert(strictly_increasing(positions@));
                assert forall|p: int|
                    0 <= p < positions@.len() implies ((#[trigger] positions@[p]) as int) < self
                    .transcript_words@[tid as int]@.len() by {
                    assert(((g_entries[m - 1].1@[p]) as int) < n as int);
                }
            }
            let ghost pre = *self;
            self.add_entry(key, tid, positions);
            proof {
                assert forall|x: int|
                    entries@.len() <= x < g_entries.len() implies self.positions_of(
                    (#[trigger] g_entries[x]).0@,
                    tid as int,
                ) == g_entries[x].1@ by {
                    if x == m - 1 {
                        assert(self.positions_of(g_entries[x].0@, tid as int) == positions@);
                    } else {
                        assert(g_entries[x].0@ != g_entries[m - 1].0@) by {
                            lemma_seq_lt_irrefl(g_entries[m - 1].0@);
                        }
                        lemma_frame_apply(
                            pre,
                            *self,
                            g_entries[m - 1].0@,
                            g_entries[x].0@,
                            tid as int,
                        );
                    }
                }
                assert forall|x: int| 0 <= x < entries@.len() implies !self.has_tid(
                    (#[trigger] g_entries[x]).0@,
                    tid as int,
                ) by {
                    assert(g_entries[x].0@ != g_entries[m - 1].0@) by {
                        lemma_seq_lt_irrefl(g_entries[m - 1].0@);
                    }
                    lemma_frame_apply(
                        pre,
                        *self,
                        g_entries[m - 1].0@,
                        g_entries[x].0@,
                        tid as int,
                    );
                }
            }
        }
        proof {
            assert(entries@.len() == 0);
        }
        true
    }
}

/// Some listed word's view equals w.
pub open spec fn spec_contains_word(list: Seq<String>, w: Seq<char>) -> bool {
    exists|i: int| 0 <= i < list.len() && (#[trigger] list[i])@ == w
}

/// The query tokens derived from whitespace chunks: each chunk normalized,
/// empty results dropped, and, when asked, stop words dropped.
pub open spec fn filter_tokens(
    chunks: Seq<Seq<char>>,
    stop: Seq<String>,
    remove: bool,
) -> Seq<Seq<char>>
    decreases chunks.len(),
{
    if chunks.len() == 0 {
        Seq::empty()
    } else {
        let rest = filter_tokens(chunks.drop_last(), stop, remove);
        let t = normalize_seq(chunks.last());
        if t.len() > 0 && (!remove || !spec_contains_word(stop, t)) {
            rest.push(t)
        } else {
            rest
        }
    }
}

/// The tokens of a query against a stop list.
pub open spec fn spec_tokens(q: Seq<char>, stop: Seq<String>, remove: bool) -> Seq<Seq<char>> {
    filter_tokens(split_ws(q), stop, remove)
}

/// Whether some listed word equals w.
pub fn contains_word(list: &Vec<String>, w: &String) -> (r: bool)
    ensures
        r == spec_contains_word(list@, w@),
{
    let n = list.len();
    let mut i: usize = 0;
    while i < n
        invariant
            i <= n,
            n == list@.len(),
            forall|x: int| 0 <= x < i ==> (#[trigger] list@[x])@ != w@,
        decreases n - i,
    {
        if list[i] == *w {
            return true;
        }
        i += 1;
    }
    false
}

/// Whether the position list holds x.
pub fn contains_pos(v: &Vec<usize>, x: usize) -> (r: bool)
    ensures
        r == v@.contains(x),
{
    let n = v.len();
    let mut i: usize = 0;
    while i < n
        invariant
            i <= n,
            n == v@.len(),
            forall|j: int| 0 <= j < i ==> v@[j] != x,
        decreases n - i,
    {
        if v[i] == x {
            return true;
        }
        i += 1;
    }
    proof {
        if v@.contains(x) {
            let j = choose|j: int| 0 <= j < v@.len() && v@[j] == x;
        }
    }
    false
}

impl Searcher {
    /// Splits, normalizes and filters a query into its search tokens.
    pub fn tokenize_query(&self, query: &str, remove_stop_words: bool) -> (r: Vec<String>)
        ensures
            r@.len() == spec_tokens(query@, self.stop_words@, remove_stop_words).len(),
            forall|i: int|
                0 <= i < r@.len() ==> (#[trigger] r@[i])@ == spec_tokens(
                    query@,
                    self.stop_words@,
                    remove_stop_words,
                )[i],
    {
        let chunks = crate::text::split_whitespace_vec(query);
        let ghost cviews = split_ws(query@);
        let mut r: Vec<String> = Vec::new();
        let n = chunks.len();
        let mut i: usize = 0;
        while i < n
            invariant
                i <= n,
                n == chunks@.len(),
                cviews == split_ws(query@),
                chunks@.len() == cviews.len(),
                forall|x: int| 0 <= x < chunks@.len() ==> (#[trigger] chunks@[x])@ == cviews[x],
                r@.len() == filter_tokens(cviews.take(i as int), self.stop_words@, remove_stop_words).len(),
                forall|x: int|
                    0 <= x < r@.len() ==> (#[trigger] r@[x])@ == filter_tokens(
                        cviews.take(i as int),
                        self.stop_words@,
                        remove_stop_words,
                    )[x],
            decreases n - i,
        {
            let t = normalize_word(chunks[i].as_str());
            proof {
                assert(cviews.take(i + 1 as int).drop_last() =~= cviews.take(i as int));
                assert(cviews.take(i + 1 as int).last() == cviews[i as int]);
            }
            let keep: bool = if t.as_str().unicode_len() == 0 {
                false
            } else if remove_stop_words {
                !contains_word(&self.stop_words, &t)
            } else {
                true
            };
            if keep {
                r.push(t);
            }
            i += 1;
        }
        proof {
            assert(cviews.take(n as int) =~= cviews);
        }
        r
    }
}

/// The two-level ranking order: more distinct terms first, then more total
/// hits.
pub open spec fn rank_geq(a: WordSegmentRange, b: WordSegmentRange) -> bool {
    popcount(a.set.bits) > popcount(b.set.bits) || (popcount(a.set.bits) == popcount(b.set.bits)
        && a.elements@.len() >= b.elements@.len())
}

/// Stable descending insertion: the new hit goes after every hit that ranks
/// at least as high.
pub open spec fn insert_ranked(
    s: Seq<(usize, WordSegmentRange)>,
    x: (usize, WordSegmentRange),
) -> Seq<(usize, WordSegmentRange)>
    decreases s.len(),
{
    if s.len() == 0 {
        seq![x]
    } else if rank_geq(s[0].1, x.1) {
        seq![s[0]] + insert_ranked(s.drop_first(), x)
    } else {
        seq![x] + s
    }
}

/// Stable sort of the hits by descending rank, in input order within equal
/// ranks.
pub open spec fn rank_sort(s: Seq<(usize, WordSegmentRange)>) -> Seq<(usize, WordSegmentRange)>
    decreases s.len(),
{
    if s.len() == 0 {
        Seq::empty()
    } else {
        insert_ranked(rank_sort(s.drop_last()), s.last())
    }
}

/// Hits in descending rank order.
pub open spec fn sorted_by_rank(s: Seq<(usize, WordSegmentRange)>) -> bool {
    forall|i: int, j: int| 0 <= i < j < s.len() ==> rank_geq((#[trigger] s[i]).1, (#[trigger] s[j]).1)
}

proof fn lemma_insert_ranked_at(
    s: Seq<(usize, WordSegmentRange)>,
    x: (usize, WordSegmentRange),
    p: int,
)
    requires
        0 <= p <= s.len(),
        forall|i: int| 0 <= i < p ==> rank_geq((#[trigger] s[i]).1, x.1),
        p < s.len() ==> !rank_geq(s[p].1, x.1),
    ensures
        insert_ranked(s, x) == s.insert(p, x),
    decreases s.len(),
{
    if s.len() == 0 {
        assert(insert_ranked(s, x) =~= s.insert(0, x));
    } else if p == 0 {
        assert(insert_ranked(s, x) =~= s.insert(0, x));
    } else {
        assert(rank_geq(s[0].1, x.1));
        lemma_insert_ranked_at(s.drop_first(), x, p - 1);
        assert(insert_ranked(s, x) == seq![s[0]] + s.drop_first().insert(p - 1, x));
        assert(seq![s[0]] + s.drop_first().insert(p - 1, x) =~= s.insert(p, x));
    }
}

proof fn lemma_insert_ranked_sorted(s: Seq<(usize, WordSegmentRange)>, x: (usize, WordSegmentRange))
    requires
        sorted_by_rank(s),
    ensures
        sorted_by_rank(insert_ranked(s, x)),
    decreases s.len(),
{
    if s.len() > 0 && rank_geq(s[0].1, x.1) {
        assert(sorted_by_rank(s.drop_first())) by {
            assert forall|i: int, j: int|
                0 <= i < j < s.drop_first().len() implies rank_geq(
                (#[trigger] s.drop_first()[i]).1,
                (#[trigger] s.drop_first()[j]).1,
            ) by {
                assert(s.drop_first()[i] == s[i + 1] && s.drop_first()[j] == s[j + 1]);
            }
        }
        lemma_insert_ranked_sorted(s.drop_first(), x);
        let r = insert_ranked(s, x);
        let rr = insert_ranked(s.drop_first(), x);
        assert(r == seq![s[0]] + rr);
        assert forall|i: int, j: int| 0 <= i < j < r.len() implies rank_geq(
            (#[trigger] r[i]).1,
            (#[trigger] r[j]).1,
        ) by {
            if i == 0 {
                assert(r[j] == rr[j - 1]);
                lemma_insert_ranked_member(s.drop_first(), x, j - 1);
                if rr[j - 1] == x {
                } else {
                    let k = choose|k: int|
                        0 <= k < s.drop_first().len() && s.drop_first()[k] == rr[j - 1];
                    assert(s[0] == s[0]);
                    assert(rank_geq(s[0].1, s[k + 1].1));
                }
            } else {
                assert(r[i] == rr[i - 1] && r[j] == rr[j - 1]);
            }
        }
    } else if s.len() > 0 {
        let r = insert_ranked(s, x);
        assert(r == seq![x] + s);
        assert(rank_geq(x.1, s[0].1));
        assert forall|i: int, j: int| 0 <= i < j < r.len() implies rank_geq(
            (#[trigger] r[i]).1,
            (#[trigger] r[j]).1,
        ) by {
            if i == 0 {
                assert(r[j] == s[j - 1]);
                if j > 1 {
                    assert(rank_geq(s[0].1, s[j - 1].1));
                }
            } else {
                assert(r[i] == s[i - 1] && r[j] == s[j - 1]);
            }
        }
    }
}

proof fn lemma_insert_ranked_len(s: Seq<(usize, WordSegmentRange)>, x: (usize, WordSegmentRange))
    ensures
        insert_ranked(s, x).len() == s.len() + 1,
    decreases s.len(),
{
    if s.len() > 0 && rank_geq(s[0].1, x.1) {
        lemma_insert_ranked_len(s.drop_first(), x);
    }
}

proof fn lemma_insert_ranked_member(
    s: Seq<(usize, WordSegmentRange)>,
    x: (usize, WordSegmentRange),
    j: int,
)
    requires
        0 <= j < insert_ranked(s, x).len(),
    ensures
        insert_ranked(s, x)[j] == x || exists|k: int| 0 <= k < s.len() && s[k] == insert_ranked(
            s,
            x,
        )[j],
    decreases s.len(),
{
    if s.len() == 0 {
    } else if rank_geq(s[0].1, x.1) {
        if j == 0 {
            assert(insert_ranked(s, x)[0] == s[0]);
        } else {
            lemma_insert_ranked_member(s.drop_first(), x, j - 1);
            assert(insert_ranked(s, x)[j] == insert_ranked(s.drop_first(), x)[j - 1]);
            if insert_ranked(s.drop_first(), x)[j - 1] != x {
                let k = choose|k: int|
                    0 <= k < s.drop_first().len() && s.drop_first()[k] == insert_ranked(
                        s.drop_first(),
                        x,
                    )[j - 1];
                assert(s[k + 1] == insert_ranked(s, x)[j]);
            }
        }
    }
}

/// Every hit of the sorted list is one of the input hits, and the other way
/// round.
#[verifier::rlimit(100)]
proof fn lemma_rank_sort_members(s: Seq<(usize, WordSegmentRange)>)
    ensures
        rank_sort(s).len() == s.len(),
        forall|j: int|
            0 <= j < rank_sort(s).len() ==> exists|k: int|
                0 <= k < s.len() && s[k] == #[trigger] rank_sort(s)[j],
        forall|k: int|
            0 <= k < s.len() ==> exists|j: int|
                0 <= j < rank_sort(s).len() && rank_sort(s)[j] == #[trigger] s[k],
    decreases s.len(),
{
    if s.len() > 0 {
        lemma_rank_sort_members(s.drop_last());
        let rs = rank_sort(s.drop_last());
        let r = rank_sort(s);
        assert(r == insert_ranked(rs, s.last()));
        lemma_insert_ranked_len(rs, s.last());
        assert forall|j: int| 0 <= j < r.len() implies exists|k: int|
            0 <= k < s.len() && s[k] == #[trigger] r[j] by {
            lemma_insert_ranked_member(rs, s.last(), j);
            if r[j] == s.last() {
                assert(s[s.len() - 1] == r[j]);
            } else {
                let k0 = choose|k0: int| 0 <= k0 < rs.len() && rs[k0] == r[j];
                let k1 = choose|k1: int| 0 <= k1 < s.drop_last().len() && s.drop_last()[k1] == rs[k0];
                assert(s[k1] == r[j]);
            }
        }
        assert forall|k: int| 0 <= k < s.len() implies exists|j: int|
            0 <= j < r.len() && r[j] == #[trigger] s[k] by {
            if k == s.len() - 1 {
                lemma_insert_ranked_has(rs, s.last());
                let j = choose|j: int| 0 <= j < r.len() && r[j] == s.last();
            } else {
                assert(s.drop_last()[k] == s[k]);
                let j0 = choose|j0: int| 0 <= j0 < rs.len() && rs[j0] == s.drop_last()[k];
                lemma_insert_ranked_keeps(rs, s.last(), j0);
                let j = choose|j: int| 0 <= j < r.len() && r[j] == rs[j0];
            }
        }
    }
}

proof fn lemma_insert_ranked_has(s: Seq<(usize, WordSegmentRange)>, x: (usize, WordSegmentRange))
    ensures
        exists|j: int| 0 <= j < insert_ranked(s, x).len() && insert_ranked(s, x)[j] == x,
    decreases s.len(),
{
    if s.len() == 0 {
        assert(insert_ranked(s, x)[0] == x);
    } else if rank_geq(s[0].1, x.1) {
        lemma_insert_ranked_has(s.drop_first(), x);
        let j = choose|j: int|
            0 <= j < insert_ranked(s.drop_first(), x).len() && insert_ranked(s.drop_first(), x)[j]
                == x;
        assert(insert_ranked(s, x)[j + 1] == x);
    } else {
        assert(insert_ranked(s, x)[0] == x);
    }
}

proof fn lemma_insert_ranked_keeps(
    s: Seq<(usize, WordSegmentRange)>,
    x: (usize, WordSegmentRange),
    k: int,
)
    requires
        0 <= k < s.len(),
    ensures
        exists|j: int| 0 <= j < insert_ranked(s, x).len() && insert_ranked(s, x)[j] == s[k],
    decreases s.len(),
{
    if rank_geq(s[0].1, x.1) {
        if k == 0 {
            assert(insert_ranked(s, x)[0] == s[0]);
        } else {
            lemma_insert_ranked_keeps(s.drop_first(), x, k - 1);
            let j = choose|j: int|
                0 <= j < insert_ranked(s.drop_first(), x).len() && insert_ranked(
                    s.drop_first(),
                    x,
                )[j] == s.drop_first()[k - 1];
            assert(insert_ranked(s, x)[j + 1] == s[k]);
        }
    } else {
        assert(insert_ranked(s, x)[k + 1] == s[k]);
    }
}

/// The hits sorted by descending rank are sorted indeed.
pub proof fn lemma_rank_sort_sorted(s: Seq<(usize, WordSegmentRange)>)
    ensures
        sorted_by_rank(rank_sort(s)),
    decreases s.len(),
{
    if s.len() > 0 {
        lemma_rank_sort_sorted(s.drop_last());
        lemma_insert_ranked_sorted(rank_sort(s.drop_last()), s.last());
    }
}

/// Whether a ranks at least as high as b.
pub fn rank_geq_exec(a: &WordSegmentRange, b: &WordSegmentRange) -> (r: bool)
    ensures
        r == rank_geq(*a, *b),
{
    let ua = a.set.unique_count();
    let ub = b.set.unique_count();
    if ua > ub {
        true
    } else if ua == ub {
        a.elements.len() >= b.elements.len()
    } else {
        false
    }
}

/// Sorts the hits by descending rank, stably.
pub fn rank_hits(hits: Vec<(usize, WordSegmentRange)>) -> (r: Vec<(usize, WordSegmentRange)>)
    ensures
        r@ == rank_sort(hits@),
{
    let ghost g_hits = hits@;
    let mut hits = hits;
    let mut out: Vec<(usize, WordSegmentRange)> = Vec::new();
    let ghost mut k: int = 0;
    while hits.len() > 0
        invariant
            0 <= k <= g_hits.len(),
            hits@ == g_hits.skip(k),
            out@ == rank_sort(g_hits.take(k)),
        decreases hits@.len(),
    {
        let x = hits.remove(0);
        proof {
            assert(g_hits.skip(k)[0] == g_hits[k]);
            assert(x == g_hits[k]);
            assert(g_hits.skip(k).drop_first() =~= g_hits.skip(k + 1));
        }
        let mut p: usize = 0;
        let n = out.len();
        loop
            invariant
                p <= n,
                n == out@.len(),
                forall|i: int| 0 <= i < p ==> rank_geq((#[trigger] out@[i]).1, x.1),
            ensures
                p <= n,
                forall|i: int| 0 <= i < p ==> rank_geq((#[trigger] out@[i]).1, x.1),
                p < n ==> !rank_geq(out@[p as int].1, x.1),
            decreases n - p,
        {
            if p >= n {
                break ;
            }
            if !rank_geq_exec(&out[p].1, &x.1) {
                break ;
            }
            p += 1;
        }
        let ghost g_out = out@;
        out.insert(p, x);
        proof {
            lemma_insert_ranked_at(g_out, x, p as int);
            assert(g_hits.take(k + 1).drop_last() =~= g_hits.take(k));
            assert(g_hits.take(k + 1).last() == g_hits[k]);
            assert(out@ == rank_sort(g_hits.take(k + 1)));
            k = k + 1;
        }
    }
    proof {
        assert(g_hits.take(k) =~= g_hits);
    }
    out
}

/// The start of the paging window: skip page * size hits.
pub open spec fn page_start(len: int, page: int, size: int) -> int {
    if page * size <= len {
        page * size
    } else {
        len
    }
}

/// The end of the paging window: after the skip, take page * size + size
/// further hits, so a later page spans a wider slice than the first.
pub open spec fn page_end(len: int, page: int, size: int) -> int {
    if page * size + page * size + size <= len {
        page * size + page * size + size
    } else {
        len
    }
}

/// Cuts the ranked hits down to the requested page: skip page * size
/// hits, then take page * size + size of the rest.
pub fn page_slice(v: Vec<(usize, WordSegmentRange)>, page: usize, page_size: usize) -> (r: Vec<
    (usize, WordSegmentRange),
>)
    ensures
        r@ == v@.subrange(
            page_start(v@.len() as int, page as int, page_size as int),
            page_end(v@.len() as int, page as int, page_size as int),
        ),
{
    let ghost g_v = v@;
    let mut v = v;
    let len = v.len();
    let skip_opt = page.checked_mul(page_size);
    let start: usize = match skip_opt {
        Some(s) => if s <= len {
            s
        } else {
            len
        },
        None => len,
    };
    let end: usize = match skip_opt {
        Some(s) => match s.checked_add(s) {
            Some(ss) => match ss.checked_add(page_size) {
                Some(e) => if e <= len {
                    e
                } else {
                    len
                },
                None => len,
            },
            None => len,
        },
        None => len,
    };
    proof {
        assert(start as int == page_start(g_v.len() as int, page as int, page_size as int));
        assert(end as int == page_end(g_v.len() as int, page as int, page_size as int));
        assert(start <= end);
    }
    v.truncate(end);
    let mut dropped: usize = 0;
    while dropped < start
        invariant
            dropped <= start,
            start <= end <= g_v.len(),
            v@ == g_v.subrange(dropped as int, end as int),
        decreases start - dropped,
    {
        let _ = v.remove(0);
        proof {
            assert(g_v.subrange(dropped as int, end as int).drop_first() =~= g_v.subrange(
                dropped + 1 as int,
                end as int,
            ));
        }
        dropped += 1;
    }
    v
}

/// The positional streams of the tokens inside one transcript, one stream
/// per token that occurs there, in token order.
pub open spec fn stream_views(s: Searcher, tokens: Seq<Seq<char>>, tid: int) -> Seq<Seq<usize>>
    decreases tokens.len(),
{
    if tokens.len() == 0 {
        Seq::empty()
    } else {
        let pre = stream_views(s, tokens.drop_last(), tid);
        if s.has_tid(tokens.last(), tid) {
            pre.push(s.positions_of(tokens.last(), tid))
        } else {
            pre
        }
    }
}

proof fn lemma_stream_views_len(s: Searcher, tokens: Seq<Seq<char>>, tid: int)
    ensures
        stream_views(s, tokens, tid).len() <= tokens.len(),
    decreases tokens.len(),
{
    if tokens.len() > 0 {
        lemma_stream_views_len(s, tokens.drop_last(), tid);
    }
}

proof fn lemma_stream_views_sound(s: Searcher, tokens: Seq<Seq<char>>, tid: int, k: int)
    requires
        0 <= k < stream_views(s, tokens, tid).len(),
    ensures
        exists|ti: int|
            0 <= ti < tokens.len() && stream_views(s, tokens, tid)[k] == s.positions_of(
                #[trigger] tokens[ti],
                tid,
            ),
    decreases tokens.len(),
{
    if tokens.len() > 0 {
        let pre = stream_views(s, tokens.drop_last(), tid);
        if s.has_tid(tokens.last(), tid) && k == pre.len() {
            assert(tokens[tokens.len() - 1] == tokens.last());
            assert(stream_views(s, tokens, tid)[k] == s.positions_of(
                tokens[tokens.len() - 1],
                tid,
            ));
        } else {
            lemma_stream_views_sound(s, tokens.drop_last(), tid, k);
            let ti = choose|ti: int|
                0 <= ti < tokens.drop_last().len() && pre[k] == s.positions_of(
                    #[trigger] tokens.drop_last()[ti],
                    tid,
                );
            assert(tokens[ti] == tokens.drop_last()[ti]);
            assert(stream_views(s, tokens, tid)[k] == pre[k]);
            assert(stream_views(s, tokens, tid)[k] == s.positions_of(tokens[ti], tid));
        }
    }
}

proof fn lemma_stream_views_complete(s: Searcher, tokens: Seq<Seq<char>>, tid: int, ti: int)
    requires
        0 <= ti < tokens.len(),
        s.has_tid(tokens[ti], tid),
    ensures
        exists|k: int|
            0 <= k < stream_views(s, tokens, tid).len() && stream_views(s, tokens, tid)[k]
                == s.positions_of(tokens[ti], tid),
    decreases tokens.len(),
{
    let sv = stream_views(s, tokens, tid);
    let pre = stream_views(s, tokens.drop_last(), tid);
    if ti == tokens.len() - 1 {
        assert(tokens.last() == tokens[ti]);
        assert(sv[pre.len() as int] == s.positions_of(tokens[ti], tid));
    } else {
        assert(tokens.drop_last()[ti] == tokens[ti]);
        lemma_stream_views_complete(s, tokens.drop_last(), tid, ti);
        let k = choose|k: int|
            0 <= k < pre.len() && pre[k] == s.positions_of(tokens.drop_last()[ti], tid);
        assert(sv[k] == s.positions_of(tokens[ti], tid));
    }
}

proof fn lemma_stream_views_empty(s: Searcher, tokens: Seq<Seq<char>>, tid: int, ti: int)
    requires
        stream_views(s, tokens, tid).len() == 0,
        0 <= ti < tokens.len(),
    ensures
        !s.has_tid(tokens[ti], tid),
        s.positions_of(tokens[ti], tid).len() == 0,
    decreases tokens.len(),
{
    if tokens.len() > 0 {
        if ti == tokens.len() - 1 {
            assert(tokens.last() == tokens[ti]);
        } else {
            assert(tokens.drop_last()[ti] == tokens[ti]);
            lemma_stream_views_empty(s, tokens.drop_last(), tid, ti);
        }
    }
}

/// The positions a word has in a transcript are strictly ascending and lie
/// inside the transcript.
pub proof fn lemma_positions_wf(s: Searcher, w: Seq<char>, tid: int)
    requires
        s.wf(),
    ensures
        strictly_increasing(s.positions_of(w, tid)),
        s.has_tid(w, tid) ==> 0 <= tid < s.transcript_words@.len() && (forall|p: int|
            0 <= p < s.positions_of(w, tid).len() ==> ((#[trigger] s.positions_of(w, tid)[p]) as int)
                < s.transcript_words@[tid]@.len()),
{
    if s.has_tid(w, tid) {
        assert(s.has_key(w)) by {
            if !s.has_key(w) {
                let e = choose|e: int|
                    0 <= e < s.postings_of(w).len() && (#[trigger] s.postings_of(w)[e]).0 == tid;
            }
        }
        let slot = s.key_at(w);
        let e = s.tid_entry_at(w, tid);
        assert(0 <= slot < s.postings@.len());
        assert(posting_wf(s.postings@[slot]@, s.transcript_words@));
        assert(s.postings_of(w) == s.postings@[slot]@);
        assert(0 <= e < s.postings_of(w).len() && s.postings_of(w)[e].0 == tid);
        assert(entry_wf(s.postings@[slot]@[e], s.transcript_words@));
    }
}

/// One stream list matches the spec-level stream views.
pub open spec fn views_match(vs: Seq<Vec<usize>>, ss: Seq<Seq<usize>>) -> bool {
    vs.len() == ss.len() && forall|j: int| 0 <= j < vs.len() ==> (#[trigger] vs[j])@ == ss[j]
}

impl Searcher {
    /// Groups the tokens' positional streams by transcript: for each
    /// transcript holding at least one token, the streams of its tokens in
    /// token order, transcripts ascending.
    fn word_indices_group_by_transcript(
        &self,
        words: &Vec<String>,
        Ghost(tokviews): Ghost<Seq<Seq<char>>>,
    ) -> (r: Vec<(usize, Vec<Vec<usize>>)>)
        requires
            self.wf(),
            tokviews.len() == words@.len(),
            forall|x: int| 0 <= x < tokviews.len() ==> tokviews[x] == (#[trigger] words@[x])@,
        ensures
            forall|x: int|
                0 <= x < r@.len() ==> ((#[trigger] r@[x]).0 as int) < self.transcript_words@.len()
                    && views_match(r@[x].1@, stream_views(*self, tokviews, r@[x].0 as int))
                    && r@[x].1@.len() > 0,
            forall|x1: int, x2: int| 0 <= x1 < x2 < r@.len() ==> (#[trigger] r@[x1]).0 < (#[trigger] r@[x2]).0,
            forall|t: int|
                #![trigger stream_views(*self, tokviews, t)]
                0 <= t < self.transcript_words@.len() && stream_views(*self, tokviews, t).len() > 0
                    ==> exists|x: int| 0 <= x < r@.len() && ((#[trigger] r@[x]).0 as int) == t,
    {
        let n = self.transcript_words.len();
        let tn = words.len();
        let mut r: Vec<(usize, Vec<Vec<usize>>)> = Vec::new();
        let mut tid: usize = 0;
        while tid < n
            invariant
                tid <= n,
                n == self.transcript_words@.len(),
                tn == words@.len(),
                self.wf(),
                tokviews.len() == words@.len(),
                forall|x: int| 0 <= x < tokviews.len() ==> tokviews[x] == (#[trigger] words@[x])@,
                forall|x: int|
                    0 <= x < r@.len() ==> ((#[trigger] r@[x]).0 as int) < n as int && (r@[x].0 as int)
                        < tid as int && views_match(
                        r@[x].1@,
                        stream_views(*self, tokviews, r@[x].0 as int),
                    ) && r@[x].1@.len() > 0,
                forall|x1: int, x2: int|
                    0 <= x1 < x2 < r@.len() ==> (#[trigger] r@[x1]).0 < (#[trigger] r@[x2]).0,
                forall|t: int|
                    #![trigger stream_views(*self, tokviews, t)]
                    0 <= t < tid && stream_views(*self, tokviews, t).len() > 0 ==> exists|x: int|
                        0 <= x < r@.len() && ((#[trigger] r@[x]).0 as int) == t,
            decreases n - tid,
        {
            let mut streams: Vec<Vec<usize>> = Vec::new();
            let mut ti: usize = 0;
            while ti < tn
                invariant
                    ti <= tn,
                    tn == words@.len(),
                    self.wf(),
                    tokviews.len() == words@.len(),
                    forall|x: int| 0 <= x < tokviews.len() ==> tokviews[x] == (#[trigger] words@[x])@,
                    views_match(streams@, stream_views(*self, tokviews.take(ti as int), tid as int)),
                decreases tn - ti,
            {
                proof {
                    assert(tokviews.take(ti + 1 as int).drop_last() =~= tokviews.take(ti as int));
                    assert(tokviews.take(ti + 1 as int).last() == tokviews[ti as int]);
                }
                let slot_opt = self.lookup_key(&words[ti]);
                match slot_opt {
                    Some(slot) => {
                        let e_opt = self.lookup_tid(slot, tid);
                        match e_opt {
                            Some(e) => {
                                let ps = copy_positions(&self.postings[slot][e].1);
                                proof {
                                    assert(self.postings_of(tokviews[ti as int])
                                        == self.postings@[slot as int]@);
                                    assert(self.positions_of(tokviews[ti as int], tid as int)
                                        == self.postings@[slot as int]@[e as int].1@);
                                }
                                streams.push(ps);
                            },
                            None => {
                            },
                        }
                    },
                    None => {
                        proof {
                            assert(!self.has_tid(tokviews[ti as int], tid as int)) by {
                                if self.has_tid(tokviews[ti as int], tid as int) {
                                    let e = choose|e: int|
                                        0 <= e < self.postings_of(tokviews[ti as int]).len() && (
                                        #[trigger] self.postings_of(tokviews[ti as int])[e]).0
                                            == tid as int;
                                }
                            }
                        }
                    },
                }
                ti += 1;
            }
            proof {
                assert(tokviews.take(tn as int) =~= tokviews);
            }
            let ghost pre_r = r@;
            if streams.len() > 0 {
                r.push((tid, streams));
                proof {
                    assert(r@[r@.len() - 1].0 == tid);
                }
            } else {
                proof {
                    assert(stream_views(*self, tokviews, tid as int).len() == 0);
                }
            }
            proof {
                assert forall|t: int|
                    #![trigger stream_views(*self, tokviews, t)]
                    0 <= t < tid + 1 && stream_views(*self, tokviews, t).len() > 0 implies exists|
                    x: int,
                | 0 <= x < r@.len() && ((#[trigger] r@[x]).0 as int) == t by {
                    if t < tid {
                        let x = choose|x: int|
                            0 <= x < pre_r.len() && ((#[trigger] pre_r[x]).0 as int) == t;
                        assert(r@[x].0 as int == t);
                    } else {
                        assert(r@[r@.len() - 1].0 as int == t);
                    }
                }
            }
            tid += 1;
        }
        r
    }
}

/// What one returned snippet must look like for a hit in a transcript.
pub open spec fn snippet_ok(
    s: Searcher,
    tid: int,
    sr: WordSegmentRange,
    context: int,
    r: QueryResult,
) -> bool {
    let words = s.transcript_words@[tid]@;
    let start: int = if sr.min > context {
        sr.min - context
    } else {
        0
    };
    let end: int = if sr.max + context < words.len() - 1 {
        sr.max + context
    } else {
        words.len() - 1
    };
    &&& r.transcript@ == s.transcript_paths@[tid]@
    &&& r.unique_count == popcount(sr.set.bits)
    &&& r.element_count == sr.elements@.len()
    &&& r.words@.len() == end - start + 1
    &&& forall|j: int|
        0 <= j < r.words@.len() ==> (#[trigger] r.words@[j]).word@ == words[start + j].word@
            && r.words@[j].start_ms == words[start + j].start_ms && r.words@[j].end_ms == words[
            start + j].end_ms && r.words@[j].matched == sr.elements@.contains(((start + j) as usize))
}

/// The hit lies in a known transcript, its range is sound for the window,
/// and every clustered position is an occurrence of some token there.
/// Every clustered position is an occurrence of some token in the hit's
/// transcript.
#[verifier::opaque]
pub open spec fn hit_elems_sound(
    s: Searcher,
    tokens: Seq<Seq<char>>,
    hit: (usize, WordSegmentRange),
) -> bool {
    forall|i: int|
        0 <= i < hit.1.elements@.len() ==> exists|ti: int|
            0 <= ti < tokens.len() && s_positions(#[trigger] tokens[ti], s, hit.0 as int).contains(
                #[trigger] hit.1.elements@[i],
            )
}

/// Every term the hit credits names a token stream of its transcript that
/// contributed one of the clustered positions, so the distinct-term count
/// never exceeds the terms really present there.
#[verifier::opaque]
pub open spec fn hit_bits_sound(
    s: Searcher,
    tokens: Seq<Seq<char>>,
    hit: (usize, WordSegmentRange),
) -> bool {
    forall|b: u32|
        #[trigger] crate::word_id::has_bit(hit.1.set.bits, b) ==> (b as int) < stream_views(
            s,
            tokens,
            hit.0 as int,
        ).len() && exists|i: int|
            0 <= i < hit.1.elements@.len() && stream_views(s, tokens, hit.0 as int)[b as int].contains(
                #[trigger] hit.1.elements@[i],
            )
}

#[verifier::opaque]
pub open spec fn hit_sound(
    s: Searcher,
    tokens: Seq<Seq<char>>,
    hit: (usize, WordSegmentRange),
    allowed: usize,
) -> bool {
    &&& (hit.0 as int) < s.transcript_words@.len()
    &&& range_wf(hit.1, allowed)
    &&& hit_elems_sound(s, tokens, hit)
    &&& hit_bits_sound(s, tokens, hit)
}

/// Every occurrence of every token is clustered into some hit of its
/// transcript.
#[verifier::opaque]
pub open spec fn hits_cover(
    s: Searcher,
    tokens: Seq<Seq<char>>,
    hits: Seq<(usize, WordSegmentRange)>,
) -> bool {
    forall|ti: int, tid: int, pos: usize|
        #![trigger s_positions(tokens[ti], s, tid).contains(pos)]
        0 <= ti < tokens.len() && s_positions(tokens[ti], s, tid).contains(pos) ==> exists|x: int|
            0 <= x < hits.len() && ((#[trigger] hits[x]).0 as int) == tid
                && hits[x].1.elements@.contains(pos)
}

/// The occurrences of the tokens in one transcript are clustered into the
/// hits.
#[verifier::opaque]
pub open spec fn covers_tid(
    s: Searcher,
    tokens: Seq<Seq<char>>,
    hits: Seq<(usize, WordSegmentRange)>,
    tid: int,
) -> bool {
    forall|ti: int, pos: usize|
        #![trigger s_positions(tokens[ti], s, tid).contains(pos)]
        0 <= ti < tokens.len() && s_positions(tokens[ti], s, tid).contains(pos) ==> exists|x: int|
            0 <= x < hits.len() && ((#[trigger] hits[x]).0 as int) == tid
                && hits[x].1.elements@.contains(pos)
}

/// The proximity window of a query: token count times the configured
/// per-token distance, saturating at the machine limit.
pub open spec fn spec_allowed_range(count: int, dist: int) -> int {
    if count * dist <= usize::MAX as int {
        count * dist
    } else {
        usize::MAX as int
    }
}

/// What `search` promises: there is a ranked hit list, sorted by the
/// two-level key, holding only sound hits and covering every token
/// occurrence, of which the result is the requested page rendered as
/// snippets.
pub open spec fn search_post(
    s: Searcher,
    q: Seq<char>,
    context: int,
    page: int,
    remove: bool,
    hits: Seq<(usize, WordSegmentRange)>,
    out: Seq<QueryResult>,
) -> bool {
    let toks = spec_tokens(q, s.stop_words@, remove);
    let tokens = if toks.len() <= 32 {
        toks
    } else {
        toks.take(32)
    };
    let dist: int = if remove {
        s.word_distance_with_stop_words_removed as int
    } else {
        s.word_distance as int
    };
    let allowed = spec_allowed_range(tokens.len() as int, dist);
    let ws = page_start(hits.len() as int, page, s.page_size as int);
    let we = page_end(hits.len() as int, page, s.page_size as int);
    &&& sorted_by_rank(hits)
    &&& forall|x: int| 0 <= x < hits.len() ==> hit_sound(s, tokens, #[trigger] hits[x], allowed as usize)
    &&& hits_cover(s, tokens, hits)
    &&& out.len() == we - ws
    &&& forall|x: int|
        0 <= x < out.len() ==> snippet_ok(s, hits[ws + x].0 as int, hits[ws + x].1, context, #[trigger] out[x])
}

impl Searcher {
    /// Renders one hit as a snippet with its context window and match flags.
    fn build_query_result(&self, tid: usize, sr: &WordSegmentRange, context: usize) -> (r:
        QueryResult)
        requires
            self.wf(),
            (tid as int) < self.transcript_words@.len(),
            sr.min <= sr.max,
            (sr.max as int) < self.transcript_words@[tid as int]@.len(),
        ensures
            snippet_ok(*self, tid as int, *sr, context as int, r),
    {
        let words = &self.transcript_words[tid];
        let wlen = words.len();
        let start: usize = if context > sr.min {
            0
        } else {
            sr.min - context
        };
        let rem = wlen - 1 - sr.max;
        let end: usize = if context <= rem {
            sr.max + context
        } else {
            wlen - 1
        };
        let mut out_words: Vec<QueryWord> = Vec::new();
        let mut j: usize = start;
        while j <= end
            invariant
                start <= j <= end + 1,
                end < wlen,
                wlen == words@.len(),
                words@ == self.transcript_words@[tid as int]@,
                out_words@.len() == j - start,
                forall|x: int|
                    0 <= x < out_words@.len() ==> (#[trigger] out_words@[x]).word@ == words@[start
                        + x].word@ && out_words@[x].start_ms == words@[start + x].start_ms
                        && out_words@[x].end_ms == words@[start + x].end_ms
                        && out_words@[x].matched == sr.elements@.contains(((start + x) as usize)),
            decreases end + 1 - j,
    {
            let w = &words[j];
            let matched = contains_pos(&sr.elements, j);
            out_words.push(
                QueryWord {
                    word: w.word.clone(),
                    start_ms: w.start_ms,
                    end_ms: w.end_ms,
                    matched,
                },
            );
            j += 1;
        }
        let unique_count = sr.set.unique_count();
        let element_count = sr.elements.len();
        QueryResult {
            transcript: self.transcript_paths[tid].clone(),
            words: out_words,
            unique_count,
            element_count,
        }
    }

    /// Clusters one transcript's token streams into ranked hits.
    #[verifier::spinoff_prover]
    #[verifier::rlimit(30)]
    fn merge_one_transcript(
        &self,
        tid: usize,
        streams: Vec<Vec<usize>>,
        allowed_range: usize,
        Ghost(tokviews): Ghost<Seq<Seq<char>>>,
    ) -> (r: Vec<(usize, WordSegmentRange)>)
        requires
            self.wf(),
            (tid as int) < self.transcript_words@.len(),
            tokviews.len() <= 32,
            views_match(streams@, stream_views(*self, tokviews, tid as int)),
        ensures
            forall|x: int|
                0 <= x < r@.len() ==> hit_sound(*self, tokviews, #[trigger] r@[x], allowed_range)
                    && r@[x].0 == tid,
            covers_tid(*self, tokviews, r@, tid as int),
    {
        proof {
            lemma_stream_views_len(*self, tokviews, tid as int);
            assert forall|k: int| 0 <= k < streams@.len() implies strictly_increasing(
                (#[trigger] streams@[k])@,
            ) by {
                lemma_stream_views_sound(*self, tokviews, tid as int, k);
                let ti = choose|ti: int|
                    0 <= ti < tokviews.len() && stream_views(*self, tokviews, tid as int)[k]
                        == s_positions(#[trigger] tokviews[ti], *self, tid as int);
                lemma_positions_wf(*self, tokviews[ti], tid as int);
            }
        }
        let ghost streams_v = streams@;
        let ranges = merge_special_call(streams, allowed_range);
        let ghost g_ranges = ranges@;
        let mut ranges = ranges;
        let mut r: Vec<(usize, WordSegmentRange)> = Vec::new();
        let ghost mut ri: int = 0;
        while ranges.len() > 0
            invariant
                0 <= ri <= g_ranges.len(),
                ranges@ == g_ranges.skip(ri),
                r@.len() == ri,
                forall|x: int| 0 <= x < ri ==> #[trigger] r@[x] == (tid, g_ranges[x]),
            decreases ranges@.len(),
        {
            let sr = ranges.remove(0);
            proof {
                assert(g_ranges.skip(ri)[0] == g_ranges[ri]);
                assert(g_ranges.skip(ri).drop_first() =~= g_ranges.skip(ri + 1));
            }
            r.push((tid, sr));
            proof {
                ri = ri + 1;
            }
        }
        proof {
            assert forall|x: int|
                0 <= x < r@.len() implies hit_sound(*self, tokviews, #[trigger] r@[x], allowed_range)
                && r@[x].0 == tid by {
                assert(r@[x] == (tid, g_ranges[x]));
                lemma_bits_transfer(*self, tokviews, tid as int, streams_v, g_ranges[x]);
                lemma_elems_transfer(*self, tokviews, tid as int, streams_v, g_ranges[x]);
                assert(hit_sound(*self, tokviews, (tid, g_ranges[x]), allowed_range)) by {
                    reveal(hit_sound);
                }
            }
            lemma_covers_tid_from_merge(*self, tokviews, tid as int, streams_v, g_ranges, r@);
        }
        r
    }

    /// Full-text proximity search: tokenize the query, drop stop words when
    /// asked, cluster each matching transcript's occurrences into segment
    /// ranges under the proximity window, rank all hits by distinct-term
    /// count then total hits, and render the requested page as snippets.
    /// At most 32 tokens take part; later tokens are dropped.
    #[verifier::spinoff_prover]
    #[verifier::rlimit(30)]
    pub fn search(&self, query: &str, context: usize, page: usize, remove_stop_words: bool) -> (r:
        Vec<QueryResult>)
        requires
            self.wf(),
        ensures
            exists|hits: Seq<(usize, WordSegmentRange)>|
                #[trigger] search_post(
                    *self,
                    query@,
                    context as int,
                    page as int,
                    remove_stop_words,
                    hits,
                    r@,
                ),
    {
        let mut tokens = self.tokenize_query(query, remove_stop_words);
        if tokens.len() > 32 {
            tokens.truncate(32);
        }
        let ghost toks0 = spec_tokens(query@, self.stop_words@, remove_stop_words);
        let ghost tokviews = if toks0.len() <= 32 {
            toks0
        } else {
            toks0.take(32)
        };
        proof {
            assert(tokens@.len() == tokviews.len());
            assert forall|x: int| 0 <= x < tokviews.len() implies tokviews[x] == (
            #[trigger] tokens@[x])@ by {}
        }
        let dist: usize = if remove_stop_words {
            self.word_distance_with_stop_words_removed
        } else {
            self.word_distance
        };
        let allowed_range: usize = match tokens.len().checked_mul(dist) {
            Some(a) => a,
            None => usize::MAX,
        };
        proof {
            assert(allowed_range as int == spec_allowed_range(tokviews.len() as int, dist as int));
        }
        let grouped = self.word_indices_group_by_transcript(&tokens, Ghost(tokviews));
        let ghost g_grouped = grouped@;
        let mut grouped = grouped;
        let mut hits: Vec<(usize, WordSegmentRange)> = Vec::new();
        let ghost mut gi: int = 0;
        while grouped.len() > 0
            invariant
                self.wf(),
                0 <= gi <= g_grouped.len(),
                grouped@ == g_grouped.skip(gi),
                forall|x: int|
                    0 <= x < g_grouped.len() ==> ((#[trigger] g_grouped[x]).0 as int)
                        < self.transcript_words@.len() && views_match(
                        g_grouped[x].1@,
                        stream_views(*self, tokviews, g_grouped[x].0 as int),
                    ),
                tokviews.len() <= 32,
                forall|x: int|
                    0 <= x < hits@.len() ==> hit_sound(
                        *self,
                        tokviews,
                        #[trigger] hits@[x],
                        allowed_range,
                    ),
                forall|x: int|
                    0 <= x < gi ==> covers_tid(
                        *self,
                        tokviews,
                        hits@,
                        (#[trigger] g_grouped[x]).0 as int,
                    ),
            decreases grouped@.len(),
        {
            let (tid, streams) = grouped.remove(0);
            proof {
                assert(g_grouped.skip(gi)[0] == g_grouped[gi]);
                assert(g_grouped.skip(gi).drop_first() =~= g_grouped.skip(gi + 1));
                assert(views_match(streams@, stream_views(*self, tokviews, tid as int)));
            }
            let mut newhits = self.merge_one_transcript(
                tid,
                streams,
                allowed_range,
                Ghost(tokviews),
            );
            let ghost pre_hits = hits@;
            let ghost nh = newhits@;
            hits.append(&mut newhits);
            proof {
                assert(hits@ == pre_hits + nh);
                assert forall|x: int|
                    0 <= x < gi + 1 implies covers_tid(
                    *self,
                    tokviews,
                    hits@,
                    (#[trigger] g_grouped[x]).0 as int,
                ) by {
                    if x < gi {
                        lemma_covers_tid_grow(
                            *self,
                            tokviews,
                            pre_hits,
                            hits@,
                            g_grouped[x].0 as int,
                        );
                    } else {
                        lemma_covers_tid_embed(
                            *self,
                            tokviews,
                            nh,
                            hits@,
                            tid as int,
                            pre_hits.len() as int,
                        );
                    }
                }
                gi = gi + 1;
            }
        }
        proof {
            assert(g_grouped.skip(gi) =~= Seq::<(usize, Vec<Vec<usize>>)>::empty());
            assert(gi == g_grouped.len());
            let tids = Seq::<int>::new(g_grouped.len(), |x: int| g_grouped[x].0 as int);
            assert forall|x: int| 0 <= x < tids.len() implies covers_tid(
                *self,
                tokviews,
                hits@,
                #[trigger] tids[x],
            ) by {
                assert(covers_tid(*self, tokviews, hits@, (g_grouped[x]).0 as int));
            }
            assert forall|t: int|
                #![trigger stream_views(*self, tokviews, t)]
                0 <= t < self.transcript_words@.len() && stream_views(*self, tokviews, t).len()
                    > 0 implies tids.contains(t) by {
                let x = choose|x: int|
                    0 <= x < g_grouped.len() && ((#[trigger] g_grouped[x]).0 as int) == t;
                assert(tids[x] == t);
            }
            lemma_hits_cover_assemble(*self, tokviews, hits@, tids);
        }
        let ghost g_hits = hits@;
        let ranked = rank_hits(hits);
        let ghost g_ranked = ranked@;
        proof {
            lemma_rank_sort_sorted(g_hits);
            lemma_rank_sort_members(g_hits);
            assert forall|x: int|
                0 <= x < g_ranked.len() implies hit_sound(
                *self,
                tokviews,
                #[trigger] g_ranked[x],
                allowed_range,
            ) by {
                let k = choose|k: int| 0 <= k < g_hits.len() && g_hits[k] == g_ranked[x];
            }
            lemma_hits_cover_reorder(*self, tokviews, g_hits, g_ranked);
        }
        let paged = page_slice(ranked, page, self.page_size);
        let ghost ws = page_start(g_ranked.len() as int, page as int, self.page_size as int);
        let ghost we = page_end(g_ranked.len() as int, page as int, self.page_size as int);
        let mut out: Vec<QueryResult> = Vec::new();
        let mut paged = paged;
        let ghost mut pi: int = 0;
        while paged.len() > 0
            invariant
                self.wf(),
                0 <= ws <= we <= g_ranked.len(),
                0 <= pi <= we - ws,
                paged@ == g_ranked.subrange(ws + pi, we),
                out@.len() == pi,
                tokviews.len() <= 32,
                forall|x: int|
                    0 <= x < g_ranked.len() ==> hit_sound(
                        *self,
                        tokviews,
                        #[trigger] g_ranked[x],
                        allowed_range,
                    ),
                forall|x: int|
                    0 <= x < out@.len() ==> snippet_ok(
                        *self,
                        g_ranked[ws + x].0 as int,
                        g_ranked[ws + x].1,
                        context as int,
                        #[trigger] out@[x],
                    ),
            decreases paged@.len(),
        {
            let (tid, sr) = paged.remove(0);
            proof {
                assert(g_ranked.subrange(ws + pi, we)[0] == g_ranked[ws + pi]);
                assert(g_ranked.subrange(ws + pi, we).drop_first() =~= g_ranked.subrange(
                    ws + pi + 1,
                    we,
                ));
                assert(hit_sound(*self, tokviews, g_ranked[ws + pi], allowed_range));
                lemma_hit_sound_bounds(*self, tokviews, g_ranked[ws + pi], allowed_range);
                assert((tid, sr) == g_ranked[ws + pi]);
                assert(range_wf(sr, allowed_range));
                assert(sr.elements@.len() >= 1);
                assert(sr.min <= sr.max && ((sr.max as int)
                    < self.transcript_words@[tid as int]@.len()));
            }
            let qres = self.build_query_result(tid, &sr, context);
            out.push(qres);
            proof {
                pi = pi + 1;
            }
        }
        proof {
            assert(out@.len() == we - ws);
            assert(search_post(
                *self,
                query@,
                context as int,
                page as int,
                remove_stop_words,
                g_ranked,
                out@,
            ));
        }
        out
    }
}

/// Each credited term bit names a stream that contributed an element.
proof fn lemma_bits_transfer(
    s: Searcher,
    tokens: Seq<Seq<char>>,
    tid: int,
    streams: Seq<Vec<usize>>,
    sr: WordSegmentRange,
)
    requires
        0 <= tid <= usize::MAX as int,
        views_match(streams, stream_views(s, tokens, tid)),
        crate::merge::bits_sound(sr, streams),
    ensures
        hit_bits_sound(s, tokens, ((tid as usize), sr)),
{
    reveal(hit_bits_sound);
    assert forall|b: u32| #[trigger] crate::word_id::has_bit(sr.set.bits, b) implies (b as int)
        < stream_views(s, tokens, tid).len() && exists|i: int|
        0 <= i < sr.elements@.len() && stream_views(s, tokens, tid)[b as int].contains(
            #[trigger] sr.elements@[i],
        ) by {
        assert(crate::merge::stream_contributed(sr.elements@, streams, b));
        let i = choose|i: int|
            0 <= i < sr.elements@.len() && streams[b as int]@.contains(#[trigger] sr.elements@[i]);
        assert(streams[b as int]@ == stream_views(s, tokens, tid)[b as int]);
        assert(stream_views(s, tokens, tid)[b as int].contains(sr.elements@[i]));
    }
    assert(hit_bits_sound(s, tokens, ((tid as usize), sr)));
}

/// Each clustered position is an occurrence of some token.
proof fn lemma_elems_transfer(
    s: Searcher,
    tokens: Seq<Seq<char>>,
    tid: int,
    streams: Seq<Vec<usize>>,
    sr: WordSegmentRange,
)
    requires
        0 <= tid <= usize::MAX as int,
        views_match(streams, stream_views(s, tokens, tid)),
        crate::merge::bits_sound(sr, streams),
        crate::merge::elems_sound(sr, streams),
    ensures
        hit_elems_sound(s, tokens, ((tid as usize), sr)),
{
    reveal(hit_elems_sound);
    assert forall|i: int|
        0 <= i < sr.elements@.len() implies exists|ti: int|
        0 <= ti < tokens.len() && s_positions(#[trigger] tokens[ti], s, tid).contains(
            #[trigger] sr.elements@[i],
        ) by {
        assert(crate::merge::element_credited(sr.set.bits, streams, sr.elements@[i]));
        let b = choose|b: u32|
            #[trigger] crate::word_id::has_bit(sr.set.bits, b) && streams[b as int]@.contains(
                sr.elements@[i],
            );
        assert((b as int) < streams.len());
        lemma_stream_views_sound(s, tokens, tid, b as int);
        let ti = choose|ti: int|
            0 <= ti < tokens.len() && stream_views(s, tokens, tid)[b as int] == s_positions(
                #[trigger] tokens[ti],
                s,
                tid,
            );
        assert(streams[b as int]@ == stream_views(s, tokens, tid)[b as int]);
        assert(s_positions(tokens[ti], s, tid).contains(sr.elements@[i]));
    }
    assert(hit_elems_sound(s, tokens, ((tid as usize), sr)));
}

/// The merged ranges of a transcript cover all its token occurrences.
proof fn lemma_covers_tid_from_merge(
    s: Searcher,
    tokens: Seq<Seq<char>>,
    tid: int,
    streams: Seq<Vec<usize>>,
    ranges: Seq<WordSegmentRange>,
    r: Seq<(usize, WordSegmentRange)>,
)
    requires
        s.wf(),
        0 <= tid < s.transcript_words@.len(),
        views_match(streams, stream_views(s, tokens, tid)),
        forall|k: int, i: int|
            0 <= k < streams.len() && 0 <= i < streams[k]@.len() ==> crate::merge::covers(
                ranges,
                #[trigger] streams[k]@[i],
            ),
        r.len() == ranges.len(),
        forall|x: int| 0 <= x < r.len() ==> #[trigger] r[x] == ((tid as usize), ranges[x]),
    ensures
        covers_tid(s, tokens, r, tid),
{
    reveal(covers_tid);
    assert forall|ti: int, pos: usize|
        #![trigger s_positions(tokens[ti], s, tid).contains(pos)]
        0 <= ti < tokens.len() && s_positions(tokens[ti], s, tid).contains(pos) implies exists|
        x: int,
    |
        0 <= x < r.len() && ((#[trigger] r[x]).0 as int) == tid && r[x].1.elements@.contains(
            pos,
        ) by {
        let i = choose|i: int|
            0 <= i < s_positions(tokens[ti], s, tid).len() && s_positions(tokens[ti], s, tid)[i]
                == pos;
        assert(s.has_tid(tokens[ti], tid)) by {
            if !s.has_tid(tokens[ti], tid) {
            }
        }
        lemma_stream_views_complete(s, tokens, tid, ti);
        let k = choose|k: int|
            0 <= k < stream_views(s, tokens, tid).len() && stream_views(s, tokens, tid)[k]
                == s_positions(tokens[ti], s, tid);
        assert(streams[k]@ == s_positions(tokens[ti], s, tid));
        assert(streams[k]@[i] == pos);
        assert(crate::merge::covers(ranges, pos));
        let j = choose|j: int| 0 <= j < ranges.len() && #[trigger] ranges[j].elements@.contains(pos);
        assert(r[j] == ((tid as usize), ranges[j]));
        assert(((r[j]).0 as int) == tid && r[j].1.elements@.contains(pos));
    }
    assert(covers_tid(s, tokens, r, tid));
}

/// What a sound hit guarantees about its transcript and bounds.
proof fn lemma_hit_sound_bounds(
    s: Searcher,
    tokens: Seq<Seq<char>>,
    hit: (usize, WordSegmentRange),
    allowed: usize,
)
    requires
        s.wf(),
        hit_sound(s, tokens, hit, allowed),
    ensures
        (hit.0 as int) < s.transcript_words@.len(),
        range_wf(hit.1, allowed),
        hit.1.elements@.len() > 0 ==> hit.1.min <= hit.1.max && ((hit.1.max as int)
            < s.transcript_words@[hit.0 as int]@.len()),
{
    reveal(hit_sound);
    reveal(hit_elems_sound);
    if hit.1.elements@.len() > 0 {
        assert(hit.1.elements@.contains(hit.1.max));
        let i = choose|i: int| 0 <= i < hit.1.elements@.len() && hit.1.elements@[i] == hit.1.max;
        let ti = choose|ti: int|
            0 <= ti < tokens.len() && s_positions(#[trigger] tokens[ti], s, hit.0 as int).contains(
                hit.1.elements@[i],
            );
        lemma_positions_wf(s, tokens[ti], hit.0 as int);
        assert(s.has_tid(tokens[ti], hit.0 as int)) by {
            if !s.has_tid(tokens[ti], hit.0 as int) {
            }
        }
        let p = choose|p: int|
            0 <= p < s_positions(tokens[ti], s, hit.0 as int).len() && s_positions(
                tokens[ti],
                s,
                hit.0 as int,
            )[p] == hit.1.elements@[i];
    }
}

/// Assembles per-transcript coverage into coverage of every occurrence.
proof fn lemma_hits_cover_assemble(
    s: Searcher,
    tokens: Seq<Seq<char>>,
    hits: Seq<(usize, WordSegmentRange)>,
    tids: Seq<int>,
)
    requires
        s.wf(),
        forall|x: int| 0 <= x < tids.len() ==> covers_tid(s, tokens, hits, #[trigger] tids[x]),
        forall|t: int|
            #![trigger stream_views(s, tokens, t)]
            0 <= t < s.transcript_words@.len() && stream_views(s, tokens, t).len() > 0
                ==> tids.contains(t),
    ensures
        hits_cover(s, tokens, hits),
{
    reveal(hits_cover);
    reveal(covers_tid);
    assert forall|ti: int, tid: int, pos: usize|
        #![trigger s_positions(tokens[ti], s, tid).contains(pos)]
        0 <= ti < tokens.len() && s_positions(tokens[ti], s, tid).contains(pos) implies exists|
        x: int,
    |
        0 <= x < hits.len() && ((#[trigger] hits[x]).0 as int) == tid
            && hits[x].1.elements@.contains(pos) by {
        assert(s.has_tid(tokens[ti], tid)) by {
            if !s.has_tid(tokens[ti], tid) {
            }
        }
        lemma_positions_wf(s, tokens[ti], tid);
        assert(0 <= tid < s.transcript_words@.len());
        assert(stream_views(s, tokens, tid).len() > 0) by {
            if stream_views(s, tokens, tid).len() == 0 {
                lemma_stream_views_empty(s, tokens, tid, ti);
            }
        }
        assert(tids.contains(tid));
        let x0 = choose|x0: int| 0 <= x0 < tids.len() && tids[x0] == tid;
        assert(covers_tid(s, tokens, hits, tid));
    }
    assert(hits_cover(s, tokens, hits));
}

/// Every hit of a permutation-by-membership list is covered too.
proof fn lemma_hits_cover_reorder(
    s: Searcher,
    tokens: Seq<Seq<char>>,
    h1: Seq<(usize, WordSegmentRange)>,
    h2: Seq<(usize, WordSegmentRange)>,
)
    requires
        hits_cover(s, tokens, h1),
        forall|k: int|
            0 <= k < h1.len() ==> exists|j: int| 0 <= j < h2.len() && h2[j] == #[trigger] h1[k],
    ensures
        hits_cover(s, tokens, h2),
{
    reveal(hits_cover);
    assert forall|ti: int, tid: int, pos: usize|
        #![trigger s_positions(tokens[ti], s, tid).contains(pos)]
        0 <= ti < tokens.len() && s_positions(tokens[ti], s, tid).contains(pos) implies exists|
        x: int,
    |
        0 <= x < h2.len() && ((#[trigger] h2[x]).0 as int) == tid && h2[x].1.elements@.contains(
            pos,
        ) by {
        assert(exists|k: int|
            0 <= k < h1.len() && ((#[trigger] h1[k]).0 as int) == tid
                && h1[k].1.elements@.contains(pos));
        let k = choose|k: int|
            0 <= k < h1.len() && ((#[trigger] h1[k]).0 as int) == tid && h1[k].1.elements@.contains(
                pos,
            );
        let j = choose|j: int| 0 <= j < h2.len() && h2[j] == #[trigger] h1[k];
    }
    assert(hits_cover(s, tokens, h2));
}

/// Coverage carries over from a hit list embedded at an offset of a longer
/// one.
proof fn lemma_covers_tid_embed(
    s: Searcher,
    tokens: Seq<Seq<char>>,
    sub: Seq<(usize, WordSegmentRange)>,
    whole: Seq<(usize, WordSegmentRange)>,
    tid: int,
    off: int,
)
    requires
        covers_tid(s, tokens, sub, tid),
        0 <= off,
        off + sub.len() <= whole.len(),
        forall|x: int| 0 <= x < sub.len() ==> #[trigger] whole[off + x] == sub[x],
    ensures
        covers_tid(s, tokens, whole, tid),
{
    reveal(covers_tid);
    assert forall|ti: int, pos: usize|
        #![trigger s_positions(tokens[ti], s, tid).contains(pos)]
        0 <= ti < tokens.len() && s_positions(tokens[ti], s, tid).contains(pos) implies exists|
        x: int,
    |
        0 <= x < whole.len() && ((#[trigger] whole[x]).0 as int) == tid
            && whole[x].1.elements@.contains(pos) by {
        assert(exists|x: int|
            0 <= x < sub.len() && ((#[trigger] sub[x]).0 as int) == tid
                && sub[x].1.elements@.contains(pos));
        let x = choose|x: int|
            0 <= x < sub.len() && ((#[trigger] sub[x]).0 as int) == tid
                && sub[x].1.elements@.contains(pos);
        assert(whole[off + x] == sub[x]);
    }
    assert(covers_tid(s, tokens, whole, tid));
}

/// Growing the hit list keeps its coverage of a transcript.
proof fn lemma_covers_tid_grow(
    s: Searcher,
    tokens: Seq<Seq<char>>,
    h1: Seq<(usize, WordSegmentRange)>,
    h2: Seq<(usize, WordSegmentRange)>,
    tid: int,
)
    requires
        covers_tid(s, tokens, h1, tid),
        h2.len() >= h1.len(),
        forall|x: int| 0 <= x < h1.len() ==> #[trigger] h2[x] == h1[x],
    ensures
        covers_tid(s, tokens, h2, tid),
{
    reveal(covers_tid);
    assert forall|ti: int, pos: usize|
        #![trigger s_positions(tokens[ti], s, tid).contains(pos)]
        0 <= ti < tokens.len() && s_positions(tokens[ti], s, tid).contains(pos) implies exists|
        x: int,
    |
        0 <= x < h2.len() && ((#[trigger] h2[x]).0 as int) == tid && h2[x].1.elements@.contains(
            pos,
        ) by {
        assert(exists|x: int|
            0 <= x < h1.len() && ((#[trigger] h1[x]).0 as int) == tid
                && h1[x].1.elements@.contains(pos));
        let x = choose|x: int|
            0 <= x < h1.len() && ((#[trigger] h1[x]).0 as int) == tid && h1[x].1.elements@.contains(
                pos,
            );
        assert(h2[x] == h1[x]);
    }
    assert(covers_tid(s, tokens, h2, tid));
}

/// The positions of a word in a transcript, written as a free function so
/// that quantifiers can trigger on it.
pub open spec fn s_positions(w: Seq<char>, s: Searcher, tid: int) -> Seq<usize> {
    s.positions_of(w, tid)
}

/// Calls the proximity merge on the grouped streams.
fn merge_special_call(arrays: Vec<Vec<usize>>, allowed_range: usize) -> (out: Vec<
    WordSegmentRange,
>)
    requires
        arrays@.len() <= 32,
        forall|k: int| 0 <= k < arrays@.len() ==> strictly_increasing((#[trigger] arrays@[k])@),
    ensures
        forall|j: int| 0 <= j < out@.len() ==> range_wf(#[trigger] out@[j], allowed_range),
        forall|j: int| 0 <= j < out@.len() ==> crate::merge::bits_sound(#[trigger] out@[j], arrays@),
        forall|j: int|
            0 <= j < out@.len() ==> crate::merge::elems_sound(#[trigger] out@[j], arrays@),
        forall|k: int, i: int|
            0 <= k < arrays@.len() && 0 <= i < arrays@[k]@.len() ==> crate::merge::covers(
                out@,
                #[trigger] arrays@[k]@[i],
            ),
{
    crate::merge::merge_special(arrays, allowed_range)
}

/// The position list holds the exact value v.
pub open spec fn contains_int(ps: Seq<usize>, v: int) -> bool {
    exists|j: int| 0 <= j < ps.len() && ps[j] == v
}

/// Position p starts a consecutive occurrence of all tokens in the
/// transcript: token idx occurs at p + idx.
pub open spec fn is_phrase_start(s: Searcher, tokens: Seq<Seq<char>>, tid: int, p: int) -> bool {
    forall|idx: int|
        0 <= idx < tokens.len() ==> contains_int(s_positions(#[trigger] tokens[idx], s, tid), p + idx)
}

/// The phrase hit list is exactly the phrase starts, in transcript order
/// then position order.
#[verifier::opaque]
pub open spec fn exact_pairs_ok(
    s: Searcher,
    tokens: Seq<Seq<char>>,
    pairs: Seq<(usize, usize)>,
) -> bool {
    &&& forall|x: int|
        0 <= x < pairs.len() ==> ((#[trigger] pairs[x]).0 as int) < s.transcript_words@.len()
            && is_phrase_start(s, tokens, pairs[x].0 as int, pairs[x].1 as int)
    &&& forall|tid: int, p: int|
        #![trigger is_phrase_start(s, tokens, tid, p)]
        tokens.len() > 0 && 0 <= tid < s.transcript_words@.len() && is_phrase_start(
            s,
            tokens,
            tid,
            p,
        ) ==> exists|x: int|
            0 <= x < pairs.len() && ((#[trigger] pairs[x]).0 as int) == tid && (pairs[x].1 as int)
                == p
    &&& forall|x1: int, x2: int|
        0 <= x1 < x2 < pairs.len() ==> ((#[trigger] pairs[x1]).0 < (#[trigger] pairs[x2]).0 || (
        pairs[x1].0 == pairs[x2].0 && pairs[x1].1 < pairs[x2].1))
    &&& (tokens.len() == 0 ==> pairs.len() == 0)
}

/// Every phrase start in a transcript below the bound is already listed.
#[verifier::opaque]
pub open spec fn exact_complete_below(
    s: Searcher,
    tokens: Seq<Seq<char>>,
    pairs: Seq<(usize, usize)>,
    bound: int,
) -> bool {
    forall|tid2: int, p2: int|
        #![trigger is_phrase_start(s, tokens, tid2, p2)]
        0 <= tid2 < bound && is_phrase_start(s, tokens, tid2, p2) ==> exists|x: int|
            0 <= x < pairs.len() && ((#[trigger] pairs[x]).0 as int) == tid2 && (pairs[x].1 as int)
                == p2
}

proof fn lemma_exact_complete_grow(
    s: Searcher,
    tokens: Seq<Seq<char>>,
    p1: Seq<(usize, usize)>,
    p2: Seq<(usize, usize)>,
    bound: int,
)
    requires
        exact_complete_below(s, tokens, p1, bound),
        p2.len() >= p1.len(),
        forall|x: int| 0 <= x < p1.len() ==> #[trigger] p2[x] == p1[x],
    ensures
        exact_complete_below(s, tokens, p2, bound),
{
    reveal(exact_complete_below);
    assert forall|tid2: int, q: int|
        #![trigger is_phrase_start(s, tokens, tid2, q)]
        0 <= tid2 < bound && is_phrase_start(s, tokens, tid2, q) implies exists|x: int|
        0 <= x < p2.len() && ((#[trigger] p2[x]).0 as int) == tid2 && (p2[x].1 as int) == q by {
        let x = choose|x: int|
            0 <= x < p1.len() && ((#[trigger] p1[x]).0 as int) == tid2 && (p1[x].1 as int) == q;
        assert(p2[x] == p1[x]);
    }
    assert(exact_complete_below(s, tokens, p2, bound));
}

proof fn lemma_exact_complete_step(
    s: Searcher,
    tokens: Seq<Seq<char>>,
    pairs: Seq<(usize, usize)>,
    tid: int,
    sts: Seq<usize>,
)
    requires
        exact_complete_below(s, tokens, pairs, tid),
        tokens.len() > 0,
        sts == s_positions(tokens[0], s, tid),
        forall|jj: int|
            0 <= jj < sts.len() && is_phrase_start(s, tokens, tid, (#[trigger] sts[jj]) as int)
                ==> exists|x: int|
                0 <= x < pairs.len() && (#[trigger] pairs[x]).0 as int == tid && pairs[x].1
                    == sts[jj],
    ensures
        exact_complete_below(s, tokens, pairs, tid + 1),
{
    reveal(exact_complete_below);
    assert forall|tid2: int, q: int|
        #![trigger is_phrase_start(s, tokens, tid2, q)]
        0 <= tid2 < tid + 1 && is_phrase_start(s, tokens, tid2, q) implies exists|x: int|
        0 <= x < pairs.len() && ((#[trigger] pairs[x]).0 as int) == tid2 && (pairs[x].1 as int)
            == q by {
        if tid2 == tid {
            assert(contains_int(s_positions(tokens[0], s, tid), q + 0));
            let jj = choose|jj: int| 0 <= jj < sts.len() && sts[jj] == q;
            assert(is_phrase_start(s, tokens, tid, sts[jj] as int));
            let x = choose|x: int|
                0 <= x < pairs.len() && (#[trigger] pairs[x]).0 as int == tid && pairs[x].1
                    == sts[jj];
        }
    }
    assert(exact_complete_below(s, tokens, pairs, tid + 1));
}

/// Phrase hits in transcript order, then position order.
pub open spec fn pairs_sorted(pairs: Seq<(usize, usize)>) -> bool {
    forall|x1: int, x2: int|
        0 <= x1 < x2 < pairs.len() ==> ((#[trigger] pairs[x1]).0 < (#[trigger] pairs[x2]).0 || (
        pairs[x1].0 == pairs[x2].0 && pairs[x1].1 < pairs[x2].1))
}

/// What one exact-phrase result must look like.
pub open spec fn phrase_result_ok(s: Searcher, tid: int, p: int, k: int, r: QueryResult) -> bool {
    &&& r.transcript@ == s.transcript_paths@[tid]@
    &&& r.unique_count == k
    &&& r.element_count == k
    &&& r.words@.len() == k
    &&& forall|j: int|
        0 <= j < k ==> (#[trigger] r.words@[j]).word@ == s.transcript_words@[tid]@[p + j].word@
            && r.words@[j].start_ms == s.transcript_words@[tid]@[p + j].start_ms
            && r.words@[j].end_ms == s.transcript_words@[tid]@[p + j].end_ms && r.words@[j].matched
}

impl Searcher {
    /// Whether token w occurs at position t of the transcript.
    fn occurs_at(&self, w: &String, tid: usize, t: usize) -> (r: bool)
        requires
            self.wf(),
        ensures
            r == contains_int(s_positions(w@, *self, tid as int), t as int),
    {
        let slot_opt = self.lookup_key(w);
        match slot_opt {
            Some(slot) => {
                let e_opt = self.lookup_tid(slot, tid);
                match e_opt {
                    Some(e) => {
                        let ps = &self.postings[slot][e];
                        let found = contains_pos(&ps.1, t);
                        proof {
                            assert(s_positions(w@, *self, tid as int) == ps.1@);
                            if ps.1@.contains(t) {
                                let j = choose|j: int| 0 <= j < ps.1@.len() && ps.1@[j] == t;
                                assert(contains_int(ps.1@, t as int));
                            }
                            if contains_int(ps.1@, t as int) {
                                let j = choose|j: int| 0 <= j < ps.1@.len() && ps.1@[j] == t as int;
                                assert(ps.1@.contains(t));
                            }
                        }
                        found
                    },
                    None => {
                        proof {
                            assert(s_positions(w@, *self, tid as int) =~= Seq::<usize>::empty());
                        }
                        false
                    },
                }
            },
            None => {
                proof {
                    assert(!self.has_tid(w@, tid as int)) by {
                        if self.has_tid(w@, tid as int) {
                            let e = choose|e: int|
                                0 <= e < self.postings_of(w@).len() && (
                                #[trigger] self.postings_of(w@)[e]).0 == tid;
                        }
                    }
                    assert(s_positions(w@, *self, tid as int) =~= Seq::<usize>::empty());
                }
                false
            },
        }
    }

    /// Scans one transcript's candidate positions and records its phrase
    /// starts.
    #[verifier::spinoff_prover]
    #[verifier::rlimit(100)]
    fn scan_transcript(
        &self,
        tid: usize,
        tokens: &Vec<String>,
        starts_slot: usize,
        starts_entry: usize,
        pairs: &mut Vec<(usize, usize)>,
        Ghost(tokviews): Ghost<Seq<Seq<char>>>,
    )
        requires
            self.wf(),
            tokens@.len() > 0,
            tokviews.len() == tokens@.len(),
            forall|x: int| 0 <= x < tokviews.len() ==> tokviews[x] == (#[trigger] tokens@[x])@,
            (tid as int) < self.transcript_words@.len(),
            (starts_slot as int) < self.postings@.len(),
            (starts_entry as int) < self.postings@[starts_slot as int]@.len(),
            self.postings@[starts_slot as int]@[starts_entry as int].1@ == s_positions(
                tokviews[0],
                *self,
                tid as int,
            ),
            forall|x: int|
                0 <= x < old(pairs)@.len() ==> ((#[trigger] old(pairs)@[x]).0 as int) < tid as int
                    && is_phrase_start(
                    *self,
                    tokviews,
                    old(pairs)@[x].0 as int,
                    old(pairs)@[x].1 as int,
                ),
            pairs_sorted(old(pairs)@),
            exact_complete_below(*self, tokviews, old(pairs)@, tid as int),
        ensures
            forall|x: int|
                0 <= x < final(pairs)@.len() ==> ((#[trigger] final(pairs)@[x]).0 as int) <= tid as int
                    && is_phrase_start(
                    *self,
                    tokviews,
                    final(pairs)@[x].0 as int,
                    final(pairs)@[x].1 as int,
                ),
            pairs_sorted(final(pairs)@),
            exact_complete_below(*self, tokviews, final(pairs)@, tid as int + 1),
    {
        let ghost sts = self.postings@[starts_slot as int]@[starts_entry as int].1@;
        proof {
            lemma_positions_wf(*self, tokviews[0], tid as int);
            assert(strictly_increasing(sts));
        }
        let m = self.postings[starts_slot][starts_entry].1.len();
        let mut ii: usize = 0;
        while ii < m
            invariant
                ii <= m,
                self.wf(),
                tokens@.len() > 0,
                tokviews.len() == tokens@.len(),
                forall|x: int| 0 <= x < tokviews.len() ==> tokviews[x] == (#[trigger] tokens@[x])@,
                (starts_slot as int) < self.postings@.len(),
                (starts_entry as int) < self.postings@[starts_slot as int]@.len(),
                sts == self.postings@[starts_slot as int]@[starts_entry as int].1@,
                m == sts.len(),
                sts == s_positions(tokviews[0], *self, tid as int),
                (tid as int) < self.transcript_words@.len(),
                strictly_increasing(sts),
                forall|x: int|
                    0 <= x < pairs@.len() ==> ((#[trigger] pairs@[x]).0 as int) <= tid as int
                        && is_phrase_start(
                        *self,
                        tokviews,
                        pairs@[x].0 as int,
                        pairs@[x].1 as int,
                    ),
                pairs_sorted(pairs@),
                forall|x: int|
                    0 <= x < pairs@.len() && (#[trigger] pairs@[x]).0 == tid ==> exists|jj: int|
                        0 <= jj < ii && sts[jj] == pairs@[x].1,
                forall|jj: int|
                    0 <= jj < ii && is_phrase_start(
                        *self,
                        tokviews,
                        tid as int,
                        (#[trigger] sts[jj]) as int,
                    ) ==> exists|x: int|
                        0 <= x < pairs@.len() && (#[trigger] pairs@[x]).0 == tid && pairs@[x].1
                            == sts[jj],
                exact_complete_below(*self, tokviews, pairs@, tid as int),
            decreases m - ii,
        {
            let p = self.postings[starts_slot][starts_entry].1[ii];
            proof {
                assert(sts[ii as int] == p);
                assert(contains_int(s_positions(tokviews[0], *self, tid as int), p as int)) by {
                    assert(sts[ii as int] == p);
                }
            }
            let all = self.is_start_here(tokens, tid, p, Ghost(tokviews));
            let ghost pre_pairs = pairs@;
            if all {
                pairs.push((tid, p));
            }
            proof {
                lemma_exact_complete_grow(*self, tokviews, pre_pairs, pairs@, tid as int);
                if all {
                    assert(pairs@ == pre_pairs.push((tid, p)));
                    assert(pairs_sorted(pairs@)) by {
                        assert forall|x1: int, x2: int|
                            0 <= x1 < x2 < pairs@.len() implies ((#[trigger] pairs@[x1]).0 < (
                        #[trigger] pairs@[x2]).0 || (pairs@[x1].0 == pairs@[x2].0 && pairs@[x1].1
                            < pairs@[x2].1)) by {
                            if x2 == pairs@.len() - 1 {
                                assert(pairs@[x1] == pre_pairs[x1]);
                                if pre_pairs[x1].0 == tid {
                                    let jj = choose|jj: int|
                                        0 <= jj < ii && sts[jj] == pre_pairs[x1].1;
                                    assert(sts[jj] < sts[ii as int]);
                                }
                            } else {
                                assert(pairs@[x1] == pre_pairs[x1] && pairs@[x2] == pre_pairs[x2]);
                            }
                        }
                    }
                }
                assert forall|x: int|
                    0 <= x < pairs@.len() && (#[trigger] pairs@[x]).0 == tid implies exists|
                    jj: int,
                | 0 <= jj < ii + 1 && sts[jj] == pairs@[x].1 by {
                    if x < pre_pairs.len() {
                        if pre_pairs[x].0 == tid {
                            let jj = choose|jj: int| 0 <= jj < ii && sts[jj] == pre_pairs[x].1;
                            assert(sts[jj] == pairs@[x].1);
                        }
                    } else {
                        assert(sts[ii as int] == pairs@[x].1);
                    }
                }
                assert forall|jj: int|
                    0 <= jj < ii + 1 && is_phrase_start(
                        *self,
                        tokviews,
                        tid as int,
                        (#[trigger] sts[jj]) as int,
                    ) implies exists|x: int|
                    0 <= x < pairs@.len() && (#[trigger] pairs@[x]).0 == tid && pairs@[x].1
                        == sts[jj] by {
                    if jj < ii {
                        let x = choose|x: int|
                            0 <= x < pre_pairs.len() && (#[trigger] pre_pairs[x]).0 == tid
                                && pre_pairs[x].1 == sts[jj];
                        assert(pairs@[x] == pre_pairs[x]);
                    } else {
                        assert(sts[jj] == p);
                        assert(all);
                        assert(pairs@[pairs@.len() - 1] == ((tid, p)));
                    }
                }
            }
            ii += 1;
        }
        proof {
            assert forall|jj: int|
                0 <= jj < sts.len() && is_phrase_start(
                    *self,
                    tokviews,
                    tid as int,
                    (#[trigger] sts[jj]) as int,
                ) implies exists|x: int|
                0 <= x < pairs@.len() && (#[trigger] pairs@[x]).0 as int == tid as int
                    && pairs@[x].1 == sts[jj] by {
                let x = choose|x: int|
                    0 <= x < pairs@.len() && (#[trigger] pairs@[x]).0 == tid && pairs@[x].1
                        == sts[jj];
            }
            lemma_exact_complete_step(*self, tokviews, pairs@, tid as int, sts);
        }
    }

    /// Whether every token occurs consecutively starting at p.
    fn is_start_here(
        &self,
        tokens: &Vec<String>,
        tid: usize,
        p: usize,
        Ghost(tokviews): Ghost<Seq<Seq<char>>>,
    ) -> (r: bool)
        requires
            self.wf(),
            tokens@.len() > 0,
            tokviews.len() == tokens@.len(),
            forall|x: int| 0 <= x < tokviews.len() ==> tokviews[x] == (#[trigger] tokens@[x])@,
            contains_int(s_positions(tokviews[0], *self, tid as int), p as int),
        ensures
            r == is_phrase_start(*self, tokviews, tid as int, p as int),
    {
        let k = tokens.len();
        let mut all = true;
        let mut idx: usize = 1;
        while idx < k
            invariant
                1 <= idx <= k,
                k == tokens@.len(),
                tokviews.len() == k,
                self.wf(),
                forall|x: int| 0 <= x < k ==> tokviews[x] == (#[trigger] tokens@[x])@,
                all ==> forall|x: int|
                    0 <= x < idx ==> contains_int(
                        s_positions(#[trigger] tokviews[x], *self, tid as int),
                        p + x,
                    ),
                !all ==> !is_phrase_start(*self, tokviews, tid as int, p as int),
                contains_int(s_positions(tokviews[0], *self, tid as int), p as int),
            decreases k - idx,
        {
            if all {
                match p.checked_add(idx) {
                    Some(t) => {
                        let here = self.occurs_at(&tokens[idx], tid, t);
                        if !here {
                            proof {
                                assert(!contains_int(
                                    s_positions(tokviews[idx as int], *self, tid as int),
                                    p + idx as int,
                                ));
                            }
                            all = false;
                        }
                    },
                    None => {
                        proof {
                            assert(!contains_int(
                                s_positions(tokviews[idx as int], *self, tid as int),
                                p + idx as int,
                            )) by {
                                if contains_int(
                                    s_positions(tokviews[idx as int], *self, tid as int),
                                    p + idx as int,
                                ) {
                                    let j = choose|j: int|
                                        0 <= j < s_positions(
                                            tokviews[idx as int],
                                            *self,
                                            tid as int,
                                        ).len() && s_positions(
                                            tokviews[idx as int],
                                            *self,
                                            tid as int,
                                        )[j] == p + idx as int;
                                }
                            }
                        }
                        all = false;
                    },
                }
            }
            idx += 1;
        }
        proof {
            if all {
                assert(is_phrase_start(*self, tokviews, tid as int, p as int));
            }
        }
        all
    }

    /// Exact-phrase search: the query's tokens must occur at consecutive
    /// positions. Every hit covers exactly the phrase, every word of it
    /// matched; hits come in transcript order, then position order, paged
    /// with the same window as `search`.
    #[verifier::spinoff_prover]
    #[verifier::rlimit(100)]
    pub fn search_exact(&self, query: &str, page: usize) -> (r: Vec<QueryResult>)
        requires
            self.wf(),
        ensures
            exists|pairs: Seq<(usize, usize)>|
                #![trigger exact_pairs_ok(*self, spec_tokens(query@, self.stop_words@, false), pairs)]
                {
                    let tokens = spec_tokens(query@, self.stop_words@, false);
                    let ws = page_start(pairs.len() as int, page as int, self.page_size as int);
                    let we = page_end(pairs.len() as int, page as int, self.page_size as int);
                    &&& exact_pairs_ok(*self, tokens, pairs)
                    &&& r@.len() == we - ws
                    &&& forall|x: int|
                        0 <= x < r@.len() ==> phrase_result_ok(
                            *self,
                            pairs[ws + x].0 as int,
                            pairs[ws + x].1 as int,
                            tokens.len() as int,
                            #[trigger] r@[x],
                        )
                },
    {
        let tokens = self.tokenize_query(query, false);
        let ghost tokviews = spec_tokens(query@, self.stop_words@, false);
        proof {
            assert(tokens@.len() == tokviews.len());
            assert forall|x: int| 0 <= x < tokviews.len() implies tokviews[x] == (
            #[trigger] tokens@[x])@ by {}
        }
        let k = tokens.len();
        let n = self.transcript_words.len();
        let mut pairs: Vec<(usize, usize)> = Vec::new();
        if k > 0 {
            proof {
                assert(exact_complete_below(*self, tokviews, pairs@, 0)) by {
                    reveal(exact_complete_below);
                }
            }
            let mut tid: usize = 0;
            while tid < n
                invariant
                    tid <= n,
                    n == self.transcript_words@.len(),
                    self.wf(),
                    k == tokens@.len(),
                    k > 0,
                    tokviews.len() == k,
                    forall|x: int| 0 <= x < k ==> tokviews[x] == (#[trigger] tokens@[x])@,
                    forall|x: int|
                        0 <= x < pairs@.len() ==> ((#[trigger] pairs@[x]).0 as int) < tid as int
                            && is_phrase_start(
                            *self,
                            tokviews,
                            pairs@[x].0 as int,
                            pairs@[x].1 as int,
                        ),
                    forall|x1: int, x2: int|
                        0 <= x1 < x2 < pairs@.len() ==> ((#[trigger] pairs@[x1]).0 < (
                        #[trigger] pairs@[x2]).0 || (pairs@[x1].0 == pairs@[x2].0 && pairs@[x1].1
                            < pairs@[x2].1)),
                    exact_complete_below(*self, tokviews, pairs@, tid as int),
                decreases n - tid,
            {
                let ghost pre_tid_pairs = pairs@;
                let slot_opt = self.lookup_key(&tokens[0]);
                let mut have_starts = false;
                let mut starts_slot: usize = 0;
                let mut starts_entry: usize = 0;
                match slot_opt {
                    Some(slot) => {
                        let e_opt = self.lookup_tid(slot, tid);
                        match e_opt {
                            Some(e) => {
                                have_starts = true;
                                starts_slot = slot;
                                starts_entry = e;
                            },
                            None => {},
                        }
                    },
                    None => {
                        proof {
                            assert(!self.has_tid(tokviews[0], tid as int)) by {
                                if self.has_tid(tokviews[0], tid as int) {
                                    let e = choose|e: int|
                                        0 <= e < self.postings_of(tokviews[0]).len() && (
                                        #[trigger] self.postings_of(tokviews[0])[e]).0 == tid;
                                }
                            }
                        }
                    },
                }
                if have_starts {
                    self.scan_transcript(
                        tid,
                        &tokens,
                        starts_slot,
                        starts_entry,
                        &mut pairs,
                        Ghost(tokviews),
                    );
                } else {
                    proof {
                        assert(s_positions(tokviews[0], *self, tid as int) =~= Seq::<
                            usize,
                        >::empty());
                        lemma_exact_complete_step(
                            *self,
                            tokviews,
                            pairs@,
                            tid as int,
                            s_positions(tokviews[0], *self, tid as int),
                        );
                    }
                }
                tid += 1;
            }
        }
        proof {
            assert(exact_pairs_ok(*self, tokviews, pairs@)) by {
                reveal(exact_pairs_ok);
                reveal(exact_complete_below);
                if k == 0 {
                    assert(pairs@.len() == 0);
                }
            }
        }
        let ghost g_pairs = pairs@;
        let paged = page_slice_starts(pairs, page, self.page_size);
        let ghost ws = page_start(g_pairs.len() as int, page as int, self.page_size as int);
        let ghost we = page_end(g_pairs.len() as int, page as int, self.page_size as int);
        let mut out: Vec<QueryResult> = Vec::new();
        let mut paged = paged;
        let ghost mut pi: int = 0;
        while paged.len() > 0
            invariant
                self.wf(),
                0 <= ws <= we <= g_pairs.len(),
                0 <= pi <= we - ws,
                paged@ == g_pairs.subrange(ws + pi, we),
                out@.len() == pi,
                k == tokens@.len(),
                tokviews.len() == k,
                forall|x: int| 0 <= x < k ==> tokviews[x] == (#[trigger] tokens@[x])@,
                k == 0 ==> g_pairs.len() == 0,
                forall|x: int|
                    0 <= x < g_pairs.len() ==> ((#[trigger] g_pairs[x]).0 as int)
                        < self.transcript_words@.len() && is_phrase_start(
                        *self,
                        tokviews,
                        g_pairs[x].0 as int,
                        g_pairs[x].1 as int,
                    ),
                forall|x: int|
                    0 <= x < out@.len() ==> phrase_result_ok(
                        *self,
                        g_pairs[ws + x].0 as int,
                        g_pairs[ws + x].1 as int,
                        k as int,
                        #[trigger] out@[x],
                    ),
            decreases paged@.len(),
        {
            let (tid, p) = paged.remove(0);
            proof {
                assert(g_pairs.subrange(ws + pi, we)[0] == g_pairs[ws + pi]);
                assert(g_pairs.subrange(ws + pi, we).drop_first() =~= g_pairs.subrange(
                    ws + pi + 1,
                    we,
                ));
                assert(is_phrase_start(*self, tokviews, tid as int, p as int));
            }
            let qres = self.build_phrase_result(tid, p, &tokens, Ghost(tokviews));
            out.push(qres);
            proof {
                pi = pi + 1;
            }
        }
        proof {
            assert(out@.len() == we - ws);
        }
        out
    }

    /// Renders one exact-phrase hit: the phrase's words, all matched.
    fn build_phrase_result(
        &self,
        tid: usize,
        p: usize,
        tokens: &Vec<String>,
        Ghost(tokviews): Ghost<Seq<Seq<char>>>,
    ) -> (r: QueryResult)
        requires
            self.wf(),
            (tid as int) < self.transcript_words@.len(),
            tokviews.len() == tokens@.len(),
            forall|x: int| 0 <= x < tokviews.len() ==> tokviews[x] == (#[trigger] tokens@[x])@,
            is_phrase_start(*self, tokviews, tid as int, p as int),
            tokens@.len() > 0,
        ensures
            phrase_result_ok(*self, tid as int, p as int, tokens@.len() as int, r),
    {
        let k = tokens.len();
        let words = &self.transcript_words[tid];
        let mut out_words: Vec<QueryWord> = Vec::new();
        let mut j: usize = 0;
        while j < k
            invariant
                j <= k,
                self.wf(),
                k == tokens@.len(),
                tokviews.len() == k,
                (tid as int) < self.transcript_words@.len(),
                words@ == self.transcript_words@[tid as int]@,
                is_phrase_start(*self, tokviews, tid as int, p as int),
                out_words@.len() == j,
                forall|x: int|
                    0 <= x < j ==> (#[trigger] out_words@[x]).word@ == words@[p + x].word@
                        && out_words@[x].start_ms == words@[p + x].start_ms && out_words@[x].end_ms
                        == words@[p + x].end_ms && out_words@[x].matched,
            decreases k - j,
        {
            proof {
                assert(contains_int(
                    s_positions(#[trigger] tokviews[j as int], *self, tid as int),
                    p as int + j,
                ));
                let jj = choose|jj: int|
                    0 <= jj < s_positions(tokviews[j as int], *self, tid as int).len()
                        && s_positions(tokviews[j as int], *self, tid as int)[jj] == p as int + j;
                lemma_positions_wf(*self, tokviews[j as int], tid as int);
                assert(self.has_tid(tokviews[j as int], tid as int)) by {
                    if !self.has_tid(tokviews[j as int], tid as int) {
                    }
                }
                assert(p + j < words@.len());
            }
            let w = &words[p + j];
            out_words.push(
                QueryWord { word: w.word.clone(), start_ms: w.start_ms, end_ms: w.end_ms, matched: true },
            );
            j += 1;
        }
        QueryResult {
            transcript: self.transcript_paths[tid].clone(),
            words: out_words,
            unique_count: k,
            element_count: k,
        }
    }
}

/// Cuts the phrase hits down to the requested page, with the same window
/// as the ranked search.
fn page_slice_starts(v: Vec<(usize, usize)>, page: usize, page_size: usize) -> (r: Vec<
    (usize, usize),
>)
    ensures
        r@ == v@.subrange(
            page_start(v@.len() as int, page as int, page_size as int),
            page_end(v@.len() as int, page as int, page_size as int),
        ),
{
    let ghost g_v = v@;
    let mut v = v;
    let len = v.len();
    let skip_opt = page.checked_mul(page_size);
    let start: usize = match skip_opt {
        Some(s) => if s <= len {
            s
        } else {
            len
        },
        None => len,
    };
    let end: usize = match skip_opt {
        Some(s) => match s.checked_add(s) {
            Some(ss) => match ss.checked_add(page_size) {
                Some(e) => if e <= len {
                    e
                } else {
                    len
                },
                None => len,
            },
            None => len,
        },
        None => len,
    };
    proof {
        assert(start as int == page_start(g_v.len() as int, page as int, page_size as int));
        assert(end as int == page_end(g_v.len() as int, page as int, page_size as int));
        assert(start <= end);
    }
    v.truncate(end);
    let mut dropped: usize = 0;
    while dropped < start
        invariant
            dropped <= start,
            start <= end <= g_v.len(),
            v@ == g_v.subrange(dropped as int, end as int),
        decreases start - dropped,
    {
        let _ = v.remove(0);
        proof {
            assert(g_v.subrange(dropped as int, end as int).drop_first() =~= g_v.subrange(
                dropped + 1 as int,
                end as int,
            ));
        }
        dropped += 1;
    }
    v
}

/// The listed strings that start with w, in list order.
pub open spec fn prefix_matches(strings: Seq<String>, w: Seq<char>, n: int) -> Seq<String>
    decreases n,
{
    if n <= 0 {
        Seq::empty()
    } else {
        let pre = prefix_matches(strings, w, n - 1);
        if is_prefix(w, strings[n - 1]@) {
            pre.push(strings[n - 1])
        } else {
            pre
        }
    }
}

/// Looks up all strings extending the given word: every entry of the list
/// that starts with it, in list order, or nothing when no entry does. The
/// caller is expected to pass the index's sorted key list.
pub fn find_all_extended_words(strings: &Vec<String>, word: &str) -> (r: Option<Vec<String>>)
    ensures
        match r {
            Some(v) => v@ == prefix_matches(strings@, word@, strings@.len() as int) && v@.len()
                > 0,
            None => prefix_matches(strings@, word@, strings@.len() as int).len() == 0,
        },
{
    let n = strings.len();
    let mut out: Vec<String> = Vec::new();
    let mut i: usize = 0;
    while i < n
        invariant
            i <= n,
            n == strings@.len(),
            out@ == prefix_matches(strings@, word@, i as int),
        decreases n - i,
    {
        if crate::text::has_prefix(strings[i].as_str(), word) {
            out.push(strings[i].clone());
        }
        i += 1;
    }
    if out.len() > 0 {
        Some(out)
    } else {
        None
    }
}

/// The tokens that are (or are not) stop words, in order.
pub open spec fn filter_stop(ts: Seq<String>, stop: Seq<String>, keep_stop: bool) -> Seq<String>
    decreases ts.len(),
{
    if ts.len() == 0 {
        Seq::empty()
    } else {
        let pre = filter_stop(ts.drop_last(), stop, keep_stop);
        if spec_contains_word(stop, ts.last()@) == keep_stop {
            pre.push(ts.last())
        } else {
            pre
        }
    }
}

/// The tokens the index does (or does not) know, in order.
pub open spec fn filter_known(s: Searcher, ts: Seq<String>, keep_known: bool) -> Seq<String>
    decreases ts.len(),
{
    if ts.len() == 0 {
        Seq::empty()
    } else {
        let pre = filter_known(s, ts.drop_last(), keep_known);
        if s.has_key(ts.last()@) == keep_known {
            pre.push(ts.last())
        } else {
            pre
        }
    }
}

/// Every token has an entry of extending index keys.
#[verifier::opaque]
pub open spec fn all_tokens_listed(words: Seq<String>, sw: Seq<(String, Vec<String>)>) -> bool {
    forall|i: int|
        #![trigger words[i]]
        0 <= i < words.len() ==> exists|e: int|
            0 <= e < sw.len() && (#[trigger] sw[e]).0@ == (words[i])@
}

impl Searcher {
    /// Splits the tokens into stop words and the rest.
    fn partition_stop(&self, words: &Vec<String>, keep_stop: bool) -> (r: Vec<String>)
        ensures
            r@ == filter_stop(words@, self.stop_words@, keep_stop),
    {
        let n = words.len();
        let mut out: Vec<String> = Vec::new();
        let mut i: usize = 0;
        while i < n
            invariant
                i <= n,
                n == words@.len(),
                out@ == filter_stop(words@.take(i as int), self.stop_words@, keep_stop),
            decreases n - i,
        {
            proof {
                assert(words@.take(i + 1 as int).drop_last() =~= words@.take(i as int));
                assert(words@.take(i + 1 as int).last() == words@[i as int]);
            }
            if contains_word(&self.stop_words, &words[i]) == keep_stop {
                out.push(words[i].clone());
            }
            i += 1;
        }
        proof {
            assert(words@.take(n as int) =~= words@);
        }
        out
    }

    /// Splits the tokens into those the index knows and those it does not.
    fn partition_known(&self, words: &Vec<String>, keep_known: bool) -> (r: Vec<String>)
        requires
            self.wf(),
        ensures
            r@ == filter_known(*self, words@, keep_known),
    {
        let n = words.len();
        let mut out: Vec<String> = Vec::new();
        let mut i: usize = 0;
        while i < n
            invariant
                i <= n,
                self.wf(),
                n == words@.len(),
                out@ == filter_known(*self, words@.take(i as int), keep_known),
            decreases n - i,
        {
            proof {
                assert(words@.take(i + 1 as int).drop_last() =~= words@.take(i as int));
                assert(words@.take(i + 1 as int).last() == words@[i as int]);
            }
            let known = match self.lookup_key(&words[i]) {
                Some(_) => true,
                None => false,
            };
            if known == keep_known {
                out.push(words[i].clone());
            }
            i += 1;
        }
        proof {
            assert(words@.take(n as int) =~= words@);
        }
        out
    }

    /// Explains a query: its tokens, which were dropped as stop words,
    /// which were kept, which the index does not know, and, per token, the
    /// index keys extending it.
    pub fn diagnose_query(&self, query: &str) -> (r: QueryDiagnostics)
        requires
            self.wf(),
        ensures
            ({
                let toks = spec_tokens(query@, self.stop_words@, false);
                &&& r.words@.len() == toks.len()
                &&& forall|i: int| 0 <= i < toks.len() ==> (#[trigger] r.words@[i])@ == toks[i]
                &&& r.ignored_words@ == filter_stop(r.words@, self.stop_words@, true)
                &&& r.kept_words@ == filter_known(
                    *self,
                    filter_stop(r.words@, self.stop_words@, false),
                    true,
                )
                &&& r.unmatched_words@ == filter_known(
                    *self,
                    filter_stop(r.words@, self.stop_words@, false),
                    false,
                )
                &&& forall|e: int|
                    0 <= e < r.similar_words@.len() ==> spec_contains_word(
                        r.words@,
                        (#[trigger] r.similar_words@[e]).0@,
                    ) && r.similar_words@[e].1@ == prefix_matches(
                        self.all_words@,
                        r.similar_words@[e].0@,
                        self.all_words@.len() as int,
                    )
                &&& forall|e1: int, e2: int|
                    0 <= e1 < e2 < r.similar_words@.len() ==> ((#[trigger] r.similar_words@[e1]).0)@
                        != ((#[trigger] r.similar_words@[e2]).0)@
                &&& all_tokens_listed(r.words@, r.similar_words@)
            }),
    {
        let words = self.tokenize_query(query, false);
        let ignored_words = self.partition_stop(&words, true);
        let kept0 = self.partition_stop(&words, false);
        let kept_words = self.partition_known(&kept0, true);
        let unmatched_words = self.partition_known(&kept0, false);
        let mut similar_words: Vec<(String, Vec<String>)> = Vec::new();
        let n = words.len();
        let mut i: usize = 0;
        while i < n
            invariant
                i <= n,
                self.wf(),
                n == words@.len(),
                forall|e: int|
                    0 <= e < similar_words@.len() ==> spec_contains_word(
                        words@,
                        (#[trigger] similar_words@[e]).0@,
                    ) && similar_words@[e].1@ == prefix_matches(
                        self.all_words@,
                        similar_words@[e].0@,
                        self.all_words@.len() as int,
                    ),
                forall|e1: int, e2: int|
                    0 <= e1 < e2 < similar_words@.len() ==> ((#[trigger] similar_words@[e1]).0)@
                        != ((#[trigger] similar_words@[e2]).0)@,
                forall|x: int|
                    #![trigger words@[x]]
                    0 <= x < i ==> exists|e: int|
                        0 <= e < similar_words@.len() && (#[trigger] similar_words@[e]).0@ == (
                        words@[x])@,
            decreases n - i,
        {
            let mut seen = false;
            let mut e: usize = 0;
            while e < similar_words.len()
                invariant
                    e <= similar_words@.len(),
                    n == words@.len(),
                    i < n,
                    seen ==> exists|x: int|
                        0 <= x < similar_words@.len() && ((#[trigger] similar_words@[x]).0)@ == (
                        words@[i as int])@,
                    !seen ==> forall|x: int|
                        0 <= x < e ==> ((#[trigger] similar_words@[x]).0)@ != (words@[i as int])@,
                decreases similar_words@.len() - e,
            {
                if similar_words[e].0 == words[i] {
                    proof {
                        assert(((similar_words@[e as int]).0)@ == (words@[i as int])@);
                    }
                    seen = true;
                }
                e += 1;
            }
            let ghost pre_sw = similar_words@;
            if !seen {
                let matches = match find_all_extended_words(&self.all_words, words[i].as_str()) {
                    Some(v) => v,
                    None => Vec::new(),
                };
                proof {
                    assert(matches@ == prefix_matches(
                        self.all_words@,
                        words@[i as int]@,
                        self.all_words@.len() as int,
                    ) || (matches@.len() == 0 && prefix_matches(
                        self.all_words@,
                        words@[i as int]@,
                        self.all_words@.len() as int,
                    ).len() == 0));
                    if matches@.len() == 0 {
                        assert(matches@ =~= prefix_matches(
                            self.all_words@,
                            words@[i as int]@,
                            self.all_words@.len() as int,
                        ));
                    }
                }
                let key = words[i].clone();
                similar_words.push((key, matches));
                proof {
                    assert((similar_words@[similar_words@.len() - 1]).0@ == (words@[i as int])@);
                    assert(spec_contains_word(words@, (words@[i as int])@));
                }
            }
            proof {
                assert forall|x: int|
                    #![trigger words@[x]]
                    0 <= x < i + 1 implies exists|e: int|
                    0 <= e < similar_words@.len() && (#[trigger] similar_words@[e]).0@ == (
                    words@[x])@ by {
                    if x < i {
                        let e = choose|e: int|
                            0 <= e < pre_sw.len() && (#[trigger] pre_sw[e]).0@ == (words@[x])@;
                        assert(similar_words@[e] == pre_sw[e]);
                    } else if seen {
                        let e = choose|e: int|
                            0 <= e < pre_sw.len() && ((#[trigger] pre_sw[e]).0)@ == (
                            words@[i as int])@;
                        assert(similar_words@[e] == pre_sw[e]);
                    } else {
                        assert((similar_words@[similar_words@.len() - 1]).0@ == (words@[x])@);
                    }
                }
            }
            i += 1;
        }
        proof {
            assert(all_tokens_listed(words@, similar_words@)) by {
                reveal(all_tokens_listed);
            }
        }
        QueryDiagnostics { words, ignored_words, kept_words, unmatched_words, similar_words }
    }

    /// The stored word list of the transcript with the given path, if any.
    pub fn get_transcript_words(&self, transcript_path: String) -> (r: Option<Vec<Word>>)
        requires
            self.wf(),
        ensures
            match r {
                Some(v) => exists|i: int|
                    0 <= i < self.transcript_paths@.len() && (
                    #[trigger] self.transcript_paths@[i])@ == transcript_path@ && v@
                        == self.transcript_words@[i]@,
                None => forall|i: int|
                    0 <= i < self.transcript_paths@.len() ==> (
                    #[trigger] self.transcript_paths@[i])@ != transcript_path@,
            },
    {
        let n = self.transcript_paths.len();
        let mut i: usize = 0;
        while i < n
            invariant
                i <= n,
                self.wf(),
                n == self.transcript_paths@.len(),
                forall|x: int| 0 <= x < i ==> (#[trigger] self.transcript_paths@[x])@
                    != transcript_path@,
            decreases n - i,
        {
            if self.transcript_paths[i] == transcript_path {
                let v = clone_words(&self.transcript_words[i]);
                return Some(v);
            }
            i += 1;
        }
        None
    }
}

} // verus!
