//! The transcript data model and the word-index map. A transcript is an
//! ordered list of words with optional millisecond timing; its word-index map
//! records, per normalized word, the ascending positions where it occurs.

use vstd::prelude::*;

use crate::merge::strictly_increasing;
use crate::normalize::{normalize_seq, normalize_word};
use crate::text::{lemma_seq_lt_irrefl, lemma_seq_lt_trans, lemma_seq_lt_trichotomy};
use crate::text::{seq_lt, str_lt};

verus! {

/// One token occurrence in a transcript: the surface text with original
/// casing and punctuation, and optional start and end times in milliseconds.
#[derive(Debug)]
pub struct Word {
    pub word: String,
    pub start_ms: Option<u64>,
    pub end_ms: Option<u64>,
}

impl Word {
    /// Builds a word from its parts.
    pub fn new(word: String, start_ms: Option<u64>, end_ms: Option<u64>) -> (r: Word)
        ensures
            r.word == word,
            r.start_ms == start_ms,
            r.end_ms == end_ms,
    {
        Word { word, start_ms, end_ms }
    }

    /// An identical copy.
    pub fn duplicate(&self) -> (r: Word)
        ensures
            r == *self,
    {
        Word { word: self.word.clone(), start_ms: self.start_ms, end_ms: self.end_ms }
    }
}

/// An identical copy of a word list.
pub fn clone_words(v: &Vec<Word>) -> (r: Vec<Word>)
    ensures
        r@ == v@,
{
    let mut r: Vec<Word> = Vec::new();
    let mut i: usize = 0;
    while i < v.len()
        invariant
            i <= v@.len(),
            r@ == v@.take(i as int),
        decreases v@.len() - i,
    {
        r.push(v[i].duplicate());
        proof {
            assert(r@ =~= v@.take(i + 1 as int));
        }
        i += 1;
    }
    proof {
        assert(v@.take(v@.len() as int) =~= v@);
    }
    r
}

/// An identical copy of a position list.
pub fn copy_positions(v: &Vec<usize>) -> (r: Vec<usize>)
    ensures
        r@ == v@,
{
    let mut r: Vec<usize> = Vec::new();
    let mut i: usize = 0;
    while i < v.len()
        invariant
            i <= v@.len(),
            r@ == v@.take(i as int),
        decreases v@.len() - i,
    {
        r.push(v[i]);
        proof {
            assert(r@ =~= v@.take(i + 1 as int));
        }
        i += 1;
    }
    proof {
        assert(v@.take(v@.len() as int) =~= v@);
    }
    r
}

/// The ascending positions below n whose word normalizes to the key.
pub open spec fn occurrences(words: Seq<Word>, key: Seq<char>, n: int) -> Seq<usize>
    decreases n,
{
    if n <= 0 {
        Seq::empty()
    } else {
        let prev = occurrences(words, key, n - 1);
        if normalize_seq(words[n - 1].word@) == key {
            prev.push((n - 1) as usize)
        } else {
            prev
        }
    }
}

/// A word-index map: entries of normalized word and ascending positions,
/// with the keys strictly sorted and non-empty.
pub open spec fn index_entries_wf(entries: Seq<(String, Vec<usize>)>) -> bool {
    &&& forall|e1: int, e2: int|
        0 <= e1 < e2 < entries.len() ==> seq_lt(
            (#[trigger] entries[e1]).0@,
            (#[trigger] entries[e2]).0@,
        )
    &&& forall|e: int| 0 <= e < entries.len() ==> (#[trigger] entries[e]).0@.len() > 0
}

/// The entries record exactly the occurrences of their keys in the word
/// list, and no occurring key is missing.
pub open spec fn index_entries_complete(
    entries: Seq<(String, Vec<usize>)>,
    words: Seq<Word>,
) -> bool {
    &&& forall|e: int|
        0 <= e < entries.len() ==> (#[trigger] entries[e]).1@ == occurrences(
            words,
            entries[e].0@,
            words.len() as int,
        )
    &&& forall|i: int|
        0 <= i < words.len() && normalize_seq((#[trigger] words[i]).word@).len() > 0 ==> exists|
            e: int,
        | 0 <= e < entries.len() && (#[trigger] entries[e]).0@ == normalize_seq(words[i].word@)
}

proof fn lemma_sorted_keys_unique(entries: Seq<(String, Vec<usize>)>, e1: int, e2: int)
    requires
        index_entries_wf(entries),
        0 <= e1 < entries.len(),
        0 <= e2 < entries.len(),
        e1 != e2,
    ensures
        entries[e1].0@ != entries[e2].0@,
{
    if e1 < e2 {
        lemma_seq_lt_irrefl(entries[e1].0@);
    } else {
        lemma_seq_lt_irrefl(entries[e2].0@);
    }
}

/// Inserts a new key at position e, which must keep the keys sorted.
fn insert_entry(
    r: &mut Vec<(String, Vec<usize>)>,
    e: usize,
    key: String,
    positions: Vec<usize>,
)
    requires
        e <= old(r)@.len(),
        index_entries_wf(old(r)@),
        key@.len() > 0,
        forall|x: int| 0 <= x < e ==> seq_lt((#[trigger] old(r)@[x]).0@, key@),
        forall|x: int| e <= x < old(r)@.len() ==> seq_lt(key@, (#[trigger] old(r)@[x]).0@),
    ensures
        final(r)@.len() == old(r)@.len() + 1,
        forall|x: int| 0 <= x < e ==> #[trigger] final(r)@[x] == old(r)@[x],
        final(r)@[e as int].0 == key,
        final(r)@[e as int].1 == positions,
        forall|x: int| e < x < final(r)@.len() ==> #[trigger] final(r)@[x] == old(r)@[x - 1],
        index_entries_wf(final(r)@),
{
    let ghost old_r = r@;
    let ghost kseq = key@;
    r.insert(e, (key, positions));
    proof {
        assert forall|x: int| 0 <= x < e implies #[trigger] r@[x] == old_r[x] by {}
        assert forall|x: int| e < x < r@.len() implies #[trigger] r@[x] == old_r[x - 1] by {}
        assert(index_entries_wf(r@)) by {
            assert forall|e1: int, e2: int| 0 <= e1 < e2 < r@.len() implies seq_lt(
                (#[trigger] r@[e1]).0@,
                (#[trigger] r@[e2]).0@,
            ) by {
                let a = if e1 < e {
                    old_r[e1].0@
                } else if e1 == e {
                    kseq
                } else {
                    old_r[e1 - 1].0@
                };
                let b = if e2 < e {
                    old_r[e2].0@
                } else if e2 == e {
                    kseq
                } else {
                    old_r[e2 - 1].0@
                };
                assert(r@[e1].0@ == a && r@[e2].0@ == b);
                if e1 < e && e2 > e {
                    lemma_seq_lt_trans(old_r[e1].0@, kseq, old_r[e2 - 1].0@);
                }
            }
        }
    }
}

/// Appends a position to the entry at e, leaving the keys untouched.
fn append_position(r: &mut Vec<(String, Vec<usize>)>, e: usize, i: usize)
    requires
        e < old(r)@.len(),
        index_entries_wf(old(r)@),
    ensures
        final(r)@.len() == old(r)@.len(),
        forall|x: int| 0 <= x < final(r)@.len() && x != e ==> #[trigger] final(r)@[x] == old(
            r,
        )@[x],
        final(r)@[e as int].0 == old(r)@[e as int].0,
        final(r)@[e as int].1@ == old(r)@[e as int].1@.push(i),
        index_entries_wf(final(r)@),
{
    let ghost old_r = r@;
    let entry = &mut r[e];
    entry.1.push(i);
    proof {
        assert(r@ == old_r.update(e as int, r@[e as int]));
        assert(index_entries_wf(r@)) by {
            assert forall|e1: int, e2: int| 0 <= e1 < e2 < r@.len() implies seq_lt(
                (#[trigger] r@[e1]).0@,
                (#[trigger] r@[e2]).0@,
            ) by {
                assert(r@[e1].0@ == old_r[e1].0@ && r@[e2].0@ == old_r[e2].0@);
            }
            assert forall|x: int| 0 <= x < r@.len() implies (#[trigger] r@[x]).0@.len() > 0 by {
                assert(r@[x].0@ == old_r[x].0@);
            }
        }
    }
}

/// A key recorded by no entry has no occurrence among the scanned words.
proof fn lemma_occurrences_absent(
    words: Seq<Word>,
    key: Seq<char>,
    n: int,
    entries: Seq<(String, Vec<usize>)>,
)
    requires
        n <= words.len(),
        forall|x: int|
            0 <= x < n && normalize_seq((#[trigger] words[x]).word@).len() > 0 ==> exists|e: int|
                0 <= e < entries.len() && (#[trigger] entries[e]).0@ == normalize_seq(
                    words[x].word@,
                ),
        forall|e: int| 0 <= e < entries.len() ==> (#[trigger] entries[e]).0@ != key,
        key.len() > 0,
    ensures
        occurrences(words, key, n) == Seq::<usize>::empty(),
    decreases n,
{
    if n > 0 {
        lemma_occurrences_absent(words, key, n - 1, entries);
        if normalize_seq(words[n - 1].word@) == key {
            let e = choose|e: int|
                0 <= e < entries.len() && (#[trigger] entries[e]).0@ == normalize_seq(
                    words[n - 1].word@,
                );
            assert(false);
        }
    }
}

/// Builds the word-index map of a word list: for every normalized word that
/// occurs, the ascending positions of its occurrences. This is the index
/// round-trip law: looked up under any key, the map answers exactly the
/// positions whose word normalizes to that key, in ascending order.
#[verifier::rlimit(100)]
pub fn index_words(words: &Vec<Word>) -> (r: Vec<(String, Vec<usize>)>)
    ensures
        index_entries_wf(r@),
        index_entries_complete(r@, words@),
        forall|e: int| 0 <= e < r@.len() ==> (#[trigger] r@[e]).1@.len() > 0,
{
    let mut r: Vec<(String, Vec<usize>)> = Vec::new();
    let mut i: usize = 0;
    while i < words.len()
        invariant
            i <= words@.len(),
            index_entries_wf(r@),
            forall|e: int|
                0 <= e < r@.len() ==> (#[trigger] r@[e]).1@ == occurrences(
                    words@,
                    r@[e].0@,
                    i as int,
                ),
            forall|x: int|
                0 <= x < i && normalize_seq((#[trigger] words@[x]).word@).len() > 0 ==> exists|
                    e: int,
                | 0 <= e < r@.len() && (#[trigger] r@[e]).0@ == normalize_seq(words@[x].word@),
            forall|e: int| 0 <= e < r@.len() ==> (#[trigger] r@[e]).1@.len() > 0,
        decreases words@.len() - i,
    {
        let key = normalize_word(words[i].word.as_str());
        proof {
            assert(key@ == normalize_seq(words@[i as int].word@));
        }
        if key.as_str().unicode_len() > 0 {
            let ghost kseq = key@;
            let ghost old_r = r@;
            let mut e: usize = 0;
            loop
                invariant
                    e <= r@.len(),
                    r@ == old_r,
                    kseq == key@,
                    forall|x: int| 0 <= x < e ==> seq_lt((#[trigger] r@[x]).0@, kseq),
                ensures
                    e <= r@.len(),
                    forall|x: int| 0 <= x < e ==> seq_lt((#[trigger] r@[x]).0@, kseq),
                    e < r@.len() ==> !seq_lt(r@[e as int].0@, kseq),
                decreases r@.len() - e,
            {
                if e >= r.len() {
                    break ;
                }
                if !str_lt(r[e].0.as_str(), key.as_str()) {
                    break ;
                }
                e += 1;
            }
            let is_existing = e < r.len() && r[e].0 == key;
            if is_existing {
                append_position(&mut r, e, i);
                proof {
                    assert forall|x: int| 0 <= x < r@.len() implies (#[trigger] r@[x]).1@
                        == occurrences(words@, r@[x].0@, i + 1 as int) by {
                        if x == e {
                            assert(r@[x].0@ == kseq);
                        } else {
                            lemma_sorted_keys_unique(old_r, x, e as int);
                            assert(r@[x] == old_r[x]);
                            assert(r@[x].0@ != kseq);
                        }
                    }
                    assert forall|x: int|
                        0 <= x < i + 1 && normalize_seq((#[trigger] words@[x]).word@).len()
                            > 0 implies exists|ee: int|
                        0 <= ee < r@.len() && (#[trigger] r@[ee]).0@ == normalize_seq(
                            words@[x].word@,
                        ) by {
                        if x < i {
                            let ee = choose|ee: int|
                                0 <= ee < old_r.len() && (#[trigger] old_r[ee]).0@
                                    == normalize_seq(words@[x].word@);
                            assert(r@[ee].0@ == old_r[ee].0@);
                        } else {
                            assert(r@[e as int].0@ == normalize_seq(words@[x].word@));
                        }
                    }
                }
            } else {
                proof {
                    assert forall|x: int| e <= x < r@.len() implies seq_lt(
                        kseq,
                        (#[trigger] r@[x]).0@,
                    ) by {
                        lemma_seq_lt_trichotomy(r@[e as int].0@, kseq);
                        if x > e {
                            lemma_seq_lt_trans(kseq, r@[e as int].0@, r@[x].0@);
                        }
                    }
                    assert forall|x: int| 0 <= x < r@.len() implies (#[trigger] r@[x]).0@
                        != kseq by {
                        lemma_seq_lt_irrefl(kseq);
                    }
                    lemma_occurrences_absent(words@, kseq, i as int, r@);
                }
                let mut positions: Vec<usize> = Vec::new();
                positions.push(i);
                let ghost pos_view = positions@;
                proof {
                    assert(pos_view =~= occurrences(words@, kseq, i as int).push(i));
                    assert(pos_view == occurrences(words@, kseq, i + 1 as int));
                }
                insert_entry(&mut r, e, key, positions);
                proof {
                    assert forall|x: int| 0 <= x < r@.len() implies (#[trigger] r@[x]).1@
                        == occurrences(words@, r@[x].0@, i + 1 as int) by {
                        if x < e {
                            assert(r@[x] == old_r[x]);
                            assert(r@[x].0@ != kseq) by {
                                lemma_seq_lt_irrefl(kseq);
                            }
                        } else if x == e {
                            assert(r@[x].1@ == pos_view);
                            assert(r@[x].0@ == kseq);
                        } else {
                            assert(r@[x] == old_r[x - 1]);
                            assert(r@[x].0@ != kseq) by {
                                lemma_seq_lt_irrefl(kseq);
                            }
                        }
                    }
                    assert forall|x: int|
                        0 <= x < i + 1 && normalize_seq((#[trigger] words@[x]).word@).len()
                            > 0 implies exists|ee: int|
                        0 <= ee < r@.len() && (#[trigger] r@[ee]).0@ == normalize_seq(
                            words@[x].word@,
                        ) by {
                        if x < i {
                            let ee = choose|ee: int|
                                0 <= ee < old_r.len() && (#[trigger] old_r[ee]).0@
                                    == normalize_seq(words@[x].word@);
                            let ee2: int = if ee < e {
                                ee
                            } else {
                                ee + 1
                            };
                            assert(r@[ee2].0@ == normalize_seq(words@[x].word@));
                        } else {
                            assert(r@[e as int].0@ == normalize_seq(words@[x].word@));
                        }
                    }
                }
            }
        }
        i += 1;
    }
    r
}

/// Declares std::io::Error, the error type of the compression calls, so
/// that the trusted wrappers below can return it.
#[verifier::external_type_specification]
#[verifier::external_body]
pub struct ExIoError(std::io::Error);

/// The Zstandard frame the configured compression level produces for the
/// given bytes.
pub uninterp spec fn zstd_frame_of(data: Seq<u8>) -> Seq<u8>;

/// The bytes Zstandard decompression recovers from the given frame.
pub uninterp spec fn zstd_unframe_of(data: Seq<u8>) -> Seq<u8>;

/// Relies on zstd::stream::encode_all: the frame depends on the input bytes
/// and the level alone, decompressing it yields the input back, and
/// compressing into a memory buffer at a valid level succeeds (resource
/// exhaustion aside, which this contract leaves out of scope).
#[verifier::external_body]
fn zstd_compress(data: &Vec<u8>) -> (r: Result<Vec<u8>, std::io::Error>)
    ensures
        r is Ok,
        r matches Ok(v) ==> v@ == zstd_frame_of(data@) && zstd_unframe_of(v@) == data@,
{
    zstd::stream::encode_all(&data[..], 3)
}

/// Relies on zstd::stream::decode_all: the recovered bytes depend on the
/// frame bytes alone, and decompressing a frame the encoder produced
/// succeeds, by the format's lossless round-trip guarantee.
#[verifier::external_body]
fn zstd_decompress(data: &Vec<u8>) -> (r: Result<Vec<u8>, std::io::Error>)
    ensures
        r matches Ok(v) ==> v@ == zstd_unframe_of(data@),
        (exists|d: Seq<u8>| data@ == zstd_frame_of(d)) ==> r is Ok,
{
    zstd::stream::decode_all(&data[..])
}

/// What went wrong with a transcript envelope.
#[derive(Debug, PartialEq, Eq, Structural)]
pub enum HskError {
    Compression,
    Decompression,
}

impl HskError {
    /// A short description of the failure.
    pub fn message(&self) -> (r: &'static str) {
        match self {
            HskError::Compression => "could not compress the transcript envelope",
            HskError::Decompression => "could not decompress the transcript envelope",
        }
    }
}

/// Wraps a serialized transcript document in its compressed on-disk
/// envelope; encoding succeeds and decoding the result yields the document
/// back.
pub fn encode_envelope(data: &Vec<u8>) -> (r: Result<Vec<u8>, HskError>)
    ensures
        r is Ok,
        r matches Ok(v) ==> v@ == zstd_frame_of(data@) && zstd_unframe_of(v@) == data@,
{
    match zstd_compress(data) {
        Ok(v) => Ok(v),
        Err(_) => Err(HskError::Compression),
    }
}

/// Opens a compressed on-disk envelope, recovering the serialized
/// transcript document; a frame the encoder produced always opens.
pub fn decode_envelope(data: &Vec<u8>) -> (r: Result<Vec<u8>, HskError>)
    ensures
        r matches Ok(v) ==> v@ == zstd_unframe_of(data@),
        (exists|d: Seq<u8>| data@ == zstd_frame_of(d)) ==> r is Ok,
{
    match zstd_decompress(data) {
        Ok(v) => Ok(v),
        Err(_) => Err(HskError::Decompression),
    }
}

} // verus!
