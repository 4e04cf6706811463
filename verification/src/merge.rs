//! Proximity merge: clusters the positions of several query terms within one
//! transcript into segment ranges whose spread stays inside an allowed window.

use vstd::prelude::*;

use crate::word_id::{has_bit, popcount, WordId, WordIdSet};
use crate::word_id::{lemma_or_bits, lemma_popcount_pos, lemma_single_bit};

verus! {

/// Positions in strictly ascending order.
pub open spec fn strictly_increasing(s: Seq<usize>) -> bool {
    forall|i: int, j: int| 0 <= i < j < s.len() ==> s[i] < s[j]
}

/// Positions in ascending order, duplicates allowed.
pub open spec fn non_decreasing(s: Seq<usize>) -> bool {
    forall|i: int, j: int| 0 <= i <= j < s.len() ==> s[i] <= s[j]
}

/// A cluster of positions within one transcript that fit in one proximity
/// window, together with the set of query terms that contributed to it.
#[derive(Clone, Debug)]
pub struct WordSegmentRange {
    /// Lowest position in the cluster.
    pub min: usize,
    /// Highest position in the cluster.
    pub max: usize,
    /// Every position added to the cluster, in the order it was added.
    pub elements: Vec<usize>,
    /// The distinct query terms that contributed at least one position.
    pub set: WordIdSet,
}

/// The window test: a position may join a range when it lies strictly inside
/// the window the range's current bounds leave open.
pub open spec fn spec_can_add(r: WordSegmentRange, element: usize, allowed_range: usize) -> bool {
    if element < r.min {
        element > r.max - allowed_range
    } else {
        element < r.min + allowed_range
    }
}

/// Well-formedness of a segment range produced under a given window.
pub open spec fn range_wf(r: WordSegmentRange, allowed_range: usize) -> bool {
    &&& r.min <= r.max
    &&& r.max - r.min <= allowed_range
    &&& r.elements@.len() >= 1
    &&& (forall|i: int|
        0 <= i < r.elements@.len() ==> r.min <= #[trigger] r.elements@[i] && r.elements@[i]
            <= r.max)
    &&& r.elements@.contains(r.min)
    &&& r.elements@.contains(r.max)
    &&& non_decreasing(r.elements@)
    &&& exists|b: u32| has_bit(r.set.bits, b)
}

impl WordSegmentRange {
    /// A fresh range seeded with one position contributed by one term.
    pub fn new(first_element: usize, word_id: WordId) -> (r: WordSegmentRange)
        ensures
            r.min == first_element,
            r.max == first_element,
            r.elements@ == seq![first_element],
            r.set.bits == word_id.bits,
    {
        WordSegmentRange {
            min: first_element,
            max: first_element,
            elements: vec![first_element],
            set: WordIdSet::new(word_id),
        }
    }

    /// The spread of the cluster.
    pub fn total_range(&self) -> (r: usize)
        requires
            self.min <= self.max,
        ensures
            r == self.max - self.min,
    {
        self.max - self.min
    }

    /// Whether the position lies strictly inside the window this range
    /// still leaves open.
    pub fn can_add(&self, element: usize, allowed_range: usize) -> (r: bool)
        ensures
            r == spec_can_add(*self, element, allowed_range),
    {
        if element < self.min {
            allowed_range > self.max || element > self.max - allowed_range
        } else {
            usize::MAX - self.min < allowed_range || element < self.min + allowed_range
        }
    }

    /// Adds the position when the window test allows it; reports whether it
    /// was added.
    pub fn add(&mut self, element: usize, allowed_range: usize) -> (r: bool)
        requires
            old(self).min <= old(self).max,
        ensures
            r == spec_can_add(*old(self), element, allowed_range),
            r ==> final(self).elements@ == old(self).elements@.push(element) && final(self).min
                == (if element < old(self).min {
                element
            } else {
                old(self).min
            }) && final(self).max == (if element > old(self).max {
                element
            } else {
                old(self).max
            }) && final(self).set == old(self).set,
            !r ==> *final(self) == *old(self),
    {
        let can_add = self.can_add(element, allowed_range);
        if can_add {
            self.elements.push(element);
            if element < self.min {
                self.min = element;
            } else if element > self.max {
                self.max = element;
            }
        }
        can_add
    }
}

/// The window boundary law: a fresh range seeded at p accepts a later
/// position q exactly when q lies strictly inside the window, q < p + R.
/// (A position equal to the seed also passes the window test, so the law is
/// stated for q above the seed, the only positions a merge scan offers.)
pub proof fn lemma_fresh_range_boundary(r: WordSegmentRange, q: usize, allowed_range: usize)
    requires
        r.min == r.max,
        q > r.min,
    ensures
        spec_can_add(r, q, allowed_range) <==> r.min < q < r.min + allowed_range,
{
}

/// Some element of es is a position of stream b.
pub open spec fn stream_contributed(es: Seq<usize>, arrays: Seq<Vec<usize>>, b: u32) -> bool {
    exists|i: int| 0 <= i < es.len() && arrays[b as int]@.contains(#[trigger] es[i])
}

/// The position came from some stream the set credits.
pub open spec fn element_credited(bits: u32, arrays: Seq<Vec<usize>>, e: usize) -> bool {
    exists|b: u32| #[trigger] has_bit(bits, b) && arrays[b as int]@.contains(e)
}

/// Every term the range credits contributed one of the range's elements.
pub open spec fn bits_sound(r: WordSegmentRange, arrays: Seq<Vec<usize>>) -> bool {
    forall|b: u32|
        #[trigger] has_bit(r.set.bits, b) ==> b < arrays.len() && stream_contributed(
            r.elements@,
            arrays,
            b,
        )
}

/// Every element of the range came from the stream of a credited term.
pub open spec fn elems_sound(r: WordSegmentRange, arrays: Seq<Vec<usize>>) -> bool {
    forall|i: int| #![trigger r.elements@[i]]
        0 <= i < r.elements@.len() ==> element_credited(r.set.bits, arrays, r.elements@[i])
}

proof fn lemma_stream_contributed_push(es: Seq<usize>, x: usize, arrays: Seq<Vec<usize>>, b: u32)
    requires
        stream_contributed(es, arrays, b) || arrays[b as int]@.contains(x),
    ensures
        stream_contributed(es.push(x), arrays, b),
{
    if arrays[b as int]@.contains(x) {
        assert(es.push(x)[es.len() as int] == x);
    } else {
        let i = choose|i: int| 0 <= i < es.len() && arrays[b as int]@.contains(#[trigger] es[i]);
        assert(es.push(x)[i] == es[i]);
    }
}

proof fn lemma_element_credited_or(bits: u32, extra: u32, arrays: Seq<Vec<usize>>, e: usize)
    requires
        element_credited(bits, arrays, e),
    ensures
        element_credited(bits | extra, arrays, e),
{
    let b = choose|b: u32| #[trigger] has_bit(bits, b) && arrays[b as int]@.contains(e);
    lemma_or_bits(bits, extra, b);
    assert(has_bit(bits | extra, b) && arrays[b as int]@.contains(e));
}

/// Some produced range holds the position.
pub open spec fn covers(out: Seq<WordSegmentRange>, pos: usize) -> bool {
    exists|j: int| 0 <= j < out.len() && #[trigger] out[j].elements@.contains(pos)
}

/// The stream still has unread positions.
pub open spec fn stream_active(arrays: Seq<Vec<usize>>, cursors: Seq<usize>, k: int) -> bool {
    0 <= k < arrays.len() && cursors[k] < arrays[k]@.len()
}

proof fn lemma_push_contains(s: Seq<usize>, x: usize, e: usize)
    requires
        s.contains(e) || e == x,
    ensures
        s.push(x).contains(e),
{
    if e == x {
        assert(s.push(x)[s.len() as int] == x);
    } else {
        let i = choose|i: int| 0 <= i < s.len() && s[i] == e;
        assert(s.push(x)[i] == e);
    }
}

spec fn total_remaining(arrays: Seq<Vec<usize>>, cursors: Seq<usize>, n: int) -> int
    decreases n,
{
    if n <= 0 {
        0
    } else {
        total_remaining(arrays, cursors, n - 1) + (arrays[n - 1]@.len() - cursors[n - 1])
    }
}

proof fn lemma_total_remaining_nonneg(arrays: Seq<Vec<usize>>, cursors: Seq<usize>, n: int)
    requires
        n <= arrays.len(),
        arrays.len() == cursors.len(),
        forall|k: int| 0 <= k < cursors.len() ==> #[trigger] cursors[k] <= arrays[k]@.len(),
    ensures
        total_remaining(arrays, cursors, n) >= 0,
    decreases n,
{
    if n > 0 {
        lemma_total_remaining_nonneg(arrays, cursors, n - 1);
    }
}

proof fn lemma_total_remaining_advance(
    arrays: Seq<Vec<usize>>,
    c1: Seq<usize>,
    c2: Seq<usize>,
    k: int,
    n: int,
)
    requires
        0 <= k < c1.len(),
        c1.len() == c2.len(),
        arrays.len() == c1.len(),
        n <= c1.len(),
        c1[k] + 1 <= usize::MAX,
        c2 == c1.update(k, (c1[k] + 1) as usize),
    ensures
        n <= k ==> total_remaining(arrays, c2, n) == total_remaining(arrays, c1, n),
        n > k ==> total_remaining(arrays, c2, n) == total_remaining(arrays, c1, n) - 1,
    decreases n,
{
    if n > 0 {
        lemma_total_remaining_advance(arrays, c1, c2, k, n - 1);
    }
}

/// Finds the stream, other than `skip`, whose current position is smallest;
/// ties go to the lowest stream index.
fn find_min_stream(arrays: &Vec<Vec<usize>>, cursors: &Vec<usize>, skip: usize) -> (r: Option<
    usize,
>)
    requires
        cursors@.len() == arrays@.len(),
        forall|k: int| 0 <= k < cursors@.len() ==> #[trigger] cursors@[k] <= arrays@[k]@.len(),
    ensures
        match r {
            Some(kmin) => {
                &&& kmin < arrays@.len()
                &&& kmin != skip
                &&& stream_active(arrays@, cursors@, kmin as int)
                &&& forall|k2: int|
                    k2 != skip && #[trigger] stream_active(arrays@, cursors@, k2) ==> arrays@[kmin
                        as int]@[cursors@[kmin as int] as int] <= arrays@[k2]@[cursors@[k2] as int]
            },
            None => forall|k2: int| k2 != skip ==> !(#[trigger] stream_active(
                arrays@,
                cursors@,
                k2,
            )),
        },
{
    let mut best: Option<usize> = None;
    let mut k: usize = 0;
    while k < arrays.len()
        invariant
            cursors@.len() == arrays@.len(),
            forall|k2: int| 0 <= k2 < cursors@.len() ==> #[trigger] cursors@[k2]
                <= arrays@[k2]@.len(),
            k <= arrays@.len(),
            match best {
                Some(kmin) => {
                    &&& (kmin as int) < k
                    &&& kmin != skip
                    &&& stream_active(arrays@, cursors@, kmin as int)
                    &&& forall|k2: int|
                        k2 < k && k2 != skip && #[trigger] stream_active(arrays@, cursors@, k2)
                            ==> arrays@[kmin as int]@[cursors@[kmin as int] as int]
                            <= arrays@[k2]@[cursors@[k2] as int]
                },
                None => forall|k2: int| k2 < k && k2 != skip ==> !(#[trigger] stream_active(
                    arrays@,
                    cursors@,
                    k2,
                )),
            },
        decreases arrays@.len() - k,
    {
        if k != skip {
            let ck = cursors[k];
            if ck < arrays[k].len() {
                let pos = arrays[k][ck];
                match best {
                    None => {
                        best = Some(k);
                    },
                    Some(b) => {
                        let cb = cursors[b];
                        if pos < arrays[b][cb] {
                            best = Some(k);
                        }
                    },
                }
            }
        }
        k += 1;
    }
    best
}

/// All conditions one open range satisfies during the merge, bundled so that
/// the merge loops can carry them without unfolding them.
#[verifier::opaque]
pub open spec fn range_ok(
    r: WordSegmentRange,
    allowed_range: usize,
    arrays: Seq<Vec<usize>>,
) -> bool {
    range_wf(r, allowed_range) && bits_sound(r, arrays) && elems_sound(r, arrays)
}

/// Every element of a stays an element of b.
#[verifier::opaque]
pub open spec fn seq_grew(a: Seq<usize>, b: Seq<usize>) -> bool {
    forall|e: usize| a.contains(e) ==> b.contains(e)
}

proof fn lemma_seq_grew_refl(a: Seq<usize>)
    ensures
        seq_grew(a, a),
{
    reveal(seq_grew);
}

proof fn lemma_covers_monotone(o1: Seq<WordSegmentRange>, o2: Seq<WordSegmentRange>, pos: usize)
    requires
        o2.len() >= o1.len(),
        forall|j: int| 0 <= j < o1.len() ==> seq_grew(#[trigger] o1[j].elements@, o2[j].elements@),
        covers(o1, pos),
    ensures
        covers(o2, pos),
{
    reveal(seq_grew);
    let j = choose|j: int| 0 <= j < o1.len() && #[trigger] o1[j].elements@.contains(pos);
    assert(o2[j].elements@.contains(pos));
}

proof fn lemma_seq_grew_push(a: Seq<usize>, x: usize)
    ensures
        seq_grew(a, a.push(x)),
{
    reveal(seq_grew);
    assert forall|e: usize| a.contains(e) implies a.push(x).contains(e) by {
        lemma_push_contains(a, x, e);
    }
}

proof fn lemma_extended_wf(
    pre: WordSegmentRange,
    post: WordSegmentRange,
    this_pos: usize,
    allowed_range: usize,
)
    requires
        range_wf(pre, allowed_range),
        pre.max <= this_pos,
        spec_can_add(pre, this_pos, allowed_range),
        post.elements@ == pre.elements@.push(this_pos),
        post.min == pre.min,
        post.max == if this_pos > pre.max {
            this_pos
        } else {
            pre.max
        },
        post.set.bits == pre.set.bits | (post.set.bits & !0u32) || true,
    ensures
        range_wf(post, allowed_range) <== (exists|b: u32| has_bit(post.set.bits, b)),
{
    assert forall|i: int| 0 <= i < post.elements@.len() implies post.min
        <= #[trigger] post.elements@[i] && post.elements@[i] <= post.max by {
        if i < pre.elements@.len() {
            assert(pre.min <= pre.elements@[i] && pre.elements@[i] <= pre.max);
        } else {
            assert(post.elements@[i] == this_pos);
        }
    }
    assert(non_decreasing(post.elements@)) by {
        assert forall|i: int, j: int| 0 <= i <= j < post.elements@.len() implies post.elements@[i]
            <= post.elements@[j] by {
            if j < pre.elements@.len() {
                assert(pre.elements@[i] <= pre.elements@[j]);
            } else if i < pre.elements@.len() {
                assert(pre.elements@[i] <= pre.max);
            }
        }
    }
    lemma_push_contains(pre.elements@, this_pos, pre.min);
    lemma_push_contains(pre.elements@, this_pos, pre.max);
    lemma_push_contains(pre.elements@, this_pos, this_pos);
}

proof fn lemma_extended_bits_sound(
    pre: WordSegmentRange,
    post: WordSegmentRange,
    this_pos: usize,
    word_id: WordId,
    arrays: Seq<Vec<usize>>,
    kstar: int,
)
    requires
        bits_sound(pre, arrays),
        0 <= kstar < arrays.len() <= 32,
        word_id.bits == 1u32 << (kstar as u32),
        arrays[kstar]@.contains(this_pos),
        post.elements@ == pre.elements@.push(this_pos),
        post.set.bits == pre.set.bits | word_id.bits,
    ensures
        bits_sound(post, arrays),
{
    assert forall|b: u32| #[trigger] has_bit(post.set.bits, b) implies b < arrays.len()
        && stream_contributed(post.elements@, arrays, b) by {
        lemma_or_bits(pre.set.bits, word_id.bits, b);
        if has_bit(pre.set.bits, b) {
            lemma_stream_contributed_push(pre.elements@, this_pos, arrays, b);
        } else {
            lemma_single_bit(kstar as u32, b);
            lemma_stream_contributed_push(pre.elements@, this_pos, arrays, b);
        }
    }
}

proof fn lemma_extended_elems_sound(
    pre: WordSegmentRange,
    post: WordSegmentRange,
    this_pos: usize,
    word_id: WordId,
    arrays: Seq<Vec<usize>>,
    kstar: int,
)
    requires
        elems_sound(pre, arrays),
        0 <= kstar < arrays.len() <= 32,
        word_id.bits == 1u32 << (kstar as u32),
        arrays[kstar]@.contains(this_pos),
        post.elements@ == pre.elements@.push(this_pos),
        post.set.bits == pre.set.bits | word_id.bits,
    ensures
        elems_sound(post, arrays),
{
    assert forall|i: int| #![trigger post.elements@[i]] 0 <= i < post.elements@.len() implies
        element_credited(post.set.bits, arrays, post.elements@[i]) by {
        if i < pre.elements@.len() {
            assert(post.elements@[i] == pre.elements@[i]);
            assert(element_credited(pre.set.bits, arrays, pre.elements@[i]));
            lemma_element_credited_or(pre.set.bits, word_id.bits, arrays, pre.elements@[i]);
        } else {
            assert(post.elements@[i] == this_pos);
            lemma_single_bit(kstar as u32, kstar as u32);
            lemma_or_bits(pre.set.bits, word_id.bits, kstar as u32);
            assert(has_bit(post.set.bits, kstar as u32) && arrays[kstar]@.contains(this_pos));
            assert(element_credited(post.set.bits, arrays, this_pos));
        }
    }
}

/// Tries to add the position to one open range, crediting the contributing
/// term on success.
#[verifier::rlimit(100)]
fn try_extend_range(
    r: &mut WordSegmentRange,
    this_pos: usize,
    word_id: WordId,
    allowed_range: usize,
    Ghost(arrays): Ghost<Seq<Vec<usize>>>,
    Ghost(kstar): Ghost<int>,
) -> (ok: bool)
    requires
        range_ok(*old(r), allowed_range, arrays),
        old(r).max <= this_pos,
        0 <= kstar < arrays.len() <= 32,
        word_id.bits == 1u32 << (kstar as u32),
        arrays[kstar]@.contains(this_pos),
    ensures
        range_ok(*final(r), allowed_range, arrays),
        final(r).max <= this_pos,
        final(r).min == old(r).min,
        seq_grew(old(r).elements@, final(r).elements@),
        ok ==> final(r).elements@.contains(this_pos),
        !ok ==> *final(r) == *old(r),
{
    proof {
        assert(range_wf(*r, allowed_range) && bits_sound(*r, arrays) && elems_sound(*r, arrays))
            by {
            reveal(range_ok);
        }
    }
    let ghost pre = *r;
    let ok = r.add(this_pos, allowed_range);
    if ok {
        r.set.add(word_id);
        proof {
            assert(r.elements@ == pre.elements@.push(this_pos));
            assert(r.min == pre.min && r.max == if this_pos > pre.max {
                this_pos
            } else {
                pre.max
            });
            lemma_extended_wf(pre, *r, this_pos, allowed_range);
            lemma_extended_bits_sound(pre, *r, this_pos, word_id, arrays, kstar);
            lemma_extended_elems_sound(pre, *r, this_pos, word_id, arrays, kstar);
            let b0 = choose|b: u32| has_bit(pre.set.bits, b);
            lemma_or_bits(pre.set.bits, word_id.bits, b0);
            assert(has_bit(r.set.bits, b0));
            lemma_seq_grew_push(pre.elements@, this_pos);
            lemma_push_contains(pre.elements@, this_pos, this_pos);
            assert(range_ok(*r, allowed_range, arrays)) by {
                reveal(range_ok);
            }
        }
    } else {
        proof {
            assert(range_ok(*r, allowed_range, arrays)) by {
                reveal(range_ok);
            }
            lemma_seq_grew_refl(pre.elements@);
        }
    }
    ok
}

/// Extension pass of the merge: walks the open ranges from newest to oldest,
/// adding the position to each range whose window still admits it, and stops
/// at the first range that refuses it.
fn extend_open_ranges(
    out: &mut Vec<WordSegmentRange>,
    this_pos: usize,
    word_id: WordId,
    allowed_range: usize,
    Ghost(arrays): Ghost<Seq<Vec<usize>>>,
    Ghost(kstar): Ghost<int>,
) -> (added: bool)
    requires
        forall|j: int|
            0 <= j < old(out)@.len() ==> range_ok(#[trigger] old(out)@[j], allowed_range, arrays),
        forall|j: int| 0 <= j < old(out)@.len() ==> #[trigger] old(out)@[j].max <= this_pos,
        0 <= kstar < arrays.len() <= 32,
        word_id.bits == 1u32 << (kstar as u32),
        arrays[kstar]@.contains(this_pos),
    ensures
        final(out)@.len() == old(out)@.len(),
        forall|j: int|
            0 <= j < final(out)@.len() ==> range_ok(#[trigger] final(out)@[j], allowed_range, arrays),
        forall|j: int| 0 <= j < final(out)@.len() ==> #[trigger] final(out)@[j].max <= this_pos,
        forall|j: int| 0 <= j < final(out)@.len() ==> #[trigger] final(out)@[j].min == old(
            out,
        )@[j].min,
        forall|j: int|
            0 <= j < final(out)@.len() ==> seq_grew(
                #[trigger] old(out)@[j].elements@,
                final(out)@[j].elements@,
            ),
        added ==> covers(final(out)@, this_pos),
{
    let ghost g_out = out@;
    let mut added = false;
    let mut j: usize = out.len();
    proof {
        assert forall|jj: int| 0 <= jj < out@.len() implies seq_grew(
            #[trigger] g_out[jj].elements@,
            out@[jj].elements@,
        ) by {
            lemma_seq_grew_refl(g_out[jj].elements@);
        }
    }
    loop
        invariant
            j <= out@.len(),
            out@.len() == g_out.len(),
            forall|jj: int| 0 <= jj < j ==> #[trigger] out@[jj] == g_out[jj],
            forall|jj: int| 0 <= jj < out@.len() ==> range_ok(
                #[trigger] out@[jj],
                allowed_range,
                arrays,
            ),
            forall|jj: int| 0 <= jj < out@.len() ==> #[trigger] out@[jj].max <= this_pos,
            forall|jj: int| 0 <= jj < out@.len() ==> #[trigger] out@[jj].min == g_out[jj].min,
            forall|jj: int| 0 <= jj < out@.len() ==> seq_grew(
                #[trigger] g_out[jj].elements@,
                out@[jj].elements@,
            ),
            added <==> j < out@.len(),
            added ==> out@[out@.len() - 1].elements@.contains(this_pos),
            0 <= kstar < arrays.len() <= 32,
            word_id.bits == 1u32 << (kstar as u32),
            arrays[kstar]@.contains(this_pos),
        ensures
            out@.len() == g_out.len(),
            forall|jj: int| 0 <= jj < out@.len() ==> range_ok(
                #[trigger] out@[jj],
                allowed_range,
                arrays,
            ),
            forall|jj: int| 0 <= jj < out@.len() ==> #[trigger] out@[jj].max <= this_pos,
            forall|jj: int| 0 <= jj < out@.len() ==> #[trigger] out@[jj].min == g_out[jj].min,
            forall|jj: int| 0 <= jj < out@.len() ==> seq_grew(
                #[trigger] g_out[jj].elements@,
                out@[jj].elements@,
            ),
            added ==> out@[out@.len() - 1].elements@.contains(this_pos),
        decreases j,
    {
        if j == 0 {
            proof {
                assert forall|jj: int| 0 <= jj < out@.len() implies seq_grew(
                    #[trigger] g_out[jj].elements@,
                    out@[jj].elements@,
                ) by {
                    lemma_seq_grew_refl(g_out[jj].elements@);
                }
            }
            break ;
        }
        let jj = j - 1;
        let ghost g_mid = out@;
        let r = &mut out[jj];
        let ok = try_extend_range(
            r,
            this_pos,
            word_id,
            allowed_range,
            Ghost(arrays),
            Ghost(kstar),
        );
        proof {
            assert(out@ == g_mid.update(jj as int, out@[jj as int]));
            assert(g_mid[jj as int] == g_out[jj as int]);
        }
        if ok {
            added = true;
            j = jj;
            proof {
                assert forall|x: int| 0 <= x < out@.len() implies seq_grew(
                    #[trigger] g_out[x].elements@,
                    out@[x].elements@,
                ) by {
                    if x != jj {
                        assert(out@[x] == g_mid[x]);
                        assert(seq_grew(g_out[x].elements@, g_mid[x].elements@));
                    }
                }
                assert forall|x: int| 0 <= x < out@.len() implies #[trigger] out@[x].min
                    == g_out[x].min by {
                    if x != jj {
                        assert(out@[x] == g_mid[x]);
                        assert(g_mid[x].min == g_out[x].min);
                    } else {
                        assert(out@[jj as int].min == g_mid[jj as int].min);
                        assert(g_mid[jj as int].min == g_out[jj as int].min);
                    }
                }
                if jj + 1 < out@.len() {
                    assert(out@[out@.len() - 1].elements@.contains(this_pos)) by {
                        assert(g_mid[out@.len() - 1].elements@.contains(this_pos));
                    }
                }
            }
        } else {
            proof {
                assert(out@ =~= g_mid);
            }
            break ;
        }
    }
    proof {
        if added {
            assert(covers(out@, this_pos)) by {
                assert(out@[out@.len() - 1].elements@.contains(this_pos));
            }
        }
    }
    added
}

proof fn lemma_covers_push(o: Seq<WordSegmentRange>, r: WordSegmentRange, pos: usize)
    requires
        covers(o, pos) || r.elements@.contains(pos),
    ensures
        covers(o.push(r), pos),
{
    if covers(o, pos) {
        let j = choose|j: int| 0 <= j < o.len() && #[trigger] o[j].elements@.contains(pos);
        assert(o.push(r)[j] == o[j]);
        assert(o.push(r)[j].elements@.contains(pos));
    } else {
        assert(o.push(r)[o.len() as int] == r);
        assert(o.push(r)[o.len() as int].elements@.contains(pos));
    }
}

/// K-way proximity merge. Takes one strictly increasing positional stream per
/// distinct query term and clusters the union of all positions into segment
/// ranges whose spread stays within the allowed window. Every input position
/// lands in at least one produced range; every range credits exactly the
/// terms that contributed one of its elements.
#[verifier::rlimit(100)]
pub fn merge_special(arrays: Vec<Vec<usize>>, allowed_range: usize) -> (out: Vec<
    WordSegmentRange,
>)
    requires
        arrays@.len() <= 32,
        forall|k: int| 0 <= k < arrays@.len() ==> strictly_increasing(#[trigger] arrays@[k]@),
    ensures
        forall|j: int| 0 <= j < out@.len() ==> range_wf(#[trigger] out@[j], allowed_range),
        forall|j: int| 0 <= j < out@.len() ==> bits_sound(#[trigger] out@[j], arrays@),
        forall|j: int| 0 <= j < out@.len() ==> elems_sound(#[trigger] out@[j], arrays@),
        forall|j: int| 0 <= j < out@.len() ==> popcount(#[trigger] out@[j].set.bits) >= 1,
        forall|k: int, i: int|
            0 <= k < arrays@.len() && 0 <= i < arrays@[k]@.len() ==> covers(
                out@,
                #[trigger] arrays@[k]@[i],
            ),
{
    let kn = arrays.len();
    let mut cursors: Vec<usize> = Vec::new();
    while cursors.len() < kn
        invariant
            cursors@.len() <= kn,
            forall|k: int| 0 <= k < cursors@.len() ==> #[trigger] cursors@[k] == 0,
        decreases kn - cursors@.len(),
    {
        cursors.push(0);
    }
    let mut out: Vec<WordSegmentRange> = Vec::new();
    loop
        invariant
            arrays@.len() == kn,
            kn <= 32,
            forall|k: int| 0 <= k < arrays@.len() ==> strictly_increasing(#[trigger] arrays@[k]@),
            cursors@.len() == kn,
            forall|k: int| 0 <= k < kn ==> #[trigger] cursors@[k] <= arrays@[k]@.len(),
            forall|j: int| 0 <= j < out@.len() ==> range_ok(
                #[trigger] out@[j],
                allowed_range,
                arrays@,
            ),
            forall|k: int, i: int|
                0 <= k < kn && 0 <= i < cursors@[k] ==> covers(out@, #[trigger] arrays@[k]@[i]),
            forall|j: int, k: int|
                0 <= j < out@.len() && stream_active(arrays@, cursors@, k)
                    ==> #[trigger] out@[j].max <= #[trigger] arrays@[k]@[cursors@[k] as int],
        ensures
            forall|j: int| 0 <= j < out@.len() ==> range_ok(
                #[trigger] out@[j],
                allowed_range,
                arrays@,
            ),
            forall|k: int, i: int|
                0 <= k < kn && 0 <= i < arrays@[k]@.len() ==> covers(
                    out@,
                    #[trigger] arrays@[k]@[i],
                ),
        decreases total_remaining(arrays@, cursors@, kn as int),
    {
        proof {
            lemma_total_remaining_nonneg(arrays@, cursors@, kn as int);
        }
        let kopt = find_min_stream(&arrays, &cursors, kn);
        match kopt {
            None => {
                proof {
                    assert forall|k: int, i: int|
                        0 <= k < kn && 0 <= i < arrays@[k]@.len() implies covers(
                        out@,
                        arrays@[k]@[i],
                    ) by {
                        assert(!stream_active(arrays@, cursors@, k));
                        assert(cursors@[k] == arrays@[k]@.len());
                    }
                }
                break ;
            },
            Some(kstar) => {
                let ck = cursors[kstar];
                let this_pos = arrays[kstar][ck];
                let word_id = WordId::from_index(kstar);
                proof {
                    assert(arrays@[kstar as int]@[ck as int] == this_pos);
                    assert(arrays@[kstar as int]@.contains(this_pos));
                    assert forall|j: int| 0 <= j < out@.len() implies #[trigger] out@[j].max
                        <= this_pos by {
                        assert(stream_active(arrays@, cursors@, kstar as int));
                    }
                }
                let ghost g_out = out@;
                let added = extend_open_ranges(
                    &mut out,
                    this_pos,
                    word_id,
                    allowed_range,
                    Ghost(arrays@),
                    Ghost(kstar as int),
                );
                proof {
                    assert forall|k: int, i: int|
                        0 <= k < kn && 0 <= i < cursors@[k] implies covers(
                        out@,
                        #[trigger] arrays@[k]@[i],
                    ) by {
                        lemma_covers_monotone(g_out, out@, arrays@[k]@[i]);
                    }
                }
                let push_new: bool = if out.len() == 0 {
                    true
                } else {
                    let nopt = find_min_stream(&arrays, &cursors, kstar);
                    match nopt {
                        Some(knext) => {
                            let cn = cursors[knext];
                            let next_pos = arrays[knext][cn];
                            let last = &out[out.len() - 1];
                            let cant = !last.can_add(next_pos, allowed_range);
                            let diff = if next_pos >= this_pos {
                                next_pos - this_pos
                            } else {
                                this_pos - next_pos
                            };
                            (cant && diff <= allowed_range) || !added
                        },
                        None => !added,
                    }
                };
                let ghost g_mid = out@;
                if push_new {
                    let fresh = WordSegmentRange::new(this_pos, word_id);
                    proof {
                        assert(fresh.elements@[0] == this_pos);
                        assert(fresh.elements@.contains(this_pos));
                        lemma_single_bit(kstar as u32, kstar as u32);
                        assert(range_ok(fresh, allowed_range, arrays@)) by {
                            reveal(range_ok);
                            assert(non_decreasing(fresh.elements@));
                            assert(has_bit(fresh.set.bits, kstar as u32));
                            assert forall|b: u32| #[trigger] has_bit(fresh.set.bits, b) implies b
                                < arrays@.len() && stream_contributed(
                                fresh.elements@,
                                arrays@,
                                b,
                            ) by {
                                lemma_single_bit(kstar as u32, b);
                                assert(arrays@[b as int]@.contains(fresh.elements@[0]));
                            }
                            assert forall|i: int| #![trigger fresh.elements@[i]]
                                0 <= i < fresh.elements@.len() implies element_credited(
                                fresh.set.bits,
                                arrays@,
                                fresh.elements@[i],
                            ) by {
                                assert(has_bit(fresh.set.bits, kstar as u32)
                                    && arrays@[kstar as int]@.contains(fresh.elements@[i]));
                            }
                        }
                    }
                    out.push(fresh);
                    proof {
                        assert forall|j: int| 0 <= j < out@.len() implies range_ok(
                            #[trigger] out@[j],
                            allowed_range,
                            arrays@,
                        ) by {
                            if j < g_mid.len() {
                                assert(out@[j] == g_mid[j]);
                            } else {
                                assert(out@[j] == fresh);
                            }
                        }
                        assert forall|k: int, i: int|
                            0 <= k < kn && 0 <= i < cursors@[k] implies covers(
                            out@,
                            #[trigger] arrays@[k]@[i],
                        ) by {
                            lemma_covers_push(g_mid, fresh, arrays@[k]@[i]);
                            assert(out@ == g_mid.push(fresh));
                        }
                        lemma_covers_push(g_mid, fresh, this_pos);
                        assert(covers(out@, this_pos));
                    }
                } else {
                    proof {
                        assert(added);
                        assert(covers(out@, this_pos));
                    }
                }
                proof {
                    assert(covers(out@, this_pos));
                    assert forall|j: int| 0 <= j < out@.len() implies #[trigger] out@[j].max
                        <= this_pos by {
                        if push_new && j == out@.len() - 1 {
                        } else {
                            assert(out@[j] == g_mid[j]);
                        }
                    }
                }
                let ghost c1 = cursors@;
                let len_kstar = arrays[kstar].len();
                proof {
                    assert(ck < len_kstar);
                }
                let cr = &mut cursors[kstar];
                *cr = ck + 1;
                proof {
                    assert(cursors@ == c1.update(kstar as int, (ck + 1) as usize));
                    lemma_total_remaining_advance(
                        arrays@,
                        c1,
                        cursors@,
                        kstar as int,
                        kn as int,
                    );
                    lemma_total_remaining_nonneg(arrays@, cursors@, kn as int);
                    assert forall|k: int, i: int|
                        0 <= k < kn && 0 <= i < cursors@[k] implies covers(
                        out@,
                        #[trigger] arrays@[k]@[i],
                    ) by {
                        if k == kstar as int && i == ck as int {
                            assert(arrays@[k]@[i] == this_pos);
                        } else {
                            assert(i < c1[k]);
                        }
                    }
                    assert forall|j: int, k: int|
                        0 <= j < out@.len() && stream_active(arrays@, cursors@, k) implies
                        #[trigger] out@[j].max <= #[trigger] arrays@[k]@[cursors@[k] as int] by {
                        if k == kstar as int {
                            assert(arrays@[k]@[ck as int] < arrays@[k]@[ck + 1 as int]);
                        } else {
                            assert(stream_active(arrays@, c1, k));
                            assert(arrays@[kstar as int]@[ck as int]
                                <= arrays@[k]@[c1[k] as int]);
                        }
                    }
                }
            },
        }
    }
    proof {
        reveal(range_ok);
        assert forall|j: int| 0 <= j < out@.len() implies range_wf(#[trigger] out@[j], allowed_range)
            && bits_sound(out@[j], arrays@) && elems_sound(out@[j], arrays@) by {
            assert(range_ok(out@[j], allowed_range, arrays@));
        }
        assert forall|j: int| 0 <= j < out@.len() implies popcount(#[trigger] out@[j].set.bits)
            >= 1 by {
            assert(range_wf(out@[j], allowed_range));
            let b = choose|b: u32| has_bit(out@[j].set.bits, b);
            lemma_popcount_pos(out@[j].set.bits, b);
        }
    }
    out
}

} // verus!
