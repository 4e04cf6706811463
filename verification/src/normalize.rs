//! Word normalization: a raw token is mapped to its canonical form by keeping
//! only ASCII alphanumeric characters and lowercasing the letters. An empty
//! result means the token carries no searchable content.

use vstd::prelude::*;

verus! {

/// A character that can appear in a normalized word: an ASCII lowercase
/// letter or a digit.
pub open spec fn is_normal_char(c: char) -> bool {
    ('a' <= c && c <= 'z') || ('0' <= c && c <= '9')
}

/// A character the normalizer keeps (possibly after lowercasing).
pub open spec fn is_kept_char(c: char) -> bool {
    is_normal_char(c) || ('A' <= c && c <= 'Z')
}

/// ASCII lowercasing of a single character.
pub open spec fn lower_char(c: char) -> char {
    if 'A' <= c && c <= 'Z' {
        (((c as int) + 32) as u8) as char
    } else {
        c
    }
}

/// The canonical form of a token: its ASCII alphanumeric characters,
/// in order, with letters lowercased.
pub open spec fn normalize_seq(s: Seq<char>) -> Seq<char>
    decreases s.len(),
{
    if s.len() == 0 {
        Seq::empty()
    } else {
        let rest = normalize_seq(s.drop_last());
        if is_kept_char(s.last()) {
            rest.push(lower_char(s.last()))
        } else {
            rest
        }
    }
}

/// Relies on String::push: appends the character to the end of the string.
pub assume_specification[ String::push ](s: &mut String, c: char)
    ensures
        final(s)@ == old(s)@.push(c),
;

/// Maps a raw token to its canonical form.
pub fn normalize_word(word: &str) -> (r: String)
    ensures
        r@ == normalize_seq(word@),
{
    let len = word.unicode_len();
    let mut r = String::new();
    let mut i: usize = 0;
    while i < len
        invariant
            i <= len,
            len == word@.len(),
            r@ == normalize_seq(word@.take(i as int)),
        decreases len - i,
    {
        let c = word.get_char(i);
        proof {
            assert(word@.take(i + 1 as int).drop_last() =~= word@.take(i as int));
            assert(word@.take(i + 1 as int).last() == word@[i as int]);
        }
        if ('a' <= c && c <= 'z') || ('0' <= c && c <= '9') {
            r.push(c);
        } else if 'A' <= c && c <= 'Z' {
            let lc = ((c as u8) + 32) as char;
            r.push(lc);
        }
        i += 1;
    }
    proof {
        assert(word@.take(len as int) =~= word@);
    }
    r
}

/// Every character of a normalized word is a lowercase ASCII letter or a
/// digit, and normalization never lengthens a token.
pub proof fn lemma_normalize_chars(s: Seq<char>)
    ensures
        normalize_seq(s).len() <= s.len(),
        forall|i: int|
            0 <= i < normalize_seq(s).len() ==> is_normal_char(#[trigger] normalize_seq(s)[i]),
    decreases s.len(),
{
    if s.len() > 0 {
        lemma_normalize_chars(s.drop_last());
    }
}

/// A sequence made only of normalized characters is already canonical.
pub proof fn lemma_normalize_of_normal(s: Seq<char>)
    requires
        forall|i: int| 0 <= i < s.len() ==> is_normal_char(#[trigger] s[i]),
    ensures
        normalize_seq(s) == s,
    decreases s.len(),
{
    if s.len() > 0 {
        assert(forall|i: int|
            0 <= i < s.drop_last().len() ==> is_normal_char(#[trigger] s.drop_last()[i]));
        lemma_normalize_of_normal(s.drop_last());
        assert(normalize_seq(s) =~= s);
    } else {
        assert(normalize_seq(s) =~= s);
    }
}

/// Normalization is idempotent.
pub proof fn lemma_normalize_idempotent(s: Seq<char>)
    ensures
        normalize_seq(normalize_seq(s)) == normalize_seq(s),
{
    lemma_normalize_chars(s);
    lemma_normalize_of_normal(normalize_seq(s));
}

} // verus!
