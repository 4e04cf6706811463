//! Text helpers the index and the query planner share: lexicographic order
//! on words, prefix tests, and whitespace tokenization.

use vstd::prelude::*;

verus! {

/// Lexicographic order on character sequences, by code point.
pub open spec fn seq_lt(a: Seq<char>, b: Seq<char>) -> bool
    decreases a.len(),
{
    if b.len() == 0 {
        false
    } else if a.len() == 0 {
        true
    } else if a[0] != b[0] {
        a[0] < b[0]
    } else {
        seq_lt(a.drop_first(), b.drop_first())
    }
}

/// p is an initial segment of s.
pub open spec fn is_prefix(p: Seq<char>, s: Seq<char>) -> bool {
    p.len() <= s.len() && s.subrange(0, p.len() as int) == p
}

/// The order is irreflexive.
pub proof fn lemma_seq_lt_irrefl(a: Seq<char>)
    ensures
        !seq_lt(a, a),
    decreases a.len(),
{
    if a.len() > 0 {
        lemma_seq_lt_irrefl(a.drop_first());
    }
}

/// Any two sequences are ordered or equal.
pub proof fn lemma_seq_lt_trichotomy(a: Seq<char>, b: Seq<char>)
    ensures
        seq_lt(a, b) || seq_lt(b, a) || a == b,
    decreases a.len(),
{
    if a.len() == 0 && b.len() == 0 {
        assert(a =~= b);
    } else if a.len() > 0 && b.len() > 0 && a[0] == b[0] {
        lemma_seq_lt_trichotomy(a.drop_first(), b.drop_first());
        if !seq_lt(a, b) && !seq_lt(b, a) {
            assert(a.drop_first() == b.drop_first());
            assert(a.len() == b.len());
            assert forall|i: int| 0 <= i < a.len() implies a[i] == b[i] by {
                if i > 0 {
                    assert(a.drop_first()[i - 1] == b.drop_first()[i - 1]);
                }
            }
            assert(a =~= b);
        }
    }
}

/// The order is transitive.
pub proof fn lemma_seq_lt_trans(a: Seq<char>, b: Seq<char>, c: Seq<char>)
    requires
        seq_lt(a, b),
        seq_lt(b, c),
    ensures
        seq_lt(a, c),
    decreases a.len(),
{
    if a.len() > 0 && b.len() > 0 && c.len() > 0 && a[0] == b[0] && b[0] == c[0] {
        lemma_seq_lt_trans(a.drop_first(), b.drop_first(), c.drop_first());
    }
}

/// Whether a orders strictly below b, by code point.
pub fn str_lt(a: &str, b: &str) -> (r: bool)
    ensures
        r == seq_lt(a@, b@),
{
    let alen = a.unicode_len();
    let blen = b.unicode_len();
    let mut i: usize = 0;
    proof {
        assert(a@.skip(0) =~= a@);
        assert(b@.skip(0) =~= b@);
    }
    loop
        invariant
            i <= alen,
            i <= blen,
            alen == a@.len(),
            blen == b@.len(),
            seq_lt(a@, b@) == seq_lt(a@.skip(i as int), b@.skip(i as int)),
        ensures
            seq_lt(a@, b@) == seq_lt(a@.skip(i as int), b@.skip(i as int)),
            i <= alen,
            i <= blen,
            i >= blen || i >= alen || a@[i as int] != b@[i as int],
        decreases alen - i,
    {
        if i >= blen || i >= alen {
            break ;
        }
        let ca = a.get_char(i);
        let cb = b.get_char(i);
        if ca != cb {
            break ;
        }
        proof {
            assert(a@.skip(i as int).drop_first() =~= a@.skip(i + 1 as int));
            assert(b@.skip(i as int).drop_first() =~= b@.skip(i + 1 as int));
            assert(a@.skip(i as int)[0] == a@[i as int]);
            assert(b@.skip(i as int)[0] == b@[i as int]);
        }
        i += 1;
    }
    proof {
        if i < alen && i < blen {
            assert(a@.skip(i as int)[0] == a@[i as int]);
            assert(b@.skip(i as int)[0] == b@[i as int]);
        }
    }
    if i >= blen {
        false
    } else if i >= alen {
        true
    } else {
        let ca = a.get_char(i);
        let cb = b.get_char(i);
        ca < cb
    }
}

/// Whether p is an initial segment of s.
pub fn has_prefix(s: &str, p: &str) -> (r: bool)
    ensures
        r == is_prefix(p@, s@),
{
    let plen = p.unicode_len();
    let slen = s.unicode_len();
    if plen > slen {
        proof {
            assert(!is_prefix(p@, s@));
        }
        return false;
    }
    let mut i: usize = 0;
    while i < plen
        invariant
            i <= plen,
            plen == p@.len(),
            slen == s@.len(),
            plen <= slen,
            forall|j: int| 0 <= j < i ==> s@[j] == p@[j],
        decreases plen - i,
    {
        let cs = s.get_char(i);
        let cp = p.get_char(i);
        if cs != cp {
            proof {
                assert(s@.subrange(0, p@.len() as int)[i as int] != p@[i as int]);
            }
            return false;
        }
        i += 1;
    }
    proof {
        assert(s@.subrange(0, p@.len() as int) =~= p@);
    }
    true
}

/// A white-space character for tokenization purposes: the Unicode
/// white-space set, as whitespace splitting of query and transcript text
/// understands it.
pub open spec fn is_space(c: char) -> bool {
    ||| c == '\t'
    ||| c == '\n'
    ||| c == '\u{b}'
    ||| c == '\u{c}'
    ||| c == '\r'
    ||| c == ' '
    ||| c == '\u{85}'
    ||| c == '\u{a0}'
    ||| c == '\u{1680}'
    ||| ('\u{2000}' <= c && c <= '\u{200a}')
    ||| c == '\u{2028}'
    ||| c == '\u{2029}'
    ||| c == '\u{202f}'
    ||| c == '\u{205f}'
    ||| c == '\u{3000}'
}

/// Length of the maximal non-whitespace prefix.
pub open spec fn token_len(s: Seq<char>) -> int
    decreases s.len(),
{
    if s.len() == 0 || is_space(s[0]) {
        0
    } else {
        1 + token_len(s.drop_first())
    }
}

pub proof fn lemma_token_len_bounds(s: Seq<char>)
    ensures
        0 <= token_len(s) <= s.len(),
        forall|i: int| 0 <= i < token_len(s) ==> !is_space(s[i]),
        token_len(s) < s.len() ==> is_space(s[token_len(s)]),
    decreases s.len(),
{
    if s.len() > 0 && !is_space(s[0]) {
        lemma_token_len_bounds(s.drop_first());
        assert forall|i: int| 0 <= i < token_len(s) implies !is_space(s[i]) by {
            if i > 0 {
                assert(!is_space(s.drop_first()[i - 1]));
            }
        }
        if token_len(s) < s.len() {
            assert(is_space(s.drop_first()[token_len(s.drop_first())]));
        }
    }
}

/// The whitespace-separated tokens of a sequence, in order.
pub open spec fn split_ws(s: Seq<char>) -> Seq<Seq<char>>
    decreases s.len(),
    via split_ws_decreases
{
    if s.len() == 0 {
        Seq::empty()
    } else if is_space(s[0]) {
        split_ws(s.drop_first())
    } else {
        let n = token_len(s);
        seq![s.subrange(0, n)] + split_ws(s.skip(n))
    }
}

#[via_fn]
proof fn split_ws_decreases(s: Seq<char>) {
    lemma_token_len_bounds(s);
}

/// Splits on whitespace, keeping the non-empty chunks.
pub fn split_whitespace_vec(s: &str) -> (r: Vec<String>)
    ensures
        r@.len() == split_ws(s@).len(),
        forall|t: int| 0 <= t < r@.len() ==> (#[trigger] r@[t])@ == split_ws(s@)[t],
{
    let len = s.unicode_len();
    let mut r: Vec<String> = Vec::new();
    let mut i: usize = 0;
    proof {
        assert(s@.skip(0) =~= s@);
    }
    while i < len
        invariant
            i <= len,
            len == s@.len(),
            r@.len() + split_ws(s@.skip(i as int)).len() == split_ws(s@).len(),
            forall|t: int| 0 <= t < r@.len() ==> (#[trigger] r@[t])@ == split_ws(s@)[t],
            forall|t: int|
                0 <= t < split_ws(s@.skip(i as int)).len() ==> #[trigger] split_ws(
                    s@.skip(i as int),
                )[t] == split_ws(s@)[r@.len() + t],
        decreases len - i,
    {
        let c = s.get_char(i);
        let ghost rest = s@.skip(i as int);
        proof {
            assert(rest[0] == s@[i as int]);
        }
        if is_space_exec(c) {
            proof {
                assert(rest.drop_first() =~= s@.skip(i + 1 as int));
            }
            i += 1;
        } else {
            // collect the token [i, j)
            proof {
                lemma_token_len_bounds(rest);
            }
            let mut tok = String::new();
            let mut j: usize = i;
            while j < len
                invariant
                    i <= j <= len,
                    len == s@.len(),
                    j - i <= token_len(s@.skip(i as int)),
                    tok@ =~= s@.subrange(i as int, j as int),
                    forall|x: int| i <= x < j ==> !is_space(s@[x]),
                    token_len(s@.skip(i as int)) <= s@.len() - i,
                ensures
                    j - i == token_len(s@.skip(i as int)),
                    tok@ =~= s@.subrange(i as int, j as int),
                    j <= len,
                decreases len - j,
            {
                proof {
                    lemma_token_len_skip(s@, i as int, j as int);
                }
                let c2 = s.get_char(j);
                if is_space_exec(c2) {
                    proof {
                        assert(j - i == token_len(s@.skip(i as int))) by {
                            lemma_token_len_bounds(s@.skip(i as int));
                            if j - i < token_len(s@.skip(i as int)) {
                                assert(!is_space(s@.skip(i as int)[j - i]));
                                assert(s@.skip(i as int)[j - i] == s@[j as int]);
                            }
                        }
                    }
                    break ;
                }
                tok.push(c2);
                proof {
                    assert(tok@ =~= s@.subrange(i as int, j + 1 as int));
                    assert(j + 1 - i <= token_len(s@.skip(i as int))) by {
                        lemma_token_len_bounds(s@.skip(i as int));
                        if j - i == token_len(s@.skip(i as int)) {
                            assert(is_space(s@.skip(i as int)[j - i]));
                            assert(s@.skip(i as int)[j - i] == s@[j as int]);
                        }
                    }
                }
                j += 1;
                proof {
                    if j - i == token_len(s@.skip(i as int)) && j == len {
                    }
                }
            }
            proof {
                let n = token_len(rest);
                assert(rest.subrange(0, n) =~= s@.subrange(i as int, i + n));
                assert(tok@ =~= rest.subrange(0, n));
                assert(split_ws(rest) == seq![rest.subrange(0, n)] + split_ws(rest.skip(n)));
                assert(rest.skip(n) =~= s@.skip(i + n));
            }
            let ghost old_r = r@;
            r.push(tok);
            proof {
                assert forall|t: int| 0 <= t < r@.len() implies (#[trigger] r@[t])@ == split_ws(
                    s@,
                )[t] by {
                    if t < old_r.len() {
                        assert(r@[t] == old_r[t]);
                    } else {
                        assert(split_ws(rest)[0] == rest.subrange(0, token_len(rest)));
                        assert(split_ws(rest)[0] == split_ws(s@)[old_r.len() as int]);
                    }
                }
                assert forall|t: int|
                    0 <= t < split_ws(s@.skip(j as int)).len() implies #[trigger] split_ws(
                    s@.skip(j as int),
                )[t] == split_ws(s@)[r@.len() + t] by {
                    assert(split_ws(rest)[t + 1] == split_ws(rest.skip(token_len(rest)))[t]);
                }
            }
            i = j;
        }
    }
    proof {
        assert(s@.skip(len as int) =~= Seq::<char>::empty());
    }
    r
}

/// Whether the character is white space.
pub fn is_space_exec(c: char) -> (r: bool)
    ensures
        r == is_space(c),
{
    c == '\t' || c == '\n' || c == '\u{b}' || c == '\u{c}' || c == '\r' || c == ' ' || c
        == '\u{85}' || c == '\u{a0}' || c == '\u{1680}' || ('\u{2000}' <= c && c <= '\u{200a}')
        || c == '\u{2028}' || c == '\u{2029}' || c == '\u{202f}' || c == '\u{205f}' || c
        == '\u{3000}'
}

proof fn lemma_token_len_skip(s: Seq<char>, i: int, j: int)
    requires
        0 <= i <= j <= s.len(),
        forall|x: int| i <= x < j ==> !is_space(s[x]),
    ensures
        token_len(s.skip(i)) >= j - i,
    decreases j - i,
{
    lemma_token_len_bounds(s.skip(i));
    if j > i {
        assert(!is_space(s[i]));
        assert(s.skip(i)[0] == s[i]);
        assert(s.skip(i).drop_first() =~= s.skip(i + 1));
        lemma_token_len_skip(s, i + 1, j);
        assert(token_len(s.skip(i)) == 1 + token_len(s.skip(i).drop_first()));
        assert(token_len(s.skip(i).drop_first()) == token_len(s.skip(i + 1)));
    }
}

} // verus!
