//! Ingest of external transcript formats into the common word stream: the
//! shared time arithmetic, the per-segment tokenization that every format
//! uses, and line scanners for the two subtitle formats. Reading files and
//! decoding the JSON-based formats happen in the I/O code around the
//! library, which hands plain values in.

use vstd::prelude::*;

use crate::hsk::Word;
use crate::text::{split_ws, split_whitespace_vec};

verus! {

/// A subtitle timestamp, split into its written fields.
#[derive(Debug, PartialEq, Eq, Structural)]
pub struct SrtTime {
    pub hours: u32,
    pub minutes: u32,
    pub seconds: u32,
    pub millis: u32,
}

/// The timestamp in milliseconds: hours, minutes and seconds scaled, plus
/// the written millisecond field.
pub open spec fn spec_in_millis(hours: u32, minutes: u32, seconds: u32, millis: u32) -> int {
    hours * 3600000 + minutes * 60000 + seconds * 1000 + millis
}

impl SrtTime {
    /// The timestamp in milliseconds.
    pub fn in_millis(&self) -> (r: u64)
        ensures
            r == spec_in_millis(self.hours, self.minutes, self.seconds, self.millis),
    {
        (self.hours as u64) * 3600000 + (self.minutes as u64) * 60000 + (self.seconds as u64)
            * 1000 + (self.millis as u64)
    }
}

/// One subtitle block: an index, a time range and one line of text.
#[derive(Debug)]
pub struct SrtSegment {
    pub id: u32,
    pub start: SrtTime,
    pub end: SrtTime,
    pub text: String,
}

/// A parsed subtitle file of numbered blocks.
#[derive(Debug)]
pub struct SrtFile {
    pub segments: Vec<SrtSegment>,
}

/// A subtitle timestamp of the caption format without block numbers.
#[derive(Debug, PartialEq, Eq, Structural)]
pub struct SbvTime {
    pub hours: u32,
    pub minutes: u32,
    pub seconds: u32,
    pub millis: u32,
}

impl SbvTime {
    /// The timestamp in milliseconds.
    pub fn in_millis(&self) -> (r: u64)
        ensures
            r == spec_in_millis(self.hours, self.minutes, self.seconds, self.millis),
    {
        (self.hours as u64) * 3600000 + (self.minutes as u64) * 60000 + (self.seconds as u64)
            * 1000 + (self.millis as u64)
    }
}

/// One caption block: a time range and one line of text.
#[derive(Debug)]
pub struct SbvSegment {
    pub start: SbvTime,
    pub end: SbvTime,
    pub text: String,
}

/// A parsed caption file.
#[derive(Debug)]
pub struct SbvFile {
    pub segments: Vec<SbvSegment>,
}

/// The decimal value of a digit sequence.
pub open spec fn digits_value(s: Seq<char>) -> int
    decreases s.len(),
{
    if s.len() == 0 {
        0
    } else {
        digits_value(s.drop_last()) * 10 + (s.last() as int - '0' as int)
    }
}

/// Every character is a decimal digit.
pub open spec fn all_digits(s: Seq<char>) -> bool {
    forall|i: int| 0 <= i < s.len() ==> '0' <= #[trigger] s[i] && s[i] <= '9'
}

/// Parses a non-empty run of decimal digits; refuses other text or a value
/// beyond the field width.
pub fn parse_u32_digits(s: &str) -> (r: Option<u32>)
    ensures
        match r {
            Some(v) => s@.len() > 0 && all_digits(s@) && v == digits_value(s@),
            None => s@.len() == 0 || !all_digits(s@) || digits_value(s@) > u32::MAX,
        },
{
    let n = s.unicode_len();
    if n == 0 {
        return None;
    }
    let mut v: u64 = 0;
    let mut i: usize = 0;
    while i < n
        invariant
            i <= n,
            n == s@.len(),
            all_digits(s@.take(i as int)),
            v == digits_value(s@.take(i as int)),
            v <= u32::MAX as u64,
        decreases n - i,
    {
        let c = s.get_char(i);
        if c < '0' || c > '9' {
            proof {
                assert(!all_digits(s@));
            }
            return None;
        }
        let d = (c as u32) - ('0' as u32);
        let next: u64 = v * 10 + (d as u64);
        proof {
            assert(s@.take(i + 1 as int).drop_last() =~= s@.take(i as int));
            assert(s@.take(i + 1 as int).last() == s@[i as int]);
        }
        if next > u32::MAX as u64 {
            proof {
                assert(digits_value(s@.take(i + 1 as int)) == next);
                lemma_digits_value_grows(s@, i + 1 as int, s@.len() as int);
                assert(s@.take(s@.len() as int) =~= s@);
            }
            return None;
        }
        v = next;
        i += 1;
    }
    proof {
        assert(s@.take(n as int) =~= s@);
    }
    Some(v as u32)
}

proof fn lemma_digits_value_grows(s: Seq<char>, i: int, n: int)
    requires
        0 < i <= n <= s.len(),
        digits_value(s.take(i)) > u32::MAX,
        all_digits(s.take(i)) || true,
    ensures
        digits_value(s.take(n)) > u32::MAX || !all_digits(s),
    decreases n - i,
{
    if i < n {
        assert(s.take(i + 1).drop_last() =~= s.take(i));
        assert(s.take(i + 1).last() == s[i]);
        if '0' <= s[i] && s[i] <= '9' {
            assert(digits_value(s.take(i + 1)) == digits_value(s.take(i)) * 10 + (s[i] as int
                - '0' as int));
            lemma_digits_value_grows(s, i + 1, n);
        } else {
            assert(!all_digits(s));
        }
    } else {
        assert(s.take(n) =~= s.take(i));
    }
}

/// The words of one timed segment: the whitespace-separated tokens of its
/// text, each carrying the segment's start and end.
pub fn words_from_segment(text: &str, start_ms: Option<u64>, end_ms: Option<u64>) -> (r: Vec<
    Word,
>)
    ensures
        r@.len() == split_ws(text@).len(),
        forall|j: int|
            0 <= j < r@.len() ==> (#[trigger] r@[j]).word@ == split_ws(text@)[j] && r@[j].start_ms
                == start_ms && r@[j].end_ms == end_ms,
{
    let tokens = split_whitespace_vec(text);
    let mut r: Vec<Word> = Vec::new();
    let n = tokens.len();
    let mut i: usize = 0;
    while i < n
        invariant
            i <= n,
            n == tokens@.len(),
            tokens@.len() == split_ws(text@).len(),
            forall|t: int| 0 <= t < n ==> (#[trigger] tokens@[t])@ == split_ws(text@)[t],
            r@.len() == i,
            forall|j: int|
                0 <= j < i ==> (#[trigger] r@[j]).word@ == split_ws(text@)[j] && r@[j].start_ms
                    == start_ms && r@[j].end_ms == end_ms,
        decreases n - i,
    {
        r.push(Word::new(tokens[i].clone(), start_ms, end_ms));
        i += 1;
    }
    r
}

/// The block is exactly the whitespace tokens of the text, each carrying
/// the given times.
pub open spec fn timed_tokens(
    part: Seq<Word>,
    text: Seq<char>,
    start_ms: Option<u64>,
    end_ms: Option<u64>,
) -> bool {
    &&& part.len() == split_ws(text).len()
    &&& forall|j: int|
        0 <= j < part.len() ==> (#[trigger] part[j]).word@ == split_ws(text)[j] && part[j].start_ms
            == start_ms && part[j].end_ms == end_ms
}

/// Concatenation of word lists, oldest first.
pub open spec fn concat_words(parts: Seq<Seq<Word>>) -> Seq<Word>
    decreases parts.len(),
{
    if parts.len() == 0 {
        Seq::empty()
    } else {
        concat_words(parts.drop_last()) + parts.last()
    }
}

/// The words of a list of timed segments, in order: each segment's tokens
/// carry that segment's times.
pub fn words_from_segments(segments: Vec<(String, Option<u64>, Option<u64>)>) -> (r: Vec<Word>)
    ensures
        exists|parts: Seq<Seq<Word>>|
            {
                &&& parts.len() == segments@.len()
                &&& #[trigger] concat_words(parts) == r@
                &&& forall|s: int|
                    0 <= s < parts.len() ==> (#[trigger] parts[s]).len() == split_ws(
                        segments@[s].0@,
                    ).len() && (forall|j: int|
                        0 <= j < parts[s].len() ==> (#[trigger] parts[s][j]).word@ == split_ws(
                            segments@[s].0@,
                        )[j] && parts[s][j].start_ms == segments@[s].1 && parts[s][j].end_ms
                            == segments@[s].2)
            },
{
    let ghost mut parts: Seq<Seq<Word>> = Seq::empty();
    let mut r: Vec<Word> = Vec::new();
    let n = segments.len();
    let mut i: usize = 0;
    while i < n
        invariant
            i <= n,
            n == segments@.len(),
            parts.len() == i,
            concat_words(parts) == r@,
            forall|s: int|
                0 <= s < parts.len() ==> (#[trigger] parts[s]).len() == split_ws(
                    segments@[s].0@,
                ).len() && (forall|j: int|
                    0 <= j < parts[s].len() ==> (#[trigger] parts[s][j]).word@ == split_ws(
                        segments@[s].0@,
                    )[j] && parts[s][j].start_ms == segments@[s].1 && parts[s][j].end_ms
                        == segments@[s].2),
        decreases n - i,
    {
        let seg = &segments[i];
        let mut ws = words_from_segment(seg.0.as_str(), seg.1, seg.2);
        let ghost ws_view = ws@;
        let ghost pre_r = r@;
        r.append(&mut ws);
        proof {
            let new_parts = parts.push(ws_view);
            assert(new_parts.drop_last() =~= parts);
            assert(concat_words(new_parts) == concat_words(parts) + ws_view);
            assert(r@ == pre_r + ws_view);
            parts = new_parts;
        }
        i += 1;
    }
    r
}

/// The words of a caption list where a segment's end is the next segment's
/// start: each segment's tokens carry its own start and the following
/// segment's start as end; the last segment's tokens have no end.
pub fn youtube_words(segments: Vec<(String, u64)>) -> (r: Vec<Word>)
    ensures
        exists|parts: Seq<Seq<Word>>|
            {
                &&& parts.len() == segments@.len()
                &&& #[trigger] concat_words(parts) == r@
                &&& forall|s: int|
                    0 <= s < parts.len() ==> (#[trigger] parts[s]).len() == split_ws(
                        segments@[s].0@,
                    ).len() && (forall|j: int|
                        0 <= j < parts[s].len() ==> (#[trigger] parts[s][j]).word@ == split_ws(
                            segments@[s].0@,
                        )[j] && parts[s][j].start_ms == Some(segments@[s].1) && parts[s][j].end_ms
                            == (if s + 1 < segments@.len() {
                            Some(segments@[s + 1].1)
                        } else {
                            Option::<u64>::None
                        }))
            },
{
    let ghost mut parts: Seq<Seq<Word>> = Seq::empty();
    let mut r: Vec<Word> = Vec::new();
    let n = segments.len();
    let mut i: usize = 0;
    while i < n
        invariant
            i <= n,
            n == segments@.len(),
            parts.len() == i,
            concat_words(parts) == r@,
            forall|s: int|
                0 <= s < parts.len() ==> (#[trigger] parts[s]).len() == split_ws(
                    segments@[s].0@,
                ).len() && (forall|j: int|
                    0 <= j < parts[s].len() ==> (#[trigger] parts[s][j]).word@ == split_ws(
                        segments@[s].0@,
                    )[j] && parts[s][j].start_ms == Some(segments@[s].1) && parts[s][j].end_ms
                        == (if s + 1 < segments@.len() {
                        Some(segments@[s + 1].1)
                    } else {
                        Option::<u64>::None
                    })),
        decreases n - i,
    {
        let seg = &segments[i];
        let end_ms: Option<u64> = if i + 1 < n {
            Some(segments[i + 1].1)
        } else {
            None
        };
        let mut ws = words_from_segment(seg.0.as_str(), Some(seg.1), end_ms);
        let ghost ws_view = ws@;
        let ghost pre_r = r@;
        r.append(&mut ws);
        proof {
            let new_parts = parts.push(ws_view);
            assert(new_parts.drop_last() =~= parts);
            assert(concat_words(new_parts) == concat_words(parts) + ws_view);
            assert(r@ == pre_r + ws_view);
            parts = new_parts;
        }
        i += 1;
    }
    r
}

/// What stops an ingest of a subtitle file.
#[derive(Debug, PartialEq, Eq, Structural)]
pub enum IngestError {
    /// A matched block carries a number too large for its field.
    NumberOutOfRange,
    /// No block matched at all.
    NoSegments,
}

/// Length of the maximal prefix without a newline.
pub open spec fn line_len(s: Seq<char>) -> int
    decreases s.len(),
{
    if s.len() == 0 || s[0] == '\n' {
        0
    } else {
        1 + line_len(s.drop_first())
    }
}

proof fn lemma_line_len_bounds(s: Seq<char>)
    ensures
        0 <= line_len(s) <= s.len(),
    decreases s.len(),
{
    if s.len() > 0 && s[0] != '\n' {
        lemma_line_len_bounds(s.drop_first());
    }
}

/// The lines of a text, split at newlines; a trailing newline yields a
/// final empty line, and only lines before the last are terminated.
pub open spec fn split_nl(s: Seq<char>) -> Seq<Seq<char>>
    decreases s.len(),
    via split_nl_decreases
{
    let n = line_len(s);
    if n >= s.len() {
        seq![s]
    } else {
        seq![s.take(n)] + split_nl(s.skip(n + 1))
    }
}

#[via_fn]
proof fn split_nl_decreases(s: Seq<char>) {
    lemma_line_len_bounds(s);
}

/// Splits a text into its lines.
pub fn split_lines(s: &str) -> (r: Vec<String>)
    ensures
        r@.len() == split_nl(s@).len(),
        forall|t: int| 0 <= t < r@.len() ==> (#[trigger] r@[t])@ == split_nl(s@)[t],
{
    let len = s.unicode_len();
    let mut r: Vec<String> = Vec::new();
    let mut i: usize = 0;
    proof {
        assert(s@.skip(0) =~= s@);
    }
    loop
        invariant
            i <= len,
            len == s@.len(),
            r@.len() + split_nl(s@.skip(i as int)).len() == split_nl(s@).len(),
            forall|t: int| 0 <= t < r@.len() ==> (#[trigger] r@[t])@ == split_nl(s@)[t],
            forall|t: int|
                0 <= t < split_nl(s@.skip(i as int)).len() ==> #[trigger] split_nl(
                    s@.skip(i as int),
                )[t] == split_nl(s@)[r@.len() + t],
        decreases len - i,
    {
        let ghost rest = s@.skip(i as int);
        proof {
            lemma_line_len_bounds(rest);
        }
        // collect the line [i, j)
        let mut line = String::new();
        let mut j: usize = i;
        loop
            invariant
                i <= j <= len,
                len == s@.len(),
                j - i <= line_len(s@.skip(i as int)),
                line@ =~= s@.subrange(i as int, j as int),
                forall|x: int| i <= x < j ==> s@[x] != '\n',
                line_len(s@.skip(i as int)) <= s@.len() - i,
            ensures
                i <= j <= len,
                j - i == line_len(s@.skip(i as int)),
                line@ =~= s@.subrange(i as int, j as int),
            decreases len - j,
        {
            proof {
                lemma_line_len_run(s@, i as int, j as int);
            }
            if j >= len {
                proof {
                    lemma_line_len_bounds(s@.skip(i as int));
                }
                break ;
            }
            let c = s.get_char(j);
            if c == '\n' {
                proof {
                    assert(j - i == line_len(s@.skip(i as int))) by {
                        lemma_line_len_bounds(s@.skip(i as int));
                        if j - i < line_len(s@.skip(i as int)) {
                            lemma_line_len_chars(s@.skip(i as int), j - i);
                            assert(s@.skip(i as int)[j - i] == s@[j as int]);
                        }
                    }
                }
                break ;
            }
            line.push(c);
            proof {
                assert(line@ =~= s@.subrange(i as int, j + 1 as int));
                assert(j + 1 - i <= line_len(s@.skip(i as int))) by {
                    lemma_line_len_bounds(s@.skip(i as int));
                    if j - i == line_len(s@.skip(i as int)) {
                        lemma_line_len_end(s@.skip(i as int));
                        assert(s@.skip(i as int)[j - i] == s@[j as int]);
                    }
                }
            }
            j += 1;
        }
        proof {
            let nl = line_len(rest);
            assert(rest.take(nl) =~= s@.subrange(i as int, i + nl));
            assert(line@ =~= rest.take(nl));
        }
        let ghost old_r = r@;
        r.push(line);
        if j >= len {
            proof {
                assert(line_len(rest) >= rest.len());
                assert(split_nl(rest) =~= seq![rest]);
                assert(rest =~= s@.subrange(i as int, len as int));
                assert forall|t: int| 0 <= t < r@.len() implies (#[trigger] r@[t])@ == split_nl(
                    s@,
                )[t] by {
                    if t < old_r.len() {
                        assert(r@[t] == old_r[t]);
                    } else {
                        assert(split_nl(rest)[0] == rest);
                    }
                }
            }
            return r;
        }
        proof {
            let nl = line_len(rest);
            assert(nl < rest.len());
            assert(split_nl(rest) == seq![rest.take(nl)] + split_nl(rest.skip(nl + 1)));
            assert(rest.skip(nl + 1) =~= s@.skip(j + 1 as int));
            assert forall|t: int| 0 <= t < r@.len() implies (#[trigger] r@[t])@ == split_nl(
                s@,
            )[t] by {
                if t < old_r.len() {
                    assert(r@[t] == old_r[t]);
                } else {
                    assert(split_nl(rest)[0] == rest.take(nl));
                    assert(split_nl(rest)[0] == split_nl(s@)[old_r.len() as int]);
                }
            }
            assert forall|t: int|
                0 <= t < split_nl(s@.skip(j + 1 as int)).len() implies #[trigger] split_nl(
                s@.skip(j + 1 as int),
            )[t] == split_nl(s@)[r@.len() + t] by {
                assert(split_nl(rest)[t + 1] == split_nl(rest.skip(nl + 1))[t]);
            }
        }
        i = j + 1;
    }
}

proof fn lemma_line_len_run(s: Seq<char>, i: int, j: int)
    requires
        0 <= i <= j <= s.len(),
        forall|x: int| i <= x < j ==> s[x] != '\n',
    ensures
        line_len(s.skip(i)) >= j - i,
    decreases j - i,
{
    lemma_line_len_bounds(s.skip(i));
    if j > i {
        assert(s.skip(i)[0] == s[i]);
        assert(s.skip(i).drop_first() =~= s.skip(i + 1));
        lemma_line_len_run(s, i + 1, j);
    }
}

proof fn lemma_line_len_chars(s: Seq<char>, x: int)
    requires
        0 <= x < line_len(s),
        line_len(s) <= s.len(),
    ensures
        s[x] != '\n',
    decreases x,
{
    if x == 0 {
    } else {
        assert(s.drop_first()[x - 1] == s[x]);
        lemma_line_len_chars(s.drop_first(), x - 1);
    }
}

proof fn lemma_line_len_end(s: Seq<char>)
    requires
        line_len(s) < s.len(),
    ensures
        s[line_len(s)] == '\n',
    decreases s.len(),
{
    if s.len() > 0 && s[0] != '\n' {
        assert(line_len(s) == 1 + line_len(s.drop_first()));
        lemma_line_len_bounds(s.drop_first());
        lemma_line_len_end(s.drop_first());
        assert(s.drop_first()[line_len(s.drop_first())] == s[line_len(s)]);
    }
}

/// A decimal digit.
pub open spec fn is_digit(c: char) -> bool {
    '0' <= c && c <= '9'
}

/// Length of the maximal digit run at pos.
pub open spec fn spec_run_len(s: Seq<char>, pos: int) -> int
    decreases s.len() - pos,
{
    if pos < 0 || pos >= s.len() || !is_digit(s[pos]) {
        0
    } else {
        1 + spec_run_len(s, pos + 1)
    }
}

/// The decimal value of the digit run at pos.
pub open spec fn run_value(s: Seq<char>, pos: int) -> int {
    digits_value(s.subrange(pos, pos + spec_run_len(s, pos)))
}

proof fn lemma_run_len_exact(s: Seq<char>, pos: int, j: int)
    requires
        0 <= pos <= j <= s.len(),
        forall|x: int| pos <= x < j ==> is_digit(#[trigger] s[x]),
        j == s.len() || !is_digit(s[j]),
    ensures
        spec_run_len(s, pos) == j - pos,
    decreases j - pos,
{
    if pos < j {
        lemma_run_len_exact(s, pos + 1, j);
    }
}

proof fn lemma_run_len_bounds(s: Seq<char>, pos: int)
    ensures
        0 <= spec_run_len(s, pos),
        0 <= pos <= s.len() ==> pos + spec_run_len(s, pos) <= s.len(),
    decreases s.len() - pos,
{
    if !(pos < 0 || pos >= s.len() || !is_digit(s[pos])) {
        lemma_run_len_bounds(s, pos + 1);
    }
}

/// Reads the maximal digit run at pos: how many digits follow, and their
/// value when it fits the field.
fn read_digit_run(s: &str, pos: usize) -> (r: (usize, Option<u32>))
    requires
        pos <= s@.len(),
    ensures
        r.0 == spec_run_len(s@, pos as int),
        pos + r.0 <= s@.len(),
        match r.1 {
            Some(v) => v == run_value(s@, pos as int) && run_value(s@, pos as int) <= u32::MAX,
            None => run_value(s@, pos as int) > u32::MAX,
        },
{
    let len = s.unicode_len();
    let mut j: usize = pos;
    let mut v: u64 = 0;
    let mut fits = true;
    loop
        invariant
            pos <= j <= len,
            len == s@.len(),
            forall|x: int| pos <= x < j ==> is_digit(#[trigger] s@[x]),
            0 <= digits_value(s@.subrange(pos as int, j as int)),
            fits ==> v == digits_value(s@.subrange(pos as int, j as int)) && v <= u32::MAX as u64,
            !fits ==> digits_value(s@.subrange(pos as int, j as int)) > u32::MAX,
        ensures
            pos <= j <= len,
            forall|x: int| pos <= x < j ==> is_digit(#[trigger] s@[x]),
            j == len || !is_digit(s@[j as int]),
            fits ==> v == digits_value(s@.subrange(pos as int, j as int)) && v <= u32::MAX as u64,
            !fits ==> digits_value(s@.subrange(pos as int, j as int)) > u32::MAX,
        decreases len - j,
    {
        if j >= len {
            break ;
        }
        let c = s.get_char(j);
        if c < '0' || c > '9' {
            break ;
        }
        let d = ((c as u32) - ('0' as u32)) as u64;
        proof {
            assert(s@.subrange(pos as int, j + 1 as int).drop_last() =~= s@.subrange(
                pos as int,
                j as int,
            ));
            assert(s@.subrange(pos as int, j + 1 as int).last() == s@[j as int]);
        }
        if fits {
            if v > 429496729 || (v == 429496729 && d > 5) {
                fits = false;
            } else {
                v = v * 10 + d;
            }
        }
        j += 1;
    }
    proof {
        lemma_run_len_exact(s@, pos as int, j as int);
        assert(s@.subrange(pos as int, pos + spec_run_len(s@, pos as int)) =~= s@.subrange(
            pos as int,
            j as int,
        ));
    }
    let count = j - pos;
    if fits {
        (count, Some(v as u32))
    } else {
        (count, None)
    }
}

/// Whether the character at pos is exactly c.
fn char_at_is(s: &str, pos: usize, c: char) -> (r: bool)
    ensures
        r == (pos < s@.len() && s@[pos as int] == c),
{
    if pos < s.unicode_len() {
        s.get_char(pos) == c
    } else {
        false
    }
}

/// End position of a timestamp shape at pos, or -1 when the shape fails:
/// digits ':' digits ':' digits, a millisecond separator, digits. The
/// separator is a comma, or any single character in the loose caption
/// notation.
pub open spec fn spec_ts_end(s: Seq<char>, pos: int, sep_any: bool) -> int {
    let c1 = spec_run_len(s, pos);
    let p1 = pos + c1;
    let c2 = spec_run_len(s, p1 + 1);
    let p2 = p1 + 1 + c2;
    let c3 = spec_run_len(s, p2 + 1);
    let p3 = p2 + 1 + c3;
    let c4 = spec_run_len(s, p3 + 1);
    if c1 == 0 {
        -1
    } else if !(p1 < s.len() && s[p1] == ':') {
        -1
    } else if c2 == 0 {
        -1
    } else if !(p2 < s.len() && s[p2] == ':') {
        -1
    } else if c3 == 0 {
        -1
    } else if p3 >= s.len() {
        -1
    } else if !sep_any && s[p3] != ',' {
        -1
    } else if c4 == 0 {
        -1
    } else {
        p3 + 1 + c4
    }
}

/// The four fields of the timestamp at pos: hours, minutes, seconds and
/// the millisecond run, as written.
pub open spec fn spec_ts_fields(s: Seq<char>, pos: int) -> (int, int, int, int) {
    let p1 = pos + spec_run_len(s, pos);
    let p2 = p1 + 1 + spec_run_len(s, p1 + 1);
    let p3 = p2 + 1 + spec_run_len(s, p2 + 1);
    (run_value(s, pos), run_value(s, p1 + 1), run_value(s, p2 + 1), run_value(s, p3 + 1))
}

/// A timestamp with its millisecond separator, read at pos. Yields the
/// fields and the position after them, nothing on a shape mismatch, and an
/// error when a field overflows.
fn read_timestamp(s: &str, pos: usize, sep_any: bool) -> (r: Result<
    Option<(u32, u32, u32, u32, usize)>,
    IngestError,
>)
    requires
        pos <= s@.len(),
    ensures
        match r {
            Ok(Some(t)) => spec_ts_end(s@, pos as int, sep_any) == t.4 && pos < t.4 <= s@.len()
                && ({
                let f = spec_ts_fields(s@, pos as int);
                t.0 == f.0 && t.1 == f.1 && t.2 == f.2 && t.3 == f.3
            }),
            Ok(None) => spec_ts_end(s@, pos as int, sep_any) == -1,
            Err(e) => e == IngestError::NumberOutOfRange && spec_ts_end(s@, pos as int, sep_any)
                >= 0,
        },
{
    let len = s.unicode_len();
    proof {
        lemma_run_len_bounds(s@, pos as int);
    }
    let (c1, h) = read_digit_run(s, pos);
    if c1 == 0 {
        return Ok(None);
    }
    let p1 = pos + c1;
    if !char_at_is(s, p1, ':') {
        return Ok(None);
    }
    proof {
        lemma_run_len_bounds(s@, p1 + 1 as int);
    }
    let (c2, m) = read_digit_run(s, p1 + 1);
    if c2 == 0 {
        return Ok(None);
    }
    let p2 = p1 + 1 + c2;
    if !char_at_is(s, p2, ':') {
        return Ok(None);
    }
    proof {
        lemma_run_len_bounds(s@, p2 + 1 as int);
    }
    let (c3, sec) = read_digit_run(s, p2 + 1);
    if c3 == 0 {
        return Ok(None);
    }
    let p3 = p2 + 1 + c3;
    if p3 >= len {
        return Ok(None);
    }
    if !sep_any {
        if !char_at_is(s, p3, ',') {
            return Ok(None);
        }
    }
    proof {
        lemma_run_len_bounds(s@, p3 + 1 as int);
    }
    let (c4, ms) = read_digit_run(s, p3 + 1);
    if c4 == 0 {
        return Ok(None);
    }
    let p4 = p3 + 1 + c4;
    match (h, m, sec, ms) {
        (Some(hv), Some(mv), Some(sv), Some(msv)) => Ok(Some((hv, mv, sv, msv, p4))),
        _ => Err(IngestError::NumberOutOfRange),
    }
}

/// Position after the arrow between the two timestamps, with an optional
/// space on either side, or -1 when it is not there.
pub open spec fn spec_arrow_end(s: Seq<char>, pos: int) -> int {
    let p = if pos < s.len() && s[pos] == ' ' {
        pos + 1
    } else {
        pos
    };
    if p < s.len() && s[p] == '-' && p + 1 < s.len() && s[p + 1] == '-' && p + 2 < s.len() && s[p
        + 2] == '>' {
        let q = p + 3;
        if q < s.len() && s[q] == ' ' {
            q + 1
        } else {
            q
        }
    } else {
        -1
    }
}

/// Start of the second timestamp of a time pair read at start, or -1 when
/// the pair's shape fails before it.
pub open spec fn spec_pair_mid(s: Seq<char>, start: int, sep_any: bool, arrow: bool) -> int {
    let e1 = spec_ts_end(s, start, sep_any);
    if e1 < 0 {
        -1
    } else if arrow {
        spec_arrow_end(s, e1)
    } else {
        if e1 < s.len() && s[e1] == ',' {
            e1 + 1
        } else {
            -1
        }
    }
}

/// Whether a full time pair occupies the line from start to its end.
pub open spec fn spec_pair_shape(s: Seq<char>, start: int, sep_any: bool, arrow: bool) -> bool {
    let mid = spec_pair_mid(s, start, sep_any, arrow);
    &&& spec_ts_end(s, start, sep_any) >= 0
    &&& mid >= 0
    &&& spec_ts_end(s, mid, sep_any) == s.len()
}

/// A full subtitle time line `start --> end` (or `start,end` for the
/// caption format) beginning at the given offset and reaching the line end.
fn read_time_pair(line: &str, start: usize, sep_any: bool, arrow: bool) -> (r: Result<
    Option<(u32, u32, u32, u32, u32, u32, u32, u32)>,
    IngestError,
>)
    requires
        start <= line@.len(),
    ensures
        match r {
            Ok(Some(t)) => spec_pair_shape(line@, start as int, sep_any, arrow) && ({
                let f1 = spec_ts_fields(line@, start as int);
                let f2 = spec_ts_fields(
                    line@,
                    spec_pair_mid(line@, start as int, sep_any, arrow),
                );
                t.0 == f1.0 && t.1 == f1.1 && t.2 == f1.2 && t.3 == f1.3 && t.4 == f2.0 && t.5
                    == f2.1 && t.6 == f2.2 && t.7 == f2.3
            }),
            Ok(None) => !spec_pair_shape(line@, start as int, sep_any, arrow),
            Err(e) => e == IngestError::NumberOutOfRange,
        },
{
    let len = line.unicode_len();
    let first = match read_timestamp(line, start, sep_any) {
        Ok(Some(t)) => t,
        Ok(None) => {
            return Ok(None);
        },
        Err(e) => {
            return Err(e);
        },
    };
    let mut pos = first.4;
    if arrow {
        if char_at_is(line, pos, ' ') {
            pos = pos + 1;
        }
        if !char_at_is(line, pos, '-') {
            return Ok(None);
        }
        if !char_at_is(line, pos + 1, '-') {
            return Ok(None);
        }
        if pos + 2 >= len {
            return Ok(None);
        }
        if !char_at_is(line, pos + 2, '>') {
            return Ok(None);
        }
        pos = pos + 3;
        if char_at_is(line, pos, ' ') {
            pos = pos + 1;
        }
    } else {
        if !char_at_is(line, pos, ',') {
            return Ok(None);
        }
        pos = pos + 1;
    }
    if pos > len {
        return Ok(None);
    }
    proof {
        assert(pos as int == spec_pair_mid(line@, start as int, sep_any, arrow));
    }
    let second = match read_timestamp(line, pos, sep_any) {
        Ok(Some(t)) => t,
        Ok(None) => {
            return Ok(None);
        },
        Err(e) => {
            return Err(e);
        },
    };
    if second.4 != len {
        return Ok(None);
    }
    Ok(Some((first.0, first.1, first.2, first.3, second.0, second.1, second.2, second.3)))
}

/// Length of the line's trailing digit run.
pub open spec fn spec_trailing_len(s: Seq<char>) -> int
    decreases s.len(),
{
    if s.len() == 0 || !is_digit(s.last()) {
        0
    } else {
        1 + spec_trailing_len(s.drop_last())
    }
}

proof fn lemma_trailing_exact(s: Seq<char>, k: int)
    requires
        0 <= k <= s.len(),
        forall|x: int| s.len() - k <= x < s.len() ==> is_digit(#[trigger] s[x]),
        k == s.len() || !is_digit(s[s.len() - k - 1]),
    ensures
        spec_trailing_len(s) == k,
    decreases k,
{
    if k > 0 {
        assert(is_digit(s.last()));
        assert(s.drop_last().len() == s.len() - 1);
        assert forall|x: int|
            s.drop_last().len() - (k - 1) <= x < s.drop_last().len() implies is_digit(
            #[trigger] s.drop_last()[x],
        ) by {
            assert(s.drop_last()[x] == s[x]);
        }
        if k - 1 < s.drop_last().len() {
            assert(s.drop_last()[s.drop_last().len() - (k - 1) - 1] == s[s.len() - k - 1]);
        }
        lemma_trailing_exact(s.drop_last(), k - 1);
    }
}

/// How many digits end the line.
fn trailing_run_len(line: &str) -> (k: usize)
    ensures
        k == spec_trailing_len(line@),
        k <= line@.len(),
        forall|x: int| line@.len() - k <= x < line@.len() ==> is_digit(#[trigger] line@[x]),
{
    let len = line.unicode_len();
    let mut k: usize = 0;
    while k < len
        invariant
            k <= len,
            len == line@.len(),
            forall|x: int| len - k <= x < len ==> is_digit(#[trigger] line@[x]),
        decreases len - k,
    {
        let c = line.get_char(len - 1 - k);
        if c < '0' || c > '9' {
            proof {
                lemma_trailing_exact(line@, k as int);
            }
            return k;
        }
        k += 1;
    }
    proof {
        lemma_trailing_exact(line@, k as int);
    }
    k
}

/// A subtitle block matches at line i: the line ends in digits, the next
/// line is one full time pair, and a terminated text line follows.
#[verifier::opaque]
pub open spec fn srt_block_shape(lines: Seq<Seq<char>>, i: int) -> bool {
    &&& 0 <= i
    &&& i + 3 < lines.len()
    &&& spec_trailing_len(lines[i]) > 0
    &&& spec_pair_shape(lines[i + 1], 0, false, true)
}

/// The segment a matching subtitle block carries: the trailing number of
/// its first line, the time fields of its second, and its third line as
/// text.
#[verifier::opaque]
pub open spec fn srt_seg_at(lines: Seq<Seq<char>>, i: int, seg: SrtSegment) -> bool {
    let line = lines[i];
    let tl = spec_trailing_len(line);
    let f1 = spec_ts_fields(lines[i + 1], 0);
    let f2 = spec_ts_fields(lines[i + 1], spec_pair_mid(lines[i + 1], 0, false, true));
    &&& srt_block_shape(lines, i)
    &&& seg.id == digits_value(line.subrange(line.len() - tl, line.len() as int))
    &&& seg.start.hours == f1.0 && seg.start.minutes == f1.1 && seg.start.seconds == f1.2
        && seg.start.millis == f1.3
    &&& seg.end.hours == f2.0 && seg.end.minutes == f2.1 && seg.end.seconds == f2.2
        && seg.end.millis == f2.3
    &&& seg.text@ == lines[i + 2]
}

/// The line index lies inside one of the matched blocks.
pub open spec fn in_scanned(m: Seq<int>, i: int, width: int) -> bool {
    exists|e: int| 0 <= e < m.len() && #[trigger] m[e] <= i < m[e] + width
}

/// The matched blocks of a left-to-right scan: each recorded index carries
/// its block's segment, consecutive matches do not overlap, and no skipped
/// line starts a block.
#[verifier::opaque]
pub open spec fn srt_scan_witness(
    lines: Seq<Seq<char>>,
    m: Seq<int>,
    segs: Seq<SrtSegment>,
) -> bool {
    &&& m.len() == segs.len()
    &&& forall|e: int| 0 <= e < m.len() ==> srt_seg_at(lines, #[trigger] m[e], segs[e])
    &&& forall|e: int| 0 < e < m.len() ==> #[trigger] m[e] >= m[e - 1] + 3
    &&& forall|i: int| !in_scanned(m, i, 3) ==> !srt_block_shape(lines, i)
}

/// Some scan of the text yields exactly these blocks.
#[verifier::opaque]
pub open spec fn srt_parse_ok(text: Seq<char>, segs: Seq<SrtSegment>) -> bool {
    exists|m: Seq<int>| #[trigger] srt_scan_witness(split_nl(text), m, segs)
}

/// No line of the text starts a subtitle block.
#[verifier::opaque]
pub open spec fn srt_no_blocks(text: Seq<char>) -> bool {
    forall|i: int| !(#[trigger] srt_block_shape(split_nl(text), i))
}

impl SrtFile {
    /// Scans subtitle text left to right for numbered blocks: a line ending
    /// in the block number, one full time line `start --> end`, and a
    /// terminated line of text; a match consumes its three lines, any other
    /// line is skipped. A file without a single block is refused, as is a
    /// matched block with a number too wide for its field.
    #[verifier::rlimit(100)]
    pub fn parse(text: &str) -> (r: Result<SrtFile, IngestError>)
        ensures
            match r {
                Ok(f) => f.segments@.len() >= 1 && srt_parse_ok(text@, f.segments@),
                Err(e) => e == IngestError::NoSegments ==> srt_no_blocks(text@),
            },
    {
        let lines = split_lines(text);
        let n = lines.len();
        let mut segments: Vec<SrtSegment> = Vec::new();
        let ghost mut m: Seq<int> = Seq::empty();
        let mut i: usize = 0;
        proof {
            assert forall|x: int| x < 0 implies !(#[trigger] srt_block_shape(
                split_nl(text@),
                x,
            )) by {
                reveal(srt_block_shape);
            }
        }
        while i < n
            invariant
                i <= n,
                n == lines@.len(),
                lines@.len() == split_nl(text@).len(),
                forall|t: int| 0 <= t < lines@.len() ==> (#[trigger] lines@[t])@ == split_nl(
                    text@,
                )[t],
                m.len() == segments@.len(),
                forall|e: int| 0 <= e < m.len() ==> srt_seg_at(
                    split_nl(text@),
                    #[trigger] m[e],
                    segments@[e],
                ),
                forall|e: int| 0 < e < m.len() ==> #[trigger] m[e] >= m[e - 1] + 3,
                forall|e: int| 0 <= e < m.len() ==> 0 <= #[trigger] m[e] && m[e] + 3 <= i as int,
                forall|x: int|
                    x < i && !in_scanned(m, x, 3) ==> !srt_block_shape(split_nl(text@), x),
            decreases n - i,
        {
            let ghost glines = split_nl(text@);
            let mut matched = false;
            if n - i > 3 {
                let k = trailing_run_len(&lines[i]);
                if k > 0 {
                    let pair = match read_time_pair(&lines[i + 1], 0, false, true) {
                        Ok(v) => v,
                        Err(e) => {
                            return Err(e);
                        },
                    };
                    match pair {
                        Some(t) => {
                            let line_len = lines[i].as_str().unicode_len();
                            let (_, id_opt) = read_digit_run(&lines[i], line_len - k);
                            let id = match id_opt {
                                Some(v) => v,
                                None => {
                                    return Err(IngestError::NumberOutOfRange);
                                },
                            };
                            proof {
                                lemma_run_len_exact(
                                    lines@[i as int]@,
                                    line_len - k,
                                    line_len as int,
                                );
                                assert(lines@[i as int]@.subrange(
                                    line_len - k,
                                    line_len - k + spec_run_len(lines@[i as int]@, line_len - k),
                                ) =~= lines@[i as int]@.subrange(line_len - k, line_len as int));
                            }
                            segments.push(
                                SrtSegment {
                                    id,
                                    start: SrtTime {
                                        hours: t.0,
                                        minutes: t.1,
                                        seconds: t.2,
                                        millis: t.3,
                                    },
                                    end: SrtTime {
                                        hours: t.4,
                                        minutes: t.5,
                                        seconds: t.6,
                                        millis: t.7,
                                    },
                                    text: lines[i + 2].clone(),
                                },
                            );
                            proof {
                                let gm = m;
                                m = m.push(i as int);
                                assert(m[m.len() - 1] == i as int);
                                assert(glines[i as int] == lines@[i as int]@);
                                assert(glines[i + 1] == lines@[i + 1]@);
                                assert(glines[i + 2] == lines@[i + 2]@);
                                assert(srt_seg_at(
                                    glines,
                                    i as int,
                                    segments@[segments@.len() - 1],
                                )) by {
                                    reveal(srt_seg_at);
                                    reveal(srt_block_shape);
                                }
                                assert forall|e: int| 0 <= e < m.len() implies srt_seg_at(
                                    glines,
                                    #[trigger] m[e],
                                    segments@[e],
                                ) by {
                                    if e < gm.len() {
                                        assert(m[e] == gm[e]);
                                    }
                                }
                                assert forall|x: int|
                                    x < i + 3 && !in_scanned(m, x, 3) implies !srt_block_shape(
                                    glines,
                                    x,
                                ) by {
                                    if x < i {
                                        assert(!in_scanned(gm, x, 3)) by {
                                            if in_scanned(gm, x, 3) {
                                                let e = choose|e: int|
                                                    0 <= e < gm.len() && #[trigger] gm[e] <= x < gm[e]
                                                        + 3;
                                                assert(m[e] == gm[e]);
                                            }
                                        }
                                    } else {
                                        assert(m[m.len() - 1] <= x < m[m.len() - 1] + 3);
                                    }
                                }
                            }
                            matched = true;
                            i = i + 3;
                        },
                        None => {
                            proof {
                                assert(glines[i + 1] == lines@[i + 1]@);
                                assert(!srt_block_shape(glines, i as int)) by {
                                    reveal(srt_block_shape);
                                }
                            }
                        },
                    }
                } else {
                    proof {
                        assert(glines[i as int] == lines@[i as int]@);
                        assert(!srt_block_shape(glines, i as int)) by {
                            reveal(srt_block_shape);
                        }
                    }
                }
            } else {
                proof {
                    assert(!srt_block_shape(glines, i as int)) by {
                        reveal(srt_block_shape);
                    }
                }
            }
            if !matched {
                proof {
                    assert(!srt_block_shape(glines, i as int));
                }
                i = i + 1;
            }
        }
        if segments.len() == 0 {
            proof {
                assert(srt_no_blocks(text@)) by {
                    reveal(srt_no_blocks);
                    assert forall|x: int| !(#[trigger] srt_block_shape(split_nl(text@), x)) by {
                        if 0 <= x < n as int {
                            assert(!in_scanned(m, x, 3));
                        } else {
                            assert(!srt_block_shape(split_nl(text@), x)) by {
                                reveal(srt_block_shape);
                            }
                        }
                    }
                }
            }
            Err(IngestError::NoSegments)
        } else {
            proof {
                assert forall|x: int| !in_scanned(m, x, 3) implies !(#[trigger] srt_block_shape(
                    split_nl(text@),
                    x,
                )) by {
                    if !(0 <= x < n as int) {
                        assert(!srt_block_shape(split_nl(text@), x)) by {
                            reveal(srt_block_shape);
                        }
                    }
                }
                assert(srt_scan_witness(split_nl(text@), m, segments@)) by {
                    reveal(srt_scan_witness);
                }
                assert(srt_parse_ok(text@, segments@)) by {
                    reveal(srt_parse_ok);
                }
            }
            Ok(SrtFile { segments })
        }
    }

    /// The word stream of the parsed blocks, in order: each block
    /// contributes the whitespace tokens of its text line, every token
    /// carrying the block's start and end converted to milliseconds.
    pub fn into_words(self) -> (r: Vec<Word>)
        ensures
            exists|parts: Seq<Seq<Word>>|
                {
                    &&& parts.len() == self.segments@.len()
                    &&& #[trigger] concat_words(parts) == r@
                    &&& forall|x: int|
                        0 <= x < parts.len() ==> timed_tokens(
                            #[trigger] parts[x],
                            self.segments@[x].text@,
                            Some(
                                (spec_in_millis(
                                    self.segments@[x].start.hours,
                                    self.segments@[x].start.minutes,
                                    self.segments@[x].start.seconds,
                                    self.segments@[x].start.millis,
                                )) as u64,
                            ),
                            Some(
                                (spec_in_millis(
                                    self.segments@[x].end.hours,
                                    self.segments@[x].end.minutes,
                                    self.segments@[x].end.seconds,
                                    self.segments@[x].end.millis,
                                )) as u64,
                            ),
                        )
                },
    {
        let ghost g_segments = self.segments@;
        let mut segs: Vec<(String, Option<u64>, Option<u64>)> = Vec::new();
        let mut segments = self.segments;
        while segments.len() > 0
            invariant
                segs@.len() + segments@.len() == g_segments.len(),
                segments@ == g_segments.skip(segs@.len() as int),
                forall|x: int|
                    0 <= x < segs@.len() ==> (#[trigger] segs@[x]).0 == g_segments[x].text
                        && segs@[x].1 == Some(
                        (spec_in_millis(
                            g_segments[x].start.hours,
                            g_segments[x].start.minutes,
                            g_segments[x].start.seconds,
                            g_segments[x].start.millis,
                        )) as u64,
                    ) && segs@[x].2 == Some(
                        (spec_in_millis(
                            g_segments[x].end.hours,
                            g_segments[x].end.minutes,
                            g_segments[x].end.seconds,
                            g_segments[x].end.millis,
                        )) as u64,
                    ),
            decreases segments@.len(),
        {
            let ghost k = segs@.len() as int;
            let seg = segments.remove(0);
            proof {
                assert(g_segments.skip(k)[0] == g_segments[k]);
                assert(g_segments.skip(k).drop_first() =~= g_segments.skip(k + 1));
            }
            let start = seg.start.in_millis();
            let end = seg.end.in_millis();
            segs.push((seg.text, Some(start), Some(end)));
        }
        let r = words_from_segments(segs);
        proof {
            let parts = choose|parts: Seq<Seq<Word>>|
                {
                    &&& parts.len() == segs@.len()
                    &&& #[trigger] concat_words(parts) == r@
                    &&& forall|x: int|
                        0 <= x < parts.len() ==> (#[trigger] parts[x]).len() == split_ws(
                            segs@[x].0@,
                        ).len() && (forall|j: int|
                            0 <= j < parts[x].len() ==> (#[trigger] parts[x][j]).word@ == split_ws(
                                segs@[x].0@,
                            )[j] && parts[x][j].start_ms == segs@[x].1 && parts[x][j].end_ms
                                == segs@[x].2)
                };
            assert forall|x: int| 0 <= x < parts.len() implies timed_tokens(
                #[trigger] parts[x],
                g_segments[x].text@,
                Some(
                    (spec_in_millis(
                        g_segments[x].start.hours,
                        g_segments[x].start.minutes,
                        g_segments[x].start.seconds,
                        g_segments[x].start.millis,
                    )) as u64,
                ),
                Some(
                    (spec_in_millis(
                        g_segments[x].end.hours,
                        g_segments[x].end.minutes,
                        g_segments[x].end.seconds,
                        g_segments[x].end.millis,
                    )) as u64,
                ),
            ) by {
                assert(segs@[x].0@ == g_segments[x].text@);
            }
        }
        r
    }
}

/// A caption block matches at line i: a full time pair begins at some
/// offset of the line and reaches its end, and a terminated text line
/// follows.
#[verifier::opaque]
pub open spec fn sbv_block_shape(lines: Seq<Seq<char>>, i: int) -> bool {
    &&& 0 <= i
    &&& i + 2 < lines.len()
    &&& exists|o: int|
        0 <= o <= lines[i].len() && #[trigger] spec_pair_shape(lines[i], o, true, false)
}

/// The segment a matching caption block carries: the time fields of some
/// matching offset, and the next line as text.
#[verifier::opaque]
pub open spec fn sbv_seg_at(lines: Seq<Seq<char>>, i: int, seg: SbvSegment) -> bool {
    &&& sbv_block_shape(lines, i)
    &&& exists|o: int|
        {
            let f1 = spec_ts_fields(lines[i], o);
            let f2 = spec_ts_fields(lines[i], spec_pair_mid(lines[i], o, true, false));
            &&& 0 <= o <= lines[i].len()
            &&& #[trigger] spec_pair_shape(lines[i], o, true, false)
            &&& seg.start.hours == f1.0 && seg.start.minutes == f1.1 && seg.start.seconds == f1.2
                && seg.start.millis == f1.3
            &&& seg.end.hours == f2.0 && seg.end.minutes == f2.1 && seg.end.seconds == f2.2
                && seg.end.millis == f2.3
        }
    &&& seg.text@ == lines[i + 1]
}

/// The matched blocks of a left-to-right caption scan.
#[verifier::opaque]
pub open spec fn sbv_scan_witness(
    lines: Seq<Seq<char>>,
    m: Seq<int>,
    segs: Seq<SbvSegment>,
) -> bool {
    &&& m.len() == segs.len()
    &&& forall|e: int| 0 <= e < m.len() ==> sbv_seg_at(lines, #[trigger] m[e], segs[e])
    &&& forall|e: int| 0 < e < m.len() ==> #[trigger] m[e] >= m[e - 1] + 2
    &&& forall|i: int| !in_scanned(m, i, 2) ==> !sbv_block_shape(lines, i)
}

/// Some scan of the text yields exactly these caption blocks.
#[verifier::opaque]
pub open spec fn sbv_parse_ok(text: Seq<char>, segs: Seq<SbvSegment>) -> bool {
    exists|m: Seq<int>| #[trigger] sbv_scan_witness(split_nl(text), m, segs)
}

impl SbvFile {
    /// Scans one caption line for a time pair, trying each start offset in
    /// turn.
    fn scan_time_line(line: &String) -> (r: Result<
        Option<(u32, u32, u32, u32, u32, u32, u32, u32)>,
        IngestError,
    >)
        ensures
            match r {
                Ok(Some(t)) => exists|o: int|
                    {
                        let f1 = spec_ts_fields(line@, o);
                        let f2 = spec_ts_fields(line@, spec_pair_mid(line@, o, true, false));
                        &&& 0 <= o <= line@.len()
                        &&& #[trigger] spec_pair_shape(line@, o, true, false)
                        &&& t.0 == f1.0 && t.1 == f1.1 && t.2 == f1.2 && t.3 == f1.3
                        &&& t.4 == f2.0 && t.5 == f2.1 && t.6 == f2.2 && t.7 == f2.3
                    },
                Ok(None) => forall|o: int|
                    0 <= o <= line@.len() ==> !(#[trigger] spec_pair_shape(line@, o, true, false)),
                Err(e) => e == IngestError::NumberOutOfRange,
            },
    {
        let len = line.as_str().unicode_len();
        let mut o: usize = 0;
        while o < len
            invariant
                o <= len,
                len == line@.len(),
                forall|o2: int| 0 <= o2 < o ==> !(#[trigger] spec_pair_shape(line@, o2, true, false)),
            decreases len - o,
        {
            let pair = match read_time_pair(line.as_str(), o, true, false) {
                Ok(v) => v,
                Err(e) => {
                    return Err(e);
                },
            };
            match pair {
                Some(t) => {
                    return Ok(Some(t));
                },
                None => {},
            }
            o = o + 1;
        }
        proof {
            // at the line's very end no timestamp can begin
            assert(spec_run_len(line@, line@.len() as int) == 0);
            assert(!spec_pair_shape(line@, line@.len() as int, true, false));
        }
        Ok(None)
    }

    /// Scans caption text left to right for blocks: a line holding one full
    /// time pair `start,end` at some offset, then a terminated line of
    /// text; a match consumes both lines, any other line is skipped. The
    /// character between the seconds and the milliseconds may be anything,
    /// as in the format's loose notation.
    #[verifier::rlimit(100)]
    pub fn parse(text: &str) -> (r: Result<SbvFile, IngestError>)
        ensures
            match r {
                Ok(f) => sbv_parse_ok(text@, f.segments@),
                Err(e) => e == IngestError::NumberOutOfRange,
            },
    {
        let lines = split_lines(text);
        let n = lines.len();
        let mut segments: Vec<SbvSegment> = Vec::new();
        let ghost mut m: Seq<int> = Seq::empty();
        let mut i: usize = 0;
        proof {
            assert forall|x: int| x < 0 implies !(#[trigger] sbv_block_shape(
                split_nl(text@),
                x,
            )) by {
                reveal(sbv_block_shape);
            }
        }
        while i < n
            invariant
                i <= n,
                n == lines@.len(),
                lines@.len() == split_nl(text@).len(),
                forall|t: int| 0 <= t < lines@.len() ==> (#[trigger] lines@[t])@ == split_nl(
                    text@,
                )[t],
                m.len() == segments@.len(),
                forall|e: int| 0 <= e < m.len() ==> sbv_seg_at(
                    split_nl(text@),
                    #[trigger] m[e],
                    segments@[e],
                ),
                forall|e: int| 0 < e < m.len() ==> #[trigger] m[e] >= m[e - 1] + 2,
                forall|e: int| 0 <= e < m.len() ==> 0 <= #[trigger] m[e] && m[e] + 2 <= i as int,
                forall|x: int|
                    x < i && !in_scanned(m, x, 2) ==> !sbv_block_shape(split_nl(text@), x),
            decreases n - i,
        {
            let ghost glines = split_nl(text@);
            let mut matched = false;
            if n - i > 2 {
                let pair = match Self::scan_time_line(&lines[i]) {
                    Ok(v) => v,
                    Err(e) => {
                        return Err(e);
                    },
                };
                match pair {
                    Some(t) => {
                        segments.push(
                            SbvSegment {
                                start: SbvTime {
                                    hours: t.0,
                                    minutes: t.1,
                                    seconds: t.2,
                                    millis: t.3,
                                },
                                end: SbvTime {
                                    hours: t.4,
                                    minutes: t.5,
                                    seconds: t.6,
                                    millis: t.7,
                                },
                                text: lines[i + 1].clone(),
                            },
                        );
                        proof {
                            let gm = m;
                            m = m.push(i as int);
                            assert(m[m.len() - 1] == i as int);
                            assert(glines[i as int] == lines@[i as int]@);
                            assert(glines[i + 1] == lines@[i + 1]@);
                            assert(sbv_seg_at(glines, i as int, segments@[segments@.len() - 1]))
                                by {
                                reveal(sbv_seg_at);
                                reveal(sbv_block_shape);
                            }
                            assert forall|e: int| 0 <= e < m.len() implies sbv_seg_at(
                                glines,
                                #[trigger] m[e],
                                segments@[e],
                            ) by {
                                if e < gm.len() {
                                    assert(m[e] == gm[e]);
                                }
                            }
                            assert forall|x: int|
                                x < i + 2 && !in_scanned(m, x, 2) implies !sbv_block_shape(
                                glines,
                                x,
                            ) by {
                                if x < i {
                                    assert(!in_scanned(gm, x, 2)) by {
                                        if in_scanned(gm, x, 2) {
                                            let e = choose|e: int|
                                                0 <= e < gm.len() && #[trigger] gm[e] <= x < gm[e]
                                                    + 2;
                                            assert(m[e] == gm[e]);
                                        }
                                    }
                                } else {
                                    assert(m[m.len() - 1] <= x < m[m.len() - 1] + 2);
                                }
                            }
                        }
                        matched = true;
                        i = i + 2;
                    },
                    None => {
                        proof {
                            assert(!sbv_block_shape(glines, i as int)) by {
                                reveal(sbv_block_shape);
                                assert forall|o: int|
                                    0 <= o <= glines[i as int].len() implies !(
                                #[trigger] spec_pair_shape(glines[i as int], o, true, false)) by {
                                    assert(glines[i as int] == lines@[i as int]@);
                                }
                            }
                        }
                    },
                }
            } else {
                proof {
                    assert(!sbv_block_shape(glines, i as int)) by {
                        reveal(sbv_block_shape);
                    }
                }
            }
            if !matched {
                proof {
                    assert(!sbv_block_shape(glines, i as int));
                }
                i = i + 1;
            }
        }
        proof {
            assert forall|x: int| !in_scanned(m, x, 2) implies !(#[trigger] sbv_block_shape(
                split_nl(text@),
                x,
            )) by {
                if !(0 <= x < n as int) {
                    assert(!sbv_block_shape(split_nl(text@), x)) by {
                        reveal(sbv_block_shape);
                    }
                }
            }
            assert(sbv_scan_witness(split_nl(text@), m, segments@)) by {
                reveal(sbv_scan_witness);
            }
            assert(sbv_parse_ok(text@, segments@)) by {
                reveal(sbv_parse_ok);
            }
        }
        Ok(SbvFile { segments })
    }

    /// The word stream of the parsed blocks, in order: each block
    /// contributes the whitespace tokens of its text line, every token
    /// carrying the block's start and end converted to milliseconds.
    pub fn into_words(self) -> (r: Vec<Word>)
        ensures
            exists|parts: Seq<Seq<Word>>|
                {
                    &&& parts.len() == self.segments@.len()
                    &&& #[trigger] concat_words(parts) == r@
                    &&& forall|x: int|
                        0 <= x < parts.len() ==> timed_tokens(
                            #[trigger] parts[x],
                            self.segments@[x].text@,
                            Some(
                                (spec_in_millis(
                                    self.segments@[x].start.hours,
                                    self.segments@[x].start.minutes,
                                    self.segments@[x].start.seconds,
                                    self.segments@[x].start.millis,
                                )) as u64,
                            ),
                            Some(
                                (spec_in_millis(
                                    self.segments@[x].end.hours,
                                    self.segments@[x].end.minutes,
                                    self.segments@[x].end.seconds,
                                    self.segments@[x].end.millis,
                                )) as u64,
                            ),
                        )
                },
    {
        let ghost g_segments = self.segments@;
        let mut segs: Vec<(String, Option<u64>, Option<u64>)> = Vec::new();
        let mut segments = self.segments;
        while segments.len() > 0
            invariant
                segs@.len() + segments@.len() == g_segments.len(),
                segments@ == g_segments.skip(segs@.len() as int),
                forall|x: int|
                    0 <= x < segs@.len() ==> (#[trigger] segs@[x]).0 == g_segments[x].text
                        && segs@[x].1 == Some(
                        (spec_in_millis(
                            g_segments[x].start.hours,
                            g_segments[x].start.minutes,
                            g_segments[x].start.seconds,
                            g_segments[x].start.millis,
                        )) as u64,
                    ) && segs@[x].2 == Some(
                        (spec_in_millis(
                            g_segments[x].end.hours,
                            g_segments[x].end.minutes,
                            g_segments[x].end.seconds,
                            g_segments[x].end.millis,
                        )) as u64,
                    ),
            decreases segments@.len(),
        {
            let ghost k = segs@.len() as int;
            let seg = segments.remove(0);
            proof {
                assert(g_segments.skip(k)[0] == g_segments[k]);
                assert(g_segments.skip(k).drop_first() =~= g_segments.skip(k + 1));
            }
            let start = seg.start.in_millis();
            let end = seg.end.in_millis();
            segs.push((seg.text, Some(start), Some(end)));
        }
        let r = words_from_segments(segs);
        proof {
            let parts = choose|parts: Seq<Seq<Word>>|
                {
                    &&& parts.len() == segs@.len()
                    &&& #[trigger] concat_words(parts) == r@
                    &&& forall|x: int|
                        0 <= x < parts.len() ==> (#[trigger] parts[x]).len() == split_ws(
                            segs@[x].0@,
                        ).len() && (forall|j: int|
                            0 <= j < parts[x].len() ==> (#[trigger] parts[x][j]).word@ == split_ws(
                                segs@[x].0@,
                            )[j] && parts[x][j].start_ms == segs@[x].1 && parts[x][j].end_ms
                                == segs@[x].2)
                };
            assert forall|x: int| 0 <= x < parts.len() implies timed_tokens(
                #[trigger] parts[x],
                g_segments[x].text@,
                Some(
                    (spec_in_millis(
                        g_segments[x].start.hours,
                        g_segments[x].start.minutes,
                        g_segments[x].start.seconds,
                        g_segments[x].start.millis,
                    )) as u64,
                ),
                Some(
                    (spec_in_millis(
                        g_segments[x].end.hours,
                        g_segments[x].end.minutes,
                        g_segments[x].end.seconds,
                        g_segments[x].end.millis,
                    )) as u64,
                ),
            ) by {
                assert(segs@[x].0@ == g_segments[x].text@);
            }
        }
        r
    }
}

/// The words of an aligned word list: one word per token, times carried
/// through unchanged.
pub fn words_from_tokens(tokens: Vec<(String, Option<u64>, Option<u64>)>) -> (r: Vec<Word>)
    ensures
        r@.len() == tokens@.len(),
        forall|j: int|
            0 <= j < r@.len() ==> (#[trigger] r@[j]).word == tokens@[j].0 && r@[j].start_ms
                == tokens@[j].1 && r@[j].end_ms == tokens@[j].2,
{
    let mut r: Vec<Word> = Vec::new();
    let mut tokens = tokens;
    let ghost g_tokens = tokens@;
    while tokens.len() > 0
        invariant
            tokens@.len() + r@.len() == g_tokens.len(),
            tokens@ == g_tokens.skip(r@.len() as int),
            forall|j: int|
                0 <= j < r@.len() ==> (#[trigger] r@[j]).word == g_tokens[j].0 && r@[j].start_ms
                    == g_tokens[j].1 && r@[j].end_ms == g_tokens[j].2,
        decreases tokens@.len(),
    {
        let ghost k = r@.len() as int;
        let t = tokens.remove(0);
        proof {
            assert(g_tokens.skip(k)[0] == g_tokens[k]);
            assert(g_tokens.skip(k).drop_first() =~= g_tokens.skip(k + 1));
        }
        r.push(Word::new(t.0, t.1, t.2));
    }
    r
}

} // verus!
