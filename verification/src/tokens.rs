//! Collecting whitespace-separated values across lines, as the IES format lays
//! out its numbers: as many per line as the line holds, continued on the next.
use vstd::prelude::*;
use crate::loader::IesLoaderError;
use crate::text::{
    char_rows, concat_chars, decimal, decimal_chars, split_words, str_chars, string_from_chars, trim,
    trim_chars, words,
};

verus! {

/// Whether a `Vec` whose elements take three machine words (a `String`, a `Vec`)
/// can be made with capacity `n`: `Vec::with_capacity` panics where `n` such
/// elements would exceed `isize::MAX` bytes.
pub open spec fn vec_capacity_fits(n: int) -> bool {
    n <= (isize::MAX as int) / (3 * (usize::BITS as int / 8))
}

/// The positions of the first `n` words of line `line`.
pub open spec fn line_positions(line: int, n: int) -> Seq<(usize, usize)> {
    Seq::new(n as nat, |k: int| (line as usize, k as usize))
}

/// Reading `need` words from the lines at and after line `idx`, where line `i`
/// holds `counts[i]` words: the positions (line, word) of the words read, in
/// order; the line after the last line read; and how many words were still
/// missing when the lines ran out (0 when all were found).
pub open spec fn token_span(counts: Seq<usize>, idx: int, need: int) -> (
    Seq<(usize, usize)>,
    int,
    int,
)
    decreases counts.len() - idx,
{
    if need <= 0 {
        (seq![], idx, 0)
    } else if idx < 0 || idx >= counts.len() {
        (seq![], idx, need)
    } else if counts[idx] as int >= need {
        (line_positions(idx, need), idx + 1, 0)
    } else {
        let (rest, j, missing) = token_span(counts, idx + 1, need - counts[idx] as int);
        (line_positions(idx, counts[idx] as int) + rest, j, missing)
    }
}

/// The words of a line of text: those of the line with its surrounding white space trimmed.
pub open spec fn line_words(l: Seq<char>) -> Seq<Seq<char>> {
    words(trim(l))
}

/// The number of words of each line of a word table.
pub open spec fn word_counts(wt: Seq<Seq<Seq<char>>>) -> Seq<usize> {
    wt.map_values(|w: Seq<Seq<char>>| w.len() as usize)
}

/// The views of a slice of string slices.
pub open spec fn str_rows(lines: Seq<&str>) -> Seq<Seq<char>> {
    lines.map_values(|l: &str| l@)
}

/// The views of a vector of strings.
pub open spec fn string_rows(v: Seq<String>) -> Seq<Seq<char>> {
    v.map_values(|s: String| s@)
}

/// The words at the given positions of a word table.
pub open spec fn words_at(wt: Seq<Seq<Seq<char>>>, ps: Seq<(usize, usize)>) -> Seq<Seq<char>> {
    ps.map_values(|p: (usize, usize)| wt[p.0 as int][p.1 as int])
}

/// The message of the error for values missing at the end of the file.
pub open spec fn eof_message(missing: int) -> Seq<char> {
    "Unexpected end of file, expected "@ + decimal(missing as nat) + " more values"@
}

pub fn eof_message_chars(missing: usize) -> (v: Vec<char>)
    ensures
        v@ == eof_message(missing as int),
{
    let a = str_chars("Unexpected end of file, expected ");
    let b = decimal_chars(missing as u64);
    let c = str_chars(" more values");
    let ab = concat_chars(&a, &b);
    concat_chars(&ab, &c)
}

/// The positions of the words read: `token_span` computed.
pub fn take_positions(counts: &Vec<usize>, idx: usize, need: usize) -> (r: (
    Vec<(usize, usize)>,
    usize,
    usize,
))
    ensures
        r.0@ == token_span(counts@, idx as int, need as int).0,
        r.1 == token_span(counts@, idx as int, need as int).1,
        r.2 == token_span(counts@, idx as int, need as int).2,
{
    if need == 0 {
        let v: Vec<(usize, usize)> = Vec::new();
        assert(v@ =~= seq![]);
        return (v, idx, 0);
    }
    if idx >= counts.len() {
        return (Vec::new(), idx, need);
    }
    let mut pos: Vec<(usize, usize)> = Vec::new();
    let mut i = idx;
    let mut got: usize = 0;
    while got < need
        invariant
            idx <= i <= counts@.len(),
            got <= need,
            token_span(counts@, idx as int, need as int).0 == pos@ + token_span(
                counts@,
                i as int,
                need - got,
            ).0,
            token_span(counts@, idx as int, need as int).1 == token_span(
                counts@,
                i as int,
                need - got,
            ).1,
            token_span(counts@, idx as int, need as int).2 == token_span(
                counts@,
                i as int,
                need - got,
            ).2,
        decreases counts@.len() - i,
    {
        if i >= counts.len() {
            assert(pos@ + seq![] =~= pos@);
            return (pos, i, need - got);
        }
        let c = counts[i];
        let rem = need - got;
        let take = if c >= rem {
            rem
        } else {
            c
        };
        let ghost old_pos = pos@;
        for k in 0..take
            invariant
                pos@ == old_pos + line_positions(i as int, k as int),
        {
            pos.push((i, k));
            assert(pos@ =~= old_pos + line_positions(i as int, k + 1));
        }
        let ghost rest = token_span(counts@, i + 1, rem - take);
        if c >= rem {
            assert(rest.0 =~= seq![]);
            assert(old_pos + line_positions(i as int, rem as int) + rest.0 =~= pos@ + rest.0);
        } else {
            assert(old_pos + (line_positions(i as int, c as int) + rest.0) =~= pos@ + rest.0);
        }
        got = got + take;
        i = i + 1;
    }
    assert(pos@ + seq![] =~= pos@);
    (pos, i, 0)
}

/// Collects `count` whitespace-separated values from `lines`, starting at line
/// `*line_idx` and continuing on the following lines; a line is read whole, and
/// what it holds beyond the values wanted is passed over. `*line_idx` is left at
/// the line after the last line read.
pub fn tokenize_from_lines(lines: &[&str], line_idx: &mut usize, count: usize) -> (r: Result<
    Vec<String>,
    IesLoaderError,
>)
    requires
        vec_capacity_fits(count as int),
    ensures
        ({
            let wt = str_rows(lines@).map_values(|l: Seq<char>| line_words(l));
            let span = token_span(word_counts(wt), *old(line_idx) as int, count as int);
            &&& *final(line_idx) == span.1
            &&& span.2 == 0 ==> (r matches Ok(toks) && string_rows(toks@) == words_at(wt, span.0)
                && toks@.len() == count)
            &&& span.2 > 0 ==> (r matches Err(IesLoaderError::Parse(m)) && m@ == eof_message(
                span.2,
            ))
        }),
{
    let ghost wt = str_rows(lines@).map_values(|l: Seq<char>| line_words(l));
    let ghost counts = word_counts(wt);
    let ghost idx0 = *line_idx as int;
    proof {
        lemma_token_span_len(counts, idx0, count as int);
    }
    let mut tokens: Vec<String> = Vec::with_capacity(count);
    if count > 0 && *line_idx >= lines.len() {
        let m = eof_message_chars(count);
        return Err(IesLoaderError::Parse(string_from_chars(&m)));
    }
    let ghost mut taken: Seq<(usize, usize)> = seq![];
    while tokens.len() < count
        invariant
            wt == str_rows(lines@).map_values(|l: Seq<char>| line_words(l)),
            counts == word_counts(wt),
            idx0 == *old(line_idx) as int,
            count > 0 ==> idx0 <= *line_idx <= lines@.len(),
            count == 0 ==> *line_idx == idx0,
            tokens@.len() <= count,
            tokens@.len() == taken.len(),
            string_rows(tokens@) == words_at(wt, taken),
            token_span(counts, idx0, count as int).0 == taken + token_span(
                counts,
                *line_idx as int,
                count - tokens@.len(),
            ).0,
            token_span(counts, idx0, count as int).1 == token_span(
                counts,
                *line_idx as int,
                count - tokens@.len(),
            ).1,
            token_span(counts, idx0, count as int).2 == token_span(
                counts,
                *line_idx as int,
                count - tokens@.len(),
            ).2,
        decreases lines@.len() - *line_idx,
    {
        assert(counts.len() == lines@.len());
        if *line_idx >= lines.len() {
            let m = eof_message_chars(count - tokens.len());
            return Err(IesLoaderError::Parse(string_from_chars(&m)));
        }
        let i = *line_idx;
        let chars = str_chars(lines[i]);
        let t = trim_chars(&chars);
        let ws = split_words(&t);
        assert(char_rows(ws@) == wt[i as int]);
        *line_idx = i + 1;
        let rem = count - tokens.len();
        let c = ws.len();
        let take = if c >= rem {
            rem
        } else {
            c
        };
        let ghost old_taken = taken;
        let ghost old_tokens = tokens@;
        for k in 0..take
            invariant
                take <= ws@.len(),
                ws@.len() == wt[i as int].len(),
                char_rows(ws@) == wt[i as int],
                wt == str_rows(lines@).map_values(|l: Seq<char>| line_words(l)),
                tokens@.len() == old_tokens.len() + k,
                taken == old_taken + line_positions(i as int, k as int),
                string_rows(tokens@) == words_at(wt, taken),
        {
            assert(ws@[k as int]@ == wt[i as int][k as int]);
            let s = string_from_chars(ws[k].as_slice());
            assert(s@ == wt[i as int][k as int]);
            let ghost prev_tokens = tokens@;
            let ghost prev_taken = taken;
            tokens.push(s);
            proof {
                taken = old_taken + line_positions(i as int, k + 1);
                assert(taken =~= prev_taken.push((i, k)));
                assert(tokens@ =~= prev_tokens.push(s));
                assert(string_rows(tokens@) =~= string_rows(prev_tokens).push(s@));
                assert(words_at(wt, taken) =~= words_at(wt, prev_taken).push(wt[i as int][k as int]));
                assert(string_rows(tokens@) =~= words_at(wt, taken));
            }
        }
        let ghost rest = token_span(counts, i + 1, rem - take);
        if c >= rem {
            assert(rest.0 =~= seq![]);
            assert(old_taken + line_positions(i as int, rem as int) + rest.0 =~= taken + rest.0);
        } else {
            assert(old_taken + (line_positions(i as int, c as int) + rest.0) =~= taken + rest.0);
        }
    }
    assert(taken + seq![] =~= taken);
    proof {
        lemma_token_span_len(counts, idx0, count as int);
    }
    Ok(tokens)
}


/// How reading a file ends: with a value, with an error whose message is given,
/// or in a panic of the reader (a capacity that no `Vec` can have, an arithmetic
/// overflow, an index out of range).
pub enum Outcome<T> {
    Value(T),
    Failed(Seq<char>),
    Aborts,
}

/// Why a reader stopped early: an error with its message, or a panic of the reader.
pub enum Halt {
    Failed(Vec<char>),
    Aborts,
}

/// Whether `h` is how the reader whose outcome is `o` stops.
pub open spec fn halts_as<T>(h: Halt, o: Outcome<T>) -> bool {
    match (h, o) {
        (Halt::Failed(m), Outcome::Failed(sm)) => m@ == sm,
        (Halt::Aborts, Outcome::Aborts) => true,
        _ => false,
    }
}

/// Reading `need` values from line `idx` on: the positions read and the line after
/// them; an error where the lines run out; a panic where no `Vec` can hold them.
pub open spec fn take_values_span(counts: Seq<usize>, idx: int, need: int) -> Outcome<
    (Seq<(usize, usize)>, int),
> {
    if !vec_capacity_fits(need) {
        Outcome::Aborts
    } else {
        let sp = token_span(counts, idx, need);
        if sp.2 > 0 {
            Outcome::Failed(eof_message(sp.2))
        } else {
            Outcome::Value((sp.0, sp.1))
        }
    }
}

/// Whether a `Vec` of `n` three-word elements can be made: `vec_capacity_fits` computed.
pub fn capacity_fits(n: usize) -> (r: bool)
    ensures
        r == vec_capacity_fits(n as int),
{
    let element_bytes: usize = 3 * (usize::BITS as usize / 8);
    n <= (isize::MAX as usize) / element_bytes
}

/// The positions read and the line after them, for `take_values_span`.
pub fn take_values(counts: &Vec<usize>, idx: usize, need: usize) -> (r: Result<
    (Vec<(usize, usize)>, usize),
    Halt,
>)
    ensures
        match r {
            Ok((ps, j)) => take_values_span(counts@, idx as int, need as int) == Outcome::Value(
                (ps@, j as int),
            ),
            Err(h) => halts_as(h, take_values_span(counts@, idx as int, need as int)),
        },
{
    if !capacity_fits(need) {
        return Err(Halt::Aborts);
    }
    let (ps, j, missing) = take_positions(counts, idx, need);
    if missing > 0 {
        Err(Halt::Failed(eof_message_chars(missing)))
    } else {
        Ok((ps, j))
    }
}

/// The positions read and the values missing make up the values wanted.
pub proof fn lemma_token_span_len(counts: Seq<usize>, idx: int, need: int)
    requires
        need >= 0,
    ensures
        token_span(counts, idx, need).0.len() + token_span(counts, idx, need).2 == need,
        token_span(counts, idx, need).2 >= 0,
    decreases counts.len() - idx,
{
    if need > 0 && 0 <= idx < counts.len() && (counts[idx] as int) < need {
        lemma_token_span_len(counts, idx + 1, need - counts[idx] as int);
    }
}

/// Every position read lies in the table, and the positions read and the values
/// missing make up the values wanted.
pub proof fn lemma_token_span_in_bounds(counts: Seq<usize>, idx: int, need: int)
    requires
        need >= 0,
        counts.len() <= usize::MAX,
    ensures
        ({
            let sp = token_span(counts, idx, need);
            &&& sp.0.len() + sp.2 == need
            &&& sp.2 >= 0
            &&& forall|k: int|
                0 <= k < sp.0.len() ==> (#[trigger] sp.0[k]).0 < counts.len() && sp.0[k].1
                    < counts[sp.0[k].0 as int]
            &&& (0 <= idx <= counts.len() ==> idx <= sp.1 <= counts.len())
        }),
    decreases counts.len() - idx,
{
    if need <= 0 || idx < 0 || idx >= counts.len() {
    } else if counts[idx] as int >= need {
    } else {
        let c = counts[idx] as int;
        lemma_token_span_in_bounds(counts, idx + 1, need - c);
        let rest = token_span(counts, idx + 1, need - c).0;
        let all = line_positions(idx, c) + rest;
        assert forall|k: int| 0 <= k < all.len() implies (#[trigger] all[k]).0 < counts.len()
            && all[k].1 < counts[all[k].0 as int] by {
            if k >= c {
                assert(all[k] == rest[k - c]);
            }
        }
    }
}


/// Reading `n` values never panics for want of memory where `n` values of three
/// machine words each fit in `isize::MAX` bytes, which is all that
/// `Vec::with_capacity` asks; in particular it never does for `n` up to 2^26,
/// whatever the width of `usize`.
pub proof fn lemma_reading_fits(counts: Seq<usize>, idx: int, n: int)
    requires
        0 <= n,
        n * (3 * (usize::BITS as int / 8)) <= isize::MAX as int || n <= 0x400_0000,
    ensures
        vec_capacity_fits(n),
        !(take_values_span(counts, idx, n) is Aborts),
{
    if usize::BITS == 32 {
        assert(isize::MAX as int == 0x7fff_ffff);
        assert(3 * (usize::BITS as int / 8) == 12);
        assert((isize::MAX as int) / 12 == 0xaaa_aaaa);
    } else {
        assert(usize::BITS == 64);
        assert(isize::MAX as int == 0x7fff_ffff_ffff_ffff);
        assert(3 * (usize::BITS as int / 8) == 24);
        assert((isize::MAX as int) / 24 == 0x555_5555_5555_5555);
    }
}

/// The number of words on lines `a` up to `b` (exclusive).
pub open spec fn words_in(counts: Seq<usize>, a: int, b: int) -> int
    decreases b - a,
{
    if a >= b {
        0
    } else {
        counts[a] as int + words_in(counts, a + 1, b)
    }
}

/// Whether `j` is the line after the values read when `need` values are read from
/// line `a` on, a line at a time: the first line by which `need` words have been
/// seen (`a` itself where nothing is wanted).
pub open spec fn span_ends(counts: Seq<usize>, a: int, need: int, j: int) -> bool {
    &&& a <= j <= counts.len()
    &&& words_in(counts, a, j) >= need
    &&& (need <= 0 ==> j == a)
    &&& (need > 0 ==> j > a && words_in(counts, a, j - 1) < need)
}

/// The entries of the rows of `rows` from row `s` on, one after another.
pub open spec fn flat_from<T>(rows: Seq<Seq<T>>, s: int) -> Seq<T>
    decreases rows.len() - s,
{
    if s < 0 || s >= rows.len() {
        seq![]
    } else {
        rows[s] + flat_from(rows, s + 1)
    }
}

/// Where nothing is missing, reading `need` values from line `a` on stops at the
/// first line by which `need` words have been seen.
pub proof fn lemma_token_span_ends(counts: Seq<usize>, a: int, need: int)
    requires
        0 <= a <= counts.len(),
        need >= 0,
        token_span(counts, a, need).2 == 0,
    ensures
        span_ends(counts, a, need, token_span(counts, a, need).1),
    decreases counts.len() - a,
{
    if need == 0 {
    } else if a >= counts.len() {
    } else if counts[a] as int >= need {
        assert(words_in(counts, a + 1, a + 1) == 0);
        assert(words_in(counts, a, a) == 0);
    } else {
        let c = counts[a] as int;
        lemma_token_span_ends(counts, a + 1, need - c);
    }
}

} // verus!
