//! The IES (IESNA LM-63) photometric file format.
//!
//! After free-form header lines comes a `TILT=` line; with `TILT=INCLUDE` a tilt
//! table follows (a line, then a count and twice that many values). Then come,
//! as whitespace-separated values that may wrap across lines: the lamp line
//! (number of lamps, lumens per lamp, candela multiplier, number of vertical and
//! of horizontal angles, photometric type, units type, width, length, height),
//! three electrical values, the vertical angles, the horizontal angles, and one
//! row of candela values per horizontal angle, each as long as the vertical angles.
use vstd::prelude::*;
use crate::loader::IesLoaderError;
use crate::number::{FloatReading, f32_bits_to_i32, f32_to_i32, i32_literal, parse_i32_literal};
use crate::text::{
    char_rows, concat_chars, lines_of, split_lines, split_words, str_chars, string_from_chars, trim,
    trim_chars, words,
};
use crate::tokens::{
    Halt, Outcome, flat_from, halts_as, lemma_token_span_ends, lemma_token_span_in_bounds,
    lemma_token_span_len, line_positions, span_ends, take_values, take_values_span, token_span,
    word_counts,
};

verus! {

/// The message of the error for a token that is no integer.
pub open spec fn invalid_int_message(s: Seq<char>) -> Seq<char> {
    "Invalid integer: '"@ + s + "'"@
}

/// The message of the error for a token that is no float.
pub open spec fn invalid_float_message(s: Seq<char>) -> Seq<char> {
    "Invalid float: '"@ + s + "'"@
}

/// Reading token `s` as an integer, where reading it as an `f32` gave `reading`:
/// its value as an `i32` literal; else, where it is a float literal, that float
/// truncated to an `i32` (so "1.0" gives 1); else an error.
pub open spec fn int_value(s: Seq<char>, reading: FloatReading) -> Result<i32, Seq<char>> {
    match i32_literal(s) {
        Some(v) => Ok(v),
        None => match reading {
            Some(b) => Ok(f32_to_i32(b)),
            None => Err(invalid_int_message(s)),
        },
    }
}

/// Reading token `s` as a float, where reading it as an `f32` gave `reading`.
pub open spec fn float_value(s: Seq<char>, reading: FloatReading) -> Result<u32, Seq<char>> {
    match reading {
        Some(b) => Ok(b),
        None => Err(invalid_float_message(s)),
    }
}

fn quoted_message(prefix: &str, s: &[char]) -> (v: Vec<char>)
    ensures
        v@ == prefix@ + s@ + "'"@,
{
    let a = str_chars(prefix);
    let b = concat_chars(&a, s);
    let q = str_chars("'");
    concat_chars(&b, &q)
}

fn int_value_exec(s: &[char], reading: FloatReading) -> (r: Result<i32, Vec<char>>)
    ensures
        match r {
            Ok(v) => int_value(s@, reading) == Ok::<i32, Seq<char>>(v),
            Err(m) => int_value(s@, reading) == Err::<i32, Seq<char>>(m@),
        },
{
    match parse_i32_literal(s) {
        Some(v) => Ok(v),
        None => match reading {
            Some(b) => Ok(f32_bits_to_i32(b)),
            None => Err(quoted_message("Invalid integer: '", s)),
        },
    }
}

fn float_value_exec(s: &[char], reading: FloatReading) -> (r: Result<u32, Vec<char>>)
    ensures
        match r {
            Ok(v) => float_value(s@, reading) == Ok::<u32, Seq<char>>(v),
            Err(m) => float_value(s@, reading) == Err::<u32, Seq<char>>(m@),
        },
{
    match reading {
        Some(b) => Ok(b),
        None => Err(quoted_message("Invalid float: '", s)),
    }
}

/// Reads the integer field `s` of an IES file, where `reading` is what reading `s`
/// as an `f32` gave (`s.parse::<f32>()`, as bits): an integer literal gives its
/// value, a float literal that value truncated (as `as i32` does), anything else
/// an error.
pub fn parse_int(s: &str, reading: FloatReading) -> (r: Result<i32, IesLoaderError>)
    ensures
        match int_value(s@, reading) {
            Ok(v) => r matches Ok(w) && w == v,
            Err(m) => r matches Err(IesLoaderError::Parse(e)) && e@ == m,
        },
{
    let chars = str_chars(s);
    match int_value_exec(&chars, reading) {
        Ok(v) => Ok(v),
        Err(m) => Err(IesLoaderError::Parse(string_from_chars(&m))),
    }
}

/// Reads the float field `s` of an IES file, where `reading` is what reading `s`
/// as an `f32` gave: the value's bits, or an error where `s` is no float literal.
pub fn parse_float(s: &str, reading: FloatReading) -> (r: Result<u32, IesLoaderError>)
    ensures
        match float_value(s@, reading) {
            Ok(v) => r matches Ok(w) && w == v,
            Err(m) => r matches Err(IesLoaderError::Parse(e)) && e@ == m,
        },
{
    let chars = str_chars(s);
    match float_value_exec(&chars, reading) {
        Ok(v) => Ok(v),
        Err(m) => Err(IesLoaderError::Parse(string_from_chars(&m))),
    }
}


/// The lines of an IES text, each with its surrounding white space trimmed.
pub open spec fn ies_trimmed_lines(text: Seq<char>) -> Seq<Seq<char>> {
    lines_of(text).map_values(|l: Seq<char>| trim(l))
}

/// The whitespace-separated words of each line of an IES text.
pub open spec fn ies_word_table(text: Seq<char>) -> Seq<Seq<Seq<char>>> {
    ies_trimmed_lines(text).map_values(|t: Seq<char>| words(t))
}

/// Whether `rd` holds one float reading for each word of each line of `wt`.
pub open spec fn readings_fit(wt: Seq<Seq<Seq<char>>>, rd: Seq<Seq<FloatReading>>) -> bool {
    &&& rd.len() == wt.len()
    &&& forall|i: int| 0 <= i < wt.len() ==> #[trigger] rd[i].len() == wt[i].len()
}

/// The views of a table of float readings.
pub open spec fn reading_rows(rd: Seq<Vec<FloatReading>>) -> Seq<Seq<FloatReading>> {
    rd.map_values(|r: Vec<FloatReading>| r@)
}

/// The views of a table of words.
pub open spec fn word_table_view(wt: Seq<Vec<Vec<char>>>) -> Seq<Seq<Seq<char>>> {
    wt.map_values(|l: Vec<Vec<char>>| char_rows(l@))
}

/// The views of a vector of rows of values.
pub open spec fn u32_rows(v: Seq<Vec<u32>>) -> Seq<Seq<u32>> {
    v.map_values(|r: Vec<u32>| r@)
}

/// The word at position `p` read as an integer.
pub open spec fn int_at(wt: Seq<Seq<Seq<char>>>, rd: Seq<Seq<FloatReading>>, p: (usize, usize)) -> Result<i32, Seq<char>> {
    int_value(wt[p.0 as int][p.1 as int], rd[p.0 as int][p.1 as int])
}

/// The word at position `p` read as a float.
pub open spec fn float_at(wt: Seq<Seq<Seq<char>>>, rd: Seq<Seq<FloatReading>>, p: (usize, usize)) -> Result<u32, Seq<char>> {
    float_value(wt[p.0 as int][p.1 as int], rd[p.0 as int][p.1 as int])
}

/// The words at positions `ps` read as floats, in order; the first failure stops the reading.
pub open spec fn floats_at(
    wt: Seq<Seq<Seq<char>>>,
    rd: Seq<Seq<FloatReading>>,
    ps: Seq<(usize, usize)>,
) -> Result<Seq<u32>, Seq<char>>
    decreases ps.len(),
{
    if ps.len() == 0 {
        Ok(seq![])
    } else {
        match float_at(wt, rd, ps[0]) {
            Err(m) => Err(m),
            Ok(b) => match floats_at(wt, rd, ps.drop_first()) {
                Ok(r) => Ok(seq![b] + r),
                Err(m) => Err(m),
            },
        }
    }
}

/// `o` followed by what `r` read, or the failure of `r`.
pub open spec fn prepend_floats(o: Seq<u32>, r: Result<Seq<u32>, Seq<char>>) -> Result<
    Seq<u32>,
    Seq<char>,
> {
    match r {
        Ok(v) => Ok(o + v),
        Err(m) => Err(m),
    }
}

/// Reading `n` float values from line `idx` on: the values and the line after them.
pub open spec fn read_floats(wt: Seq<Seq<Seq<char>>>, rd: Seq<Seq<FloatReading>>, idx: int, n: int) -> Outcome<(Seq<u32>, int)> {
    match take_values_span(word_counts(wt), idx, n) {
        Outcome::Value((ps, j)) => match floats_at(wt, rd, ps) {
            Ok(v) => Outcome::Value((v, j)),
            Err(m) => Outcome::Failed(m),
        },
        Outcome::Failed(m) => Outcome::Failed(m),
        Outcome::Aborts => Outcome::Aborts,
    }
}

/// Reading `rows` rows of `n` float values each from line `idx` on.
pub open spec fn read_rows(
    wt: Seq<Seq<Seq<char>>>,
    rd: Seq<Seq<FloatReading>>,
    idx: int,
    rows: nat,
    n: int,
) -> Outcome<(Seq<Seq<u32>>, int)>
    decreases rows,
{
    if rows == 0 {
        Outcome::Value((seq![], idx))
    } else {
        match read_floats(wt, rd, idx, n) {
            Outcome::Value((row, j)) => match read_rows(wt, rd, j, (rows - 1) as nat, n) {
                Outcome::Value((rs, k)) => Outcome::Value((seq![row] + rs, k)),
                Outcome::Failed(m) => Outcome::Failed(m),
                Outcome::Aborts => Outcome::Aborts,
            },
            Outcome::Failed(m) => Outcome::Failed(m),
            Outcome::Aborts => Outcome::Aborts,
        }
    }
}

/// `o` followed by the rows that `x` read, or how `x` stopped.
pub open spec fn prepend_rows(o: Seq<Seq<u32>>, x: Outcome<(Seq<Seq<u32>>, int)>) -> Outcome<
    (Seq<Seq<u32>>, int),
> {
    match x {
        Outcome::Value((rs, k)) => Outcome::Value((o + rs, k)),
        Outcome::Failed(m) => Outcome::Failed(m),
        Outcome::Aborts => Outcome::Aborts,
    }
}

/// What the exec table arguments of the readers below stand for.
pub open spec fn table_ok(
    wt: Seq<Vec<Vec<char>>>,
    rd: Seq<Vec<FloatReading>>,
    counts: Seq<usize>,
) -> bool {
    &&& readings_fit(word_table_view(wt), reading_rows(rd))
    &&& counts == word_counts(word_table_view(wt))
}

fn read_floats_exec(
    wt: &Vec<Vec<Vec<char>>>,
    rd: &Vec<Vec<FloatReading>>,
    counts: &Vec<usize>,
    idx: usize,
    n: usize,
) -> (r: Result<(Vec<u32>, usize), Halt>)
    requires
        table_ok(wt@, rd@, counts@),
    ensures
        match r {
            Ok((v, j)) => read_floats(word_table_view(wt@), reading_rows(rd@), idx as int, n as int)
                == Outcome::Value((v@, j as int)),
            Err(h) => halts_as(
                h,
                read_floats(word_table_view(wt@), reading_rows(rd@), idx as int, n as int),
            ),
        },
{
    let ghost wv = word_table_view(wt@);
    let ghost rv = reading_rows(rd@);
    let (ps, j) = match take_values(counts, idx, n) {
        Ok(x) => x,
        Err(h) => {
            return Err(h);
        },
    };
    let nlines = counts.len();
    proof {
        lemma_token_span_in_bounds(counts@, idx as int, n as int);
    }
    let mut out: Vec<u32> = Vec::new();
    let len = ps.len();
    proof {
        assert(ps@.skip(0) =~= ps@);
        match floats_at(wv, rv, ps@) {
            Ok(v) => {
                assert(out@ + v =~= v);
            },
            Err(m) => {},
        }
    }
    for k in 0..len
        invariant
            len == ps@.len(),
            take_values_span(counts@, idx as int, n as int) == Outcome::Value((ps@, j as int)),
            table_ok(wt@, rd@, counts@),
            wv == word_table_view(wt@),
            rv == reading_rows(rd@),
            forall|q: int|
                0 <= q < ps@.len() ==> (#[trigger] ps@[q]).0 < counts@.len() && ps@[q].1
                    < counts@[ps@[q].0 as int],
            floats_at(wv, rv, ps@) == prepend_floats(out@, floats_at(wv, rv, ps@.skip(k as int))),
    {
        let p = ps[k];
        assert(ps@.skip(k as int)[0] == p);
        assert(ps@.skip(k as int).drop_first() =~= ps@.skip(k + 1));
        assert(wt@[p.0 as int]@.len() == wv[p.0 as int].len());
        assert(rd@[p.0 as int]@.len() == rv[p.0 as int].len());
        let word = wt[p.0][p.1].as_slice();
        assert(word@ == wv[p.0 as int][p.1 as int]);
        match float_value_exec(word, rd[p.0][p.1]) {
            Ok(b) => {
                let ghost old_out = out@;
                out.push(b);
                proof {
                    let rest = floats_at(wv, rv, ps@.skip(k + 1));
                    match rest {
                        Ok(v) => {
                            assert(old_out + (seq![b] + v) =~= out@ + v);
                        },
                        Err(m) => {},
                    }
                }
            },
            Err(m) => {
                return Err(Halt::Failed(m));
            },
        }
    }
    assert(ps@.skip(len as int) =~= seq![]);
    assert(out@ + seq![] =~= out@);
    Ok((out, j))
}

fn read_rows_exec(
    wt: &Vec<Vec<Vec<char>>>,
    rd: &Vec<Vec<FloatReading>>,
    counts: &Vec<usize>,
    idx: usize,
    rows: usize,
    n: usize,
) -> (r: Result<(Vec<Vec<u32>>, usize), Halt>)
    requires
        table_ok(wt@, rd@, counts@),
    ensures
        match r {
            Ok((v, j)) => read_rows(
                word_table_view(wt@),
                reading_rows(rd@),
                idx as int,
                rows as nat,
                n as int,
            ) == Outcome::Value((u32_rows(v@), j as int)),
            Err(h) => halts_as(
                h,
                read_rows(word_table_view(wt@), reading_rows(rd@), idx as int, rows as nat, n as int),
            ),
        },
{
    let ghost wv = word_table_view(wt@);
    let ghost rv = reading_rows(rd@);
    let mut out: Vec<Vec<u32>> = Vec::new();
    let mut cur = idx;
    for r in 0..rows
        invariant
            table_ok(wt@, rd@, counts@),
            wv == word_table_view(wt@),
            rv == reading_rows(rd@),
            read_rows(wv, rv, idx as int, rows as nat, n as int) == prepend_rows(
                u32_rows(out@),
                read_rows(wv, rv, cur as int, (rows - r) as nat, n as int),
            ),
    {
        match read_floats_exec(wt, rd, counts, cur, n) {
            Ok((row, j)) => {
                let ghost old_out = u32_rows(out@);
                let ghost rest = read_rows(wv, rv, j as int, (rows - r - 1) as nat, n as int);
                out.push(row);
                assert(u32_rows(out@) =~= old_out.push(row@));
                proof {
                    match rest {
                        Outcome::Value((rs, k)) => {
                            assert(old_out + (seq![row@] + rs) =~= u32_rows(out@) + rs);
                        },
                        _ => {},
                    }
                }
                cur = j;
            },
            Err(h) => {
                return Err(h);
            },
        }
    }
    assert(u32_rows(out@) + seq![] =~= u32_rows(out@));
    Ok((out, cur))
}


/// Whether a trimmed line is the `TILT=` line that ends the header.
pub open spec fn is_tilt_line(t: Seq<char>) -> bool {
    "TILT"@.len() <= t.len() && t.take("TILT"@.len() as int) == "TILT"@
}

/// The first line at or after `i` that is the `TILT=` line.
pub open spec fn tilt_line_from(tl: Seq<Seq<char>>, i: int) -> Option<int>
    decreases tl.len() - i,
{
    if i < 0 || i >= tl.len() {
        None
    } else if is_tilt_line(tl[i]) {
        Some(i)
    } else {
        tilt_line_from(tl, i + 1)
    }
}

/// The value of `v as usize`.
pub open spec fn i32_as_usize(v: i32) -> int {
    if v < 0 {
        v + usize::MAX + 1
    } else {
        v as int
    }
}

/// The value of `v as u32`.
pub open spec fn i32_as_u32(v: i32) -> u32 {
    (if v < 0 {
        v + 0x1_0000_0000
    } else {
        v as int
    }) as u32
}

pub(crate) fn i32_to_usize(v: i32) -> (r: usize)
    ensures
        r == i32_as_usize(v),
{
    if v < 0 {
        usize::MAX - ((0 - v as i64 - 1) as usize)
    } else {
        v as usize
    }
}

pub(crate) fn i32_to_u32(v: i32) -> (r: u32)
    ensures
        r == i32_as_u32(v),
{
    if v < 0 {
        (v as i64 + 0x1_0000_0000i64) as u32
    } else {
        v as u32
    }
}

/// The line at which the lamp line's values begin, given the `TILT=` line `t`:
/// the next line; with `TILT=INCLUDE`, the line after the tilt table, which is a
/// line passed over, a count, and twice that many values.
pub open spec fn ies_data_start(
    wt: Seq<Seq<Seq<char>>>,
    rd: Seq<Seq<FloatReading>>,
    tl: Seq<Seq<char>>,
    t: int,
) -> Outcome<int> {
    if tl[t] != "TILT=INCLUDE"@ {
        Outcome::Value(t + 1)
    } else if t + 1 >= tl.len() {
        Outcome::Failed("Unexpected end after TILT=INCLUDE"@)
    } else {
        match take_values_span(word_counts(wt), t + 2, 1) {
            Outcome::Value((ps, j)) => match int_at(wt, rd, ps[0]) {
                Err(m) => Outcome::Failed(m),
                Ok(pairs) => match take_values_span(word_counts(wt), j, i32_as_usize(pairs)) {
                    Outcome::Value((_, j2)) => match take_values_span(
                        word_counts(wt),
                        j2,
                        i32_as_usize(pairs),
                    ) {
                        Outcome::Value((_, j3)) => Outcome::Value(j3),
                        Outcome::Failed(m) => Outcome::Failed(m),
                        Outcome::Aborts => Outcome::Aborts,
                    },
                    Outcome::Failed(m) => Outcome::Failed(m),
                    Outcome::Aborts => Outcome::Aborts,
                },
            },
            Outcome::Failed(m) => Outcome::Failed(m),
            Outcome::Aborts => Outcome::Aborts,
        }
    }
}

/// Whether field `k` of the lamp line is an integer (the others are floats):
/// the number of lamps, of vertical and of horizontal angles, the photometric
/// type and the units type.
pub open spec fn lamp_field_is_int(k: int) -> bool {
    k == 0 || 3 <= k <= 6
}

/// The error of reading field `k` of the lamp line, at position `p`, if any.
pub open spec fn lamp_field_error(
    wt: Seq<Seq<Seq<char>>>,
    rd: Seq<Seq<FloatReading>>,
    p: (usize, usize),
    k: int,
) -> Option<Seq<char>> {
    if lamp_field_is_int(k) {
        match int_at(wt, rd, p) {
            Err(m) => Some(m),
            Ok(_) => None,
        }
    } else {
        match float_at(wt, rd, p) {
            Err(m) => Some(m),
            Ok(_) => None,
        }
    }
}

/// The first error among the lamp line's fields `k` to 9, read in order.
pub open spec fn lamp_error_from(
    wt: Seq<Seq<Seq<char>>>,
    rd: Seq<Seq<FloatReading>>,
    ps: Seq<(usize, usize)>,
    k: int,
) -> Option<Seq<char>>
    decreases 10 - k,
{
    if k < 0 || k >= 10 {
        None
    } else {
        match lamp_field_error(wt, rd, ps[k], k) {
            Some(m) => Some(m),
            None => lamp_error_from(wt, rd, ps, k + 1),
        }
    }
}

/// The integer field `k` of the lamp line.
pub open spec fn lamp_int(
    wt: Seq<Seq<Seq<char>>>,
    rd: Seq<Seq<FloatReading>>,
    ps: Seq<(usize, usize)>,
    k: int,
) -> i32 {
    match int_at(wt, rd, ps[k]) {
        Ok(v) => v,
        Err(_) => 0,
    }
}

/// The float field `k` of the lamp line.
pub open spec fn lamp_float(
    wt: Seq<Seq<Seq<char>>>,
    rd: Seq<Seq<FloatReading>>,
    ps: Seq<(usize, usize)>,
    k: int,
) -> u32 {
    match float_at(wt, rd, ps[k]) {
        Ok(v) => v,
        Err(_) => 0,
    }
}

/// An IES file's data, with its float values as IEEE 754 bits, as written
/// (the candela values not yet scaled by the multiplier).
#[verifier::ext_equal]
pub struct IesRecord {
    pub photometric_type: u32,
    pub num_lamps: i32,
    pub units_type: i32,
    pub lumens_per_lamp: u32,
    pub candela_multiplier: u32,
    pub width: u32,
    pub length: u32,
    pub height: u32,
    pub vertical_angles: Seq<u32>,
    pub horizontal_angles: Seq<u32>,
    pub candela_values: Seq<Seq<u32>>,
}

/// Reading the photometric data that begins at line `s`: the lamp line, the three
/// electrical values, the vertical angles, the horizontal angles, and the candela
/// rows.
pub open spec fn ies_body(wt: Seq<Seq<Seq<char>>>, rd: Seq<Seq<FloatReading>>, s: int) -> Outcome<
    IesRecord,
> {
    match take_values_span(word_counts(wt), s, 10) {
        Outcome::Failed(m) => Outcome::Failed(m),
        Outcome::Aborts => Outcome::Aborts,
        Outcome::Value((ps, j0)) => match lamp_error_from(wt, rd, ps, 0) {
            Some(m) => Outcome::Failed(m),
            None => {
                let nv = i32_as_usize(lamp_int(wt, rd, ps, 3));
                let nh = i32_as_usize(lamp_int(wt, rd, ps, 4));
                match take_values_span(word_counts(wt), j0, 3) {
                    Outcome::Failed(m) => Outcome::Failed(m),
                    Outcome::Aborts => Outcome::Aborts,
                    Outcome::Value((_, j1)) => match read_floats(wt, rd, j1, nv) {
                        Outcome::Failed(m) => Outcome::Failed(m),
                        Outcome::Aborts => Outcome::Aborts,
                        Outcome::Value((va, j2)) => match read_floats(wt, rd, j2, nh) {
                            Outcome::Failed(m) => Outcome::Failed(m),
                            Outcome::Aborts => Outcome::Aborts,
                            Outcome::Value((ha, j3)) => match read_rows(
                                wt,
                                rd,
                                j3,
                                nh as nat,
                                nv,
                            ) {
                                Outcome::Failed(m) => Outcome::Failed(m),
                                Outcome::Aborts => Outcome::Aborts,
                                Outcome::Value((rows, _)) => Outcome::Value(
                                    IesRecord {
                                        photometric_type: i32_as_u32(lamp_int(wt, rd, ps, 5)),
                                        num_lamps: lamp_int(wt, rd, ps, 0),
                                        units_type: lamp_int(wt, rd, ps, 6),
                                        lumens_per_lamp: lamp_float(wt, rd, ps, 1),
                                        candela_multiplier: lamp_float(wt, rd, ps, 2),
                                        width: lamp_float(wt, rd, ps, 7),
                                        length: lamp_float(wt, rd, ps, 8),
                                        height: lamp_float(wt, rd, ps, 9),
                                        vertical_angles: va,
                                        horizontal_angles: ha,
                                        candela_values: rows,
                                    },
                                ),
                            },
                        },
                    },
                }
            },
        },
    }
}

/// Reading an IES file whose text is `text`, where `rd[i][k]` is what reading word
/// `k` of line `i` as an `f32` gave.
pub open spec fn ies_outcome(text: Seq<char>, rd: Seq<Seq<FloatReading>>) -> Outcome<IesRecord> {
    let tl = ies_trimmed_lines(text);
    let wt = ies_word_table(text);
    match tilt_line_from(tl, 0) {
        None => Outcome::Failed("No TILT line found"@),
        Some(t) => match ies_data_start(wt, rd, tl, t) {
            Outcome::Value(s) => ies_body(wt, rd, s),
            Outcome::Failed(m) => Outcome::Failed(m),
            Outcome::Aborts => Outcome::Aborts,
        },
    }
}


/// The data of an IES file, with each float as its IEEE 754 bits (`f32::to_bits`),
/// as the file writes it: the candela values are not yet scaled by the multiplier.
#[derive(Debug)]
pub struct IesData {
    /// Photometric type: 1 = Type C, 2 = Type B, 3 = Type A.
    pub photometric_type: u32,
    /// Number of lamps.
    pub num_lamps: i32,
    /// Units of the dimensions: 1 = feet, 2 = meters.
    pub units_type: i32,
    /// Lumens per lamp (-1 for absolute photometry).
    pub lumens_per_lamp: u32,
    /// Candela multiplier.
    pub candela_multiplier: u32,
    /// Width of the luminous opening.
    pub width: u32,
    /// Length of the luminous opening.
    pub length: u32,
    /// Height of the luminous opening.
    pub height: u32,
    /// Vertical (gamma) angles in degrees.
    pub vertical_angles: Vec<u32>,
    /// Horizontal (C-plane) angles in degrees.
    pub horizontal_angles: Vec<u32>,
    /// Candela values: one row per horizontal angle, one value per vertical angle.
    pub candela_values: Vec<Vec<u32>>,
}

impl View for IesData {
    type V = IesRecord;

    open spec fn view(&self) -> IesRecord {
        IesRecord {
            photometric_type: self.photometric_type,
            num_lamps: self.num_lamps,
            units_type: self.units_type,
            lumens_per_lamp: self.lumens_per_lamp,
            candela_multiplier: self.candela_multiplier,
            width: self.width,
            length: self.length,
            height: self.height,
            vertical_angles: self.vertical_angles@,
            horizontal_angles: self.horizontal_angles@,
            candela_values: u32_rows(self.candela_values@),
        }
    }
}

/// Whether every position of `ps` lies in the table whose lines hold `counts[i]` words.
pub open spec fn positions_in(ps: Seq<(usize, usize)>, counts: Seq<usize>) -> bool {
    forall|q: int|
        0 <= q < ps.len() ==> (#[trigger] ps[q]).0 < counts.len() && ps[q].1 < counts[ps[q].0
            as int]
}

fn int_at_exec(
    wt: &Vec<Vec<Vec<char>>>,
    rd: &Vec<Vec<FloatReading>>,
    counts: &Vec<usize>,
    p: (usize, usize),
) -> (r: Result<i32, Vec<char>>)
    requires
        table_ok(wt@, rd@, counts@),
        p.0 < counts@.len(),
        p.1 < counts@[p.0 as int],
    ensures
        match r {
            Ok(v) => int_at(word_table_view(wt@), reading_rows(rd@), p) == Ok::<i32, Seq<char>>(v),
            Err(m) => int_at(word_table_view(wt@), reading_rows(rd@), p) == Err::<i32, Seq<char>>(
                m@,
            ),
        },
{
    let ghost wv = word_table_view(wt@);
    let ghost rv = reading_rows(rd@);
    assert(wt@[p.0 as int]@.len() == wv[p.0 as int].len());
    assert(rd@[p.0 as int]@.len() == rv[p.0 as int].len());
    let word = wt[p.0][p.1].as_slice();
    assert(word@ == wv[p.0 as int][p.1 as int]);
    int_value_exec(word, rd[p.0][p.1])
}

fn float_at_exec(
    wt: &Vec<Vec<Vec<char>>>,
    rd: &Vec<Vec<FloatReading>>,
    counts: &Vec<usize>,
    p: (usize, usize),
) -> (r: Result<u32, Vec<char>>)
    requires
        table_ok(wt@, rd@, counts@),
        p.0 < counts@.len(),
        p.1 < counts@[p.0 as int],
    ensures
        match r {
            Ok(v) => float_at(word_table_view(wt@), reading_rows(rd@), p) == Ok::<u32, Seq<char>>(v),
            Err(m) => float_at(word_table_view(wt@), reading_rows(rd@), p) == Err::<u32, Seq<char>>(
                m@,
            ),
        },
{
    let ghost wv = word_table_view(wt@);
    let ghost rv = reading_rows(rd@);
    assert(wt@[p.0 as int]@.len() == wv[p.0 as int].len());
    assert(rd@[p.0 as int]@.len() == rv[p.0 as int].len());
    let word = wt[p.0][p.1].as_slice();
    assert(word@ == wv[p.0 as int][p.1 as int]);
    float_value_exec(word, rd[p.0][p.1])
}

/// The lamp line's fields: the integers at the integer fields, the float bits at
/// the others, or the first error.
fn read_lamp_line(
    wt: &Vec<Vec<Vec<char>>>,
    rd: &Vec<Vec<FloatReading>>,
    counts: &Vec<usize>,
    ps: &Vec<(usize, usize)>,
) -> (r: Result<(Vec<i32>, Vec<u32>), Vec<char>>)
    requires
        table_ok(wt@, rd@, counts@),
        ps@.len() == 10,
        positions_in(ps@, counts@),
    ensures
        match r {
            Ok((iv, fv)) => {
                &&& lamp_error_from(word_table_view(wt@), reading_rows(rd@), ps@, 0) is None
                &&& iv@.len() == 10
                &&& fv@.len() == 10
                &&& forall|k: int|
                    0 <= k < 10 && lamp_field_is_int(k) ==> #[trigger] iv@[k] == lamp_int(
                        word_table_view(wt@),
                        reading_rows(rd@),
                        ps@,
                        k,
                    )
                &&& forall|k: int|
                    0 <= k < 10 && !lamp_field_is_int(k) ==> #[trigger] fv@[k] == lamp_float(
                        word_table_view(wt@),
                        reading_rows(rd@),
                        ps@,
                        k,
                    )
            },
            Err(m) => lamp_error_from(word_table_view(wt@), reading_rows(rd@), ps@, 0) == Some(
                m@,
            ),
        },
{
    let ghost wv = word_table_view(wt@);
    let ghost rv = reading_rows(rd@);
    let mut iv: Vec<i32> = Vec::new();
    let mut fv: Vec<u32> = Vec::new();
    for k in 0..10usize
        invariant
            table_ok(wt@, rd@, counts@),
            wv == word_table_view(wt@),
            rv == reading_rows(rd@),
            ps@.len() == 10,
            positions_in(ps@, counts@),
            iv@.len() == k,
            fv@.len() == k,
            lamp_error_from(wv, rv, ps@, 0) == lamp_error_from(wv, rv, ps@, k as int),
            forall|j: int|
                0 <= j < k && lamp_field_is_int(j) ==> #[trigger] iv@[j] == lamp_int(
                    wv,
                    rv,
                    ps@,
                    j,
                ),
            forall|j: int|
                0 <= j < k && !lamp_field_is_int(j) ==> #[trigger] fv@[j] == lamp_float(
                    wv,
                    rv,
                    ps@,
                    j,
                ),
    {
        let p = ps[k];
        assert(ps@[k as int] == p);
        if k == 0 || (3 <= k && k <= 6) {
            match int_at_exec(wt, rd, counts, p) {
                Ok(v) => {
                    iv.push(v);
                    fv.push(0);
                },
                Err(m) => {
                    return Err(m);
                },
            }
        } else {
            match float_at_exec(wt, rd, counts, p) {
                Ok(b) => {
                    iv.push(0);
                    fv.push(b);
                },
                Err(m) => {
                    return Err(m);
                },
            }
        }
    }
    Ok((iv, fv))
}

fn ies_data_start_exec(
    wt: &Vec<Vec<Vec<char>>>,
    rd: &Vec<Vec<FloatReading>>,
    counts: &Vec<usize>,
    tl: &Vec<Vec<char>>,
    t: usize,
) -> (r: Result<usize, Halt>)
    requires
        table_ok(wt@, rd@, counts@),
        t < tl@.len(),
    ensures
        match r {
            Ok(s) => ies_data_start(word_table_view(wt@), reading_rows(rd@), char_rows(tl@), t as int)
                == Outcome::Value(s as int),
            Err(h) => halts_as(
                h,
                ies_data_start(word_table_view(wt@), reading_rows(rd@), char_rows(tl@), t as int),
            ),
        },
{
    let n = tl.len();
    let tilt_with_table = str_chars("TILT=INCLUDE");
    if !crate::text::chars_equal(tl[t].as_slice(), tilt_with_table.as_slice()) {
        return Ok(t + 1);
    }
    if t + 1 >= n {
        return Err(Halt::Failed(str_chars("Unexpected end after TILT=INCLUDE")));
    }
    let nlines = counts.len();
    let (ps, j) = match take_values(counts, t + 2, 1) {
        Ok(x) => x,
        Err(h) => {
            return Err(h);
        },
    };
    proof {
        lemma_token_span_in_bounds(counts@, t + 2, 1);
    }
    let pairs = match int_at_exec(wt, rd, counts, ps[0]) {
        Ok(v) => v,
        Err(m) => {
            return Err(Halt::Failed(m));
        },
    };
    let c = i32_to_usize(pairs);
    let (_, j2) = match take_values(counts, j, c) {
        Ok(x) => x,
        Err(h) => {
            return Err(h);
        },
    };
    let (_, j3) = match take_values(counts, j2, c) {
        Ok(x) => x,
        Err(h) => {
            return Err(h);
        },
    };
    Ok(j3)
}

fn ies_body_exec(
    wt: &Vec<Vec<Vec<char>>>,
    rd: &Vec<Vec<FloatReading>>,
    counts: &Vec<usize>,
    s: usize,
) -> (r: Result<IesData, Halt>)
    requires
        table_ok(wt@, rd@, counts@),
    ensures
        match r {
            Ok(d) => ies_body(word_table_view(wt@), reading_rows(rd@), s as int) == Outcome::Value(
                d@,
            ),
            Err(h) => halts_as(h, ies_body(word_table_view(wt@), reading_rows(rd@), s as int)),
        },
{
    let ghost wv = word_table_view(wt@);
    let ghost rv = reading_rows(rd@);
    let nlines = counts.len();
    let (ps, j0) = match take_values(counts, s, 10) {
        Ok(x) => x,
        Err(h) => {
            return Err(h);
        },
    };
    proof {
        lemma_token_span_in_bounds(counts@, s as int, 10);
    }
    let (iv, fv) = match read_lamp_line(wt, rd, counts, &ps) {
        Ok(x) => x,
        Err(m) => {
            return Err(Halt::Failed(m));
        },
    };
    assert(lamp_field_is_int(0) && lamp_field_is_int(3) && lamp_field_is_int(4)
        && lamp_field_is_int(5) && lamp_field_is_int(6));
    assert(!lamp_field_is_int(1) && !lamp_field_is_int(2) && !lamp_field_is_int(7)
        && !lamp_field_is_int(8) && !lamp_field_is_int(9));
    let nv = i32_to_usize(iv[3]);
    let nh = i32_to_usize(iv[4]);
    let (_, j1) = match take_values(counts, j0, 3) {
        Ok(x) => x,
        Err(h) => {
            return Err(h);
        },
    };
    let (va, j2) = match read_floats_exec(wt, rd, counts, j1, nv) {
        Ok(x) => x,
        Err(h) => {
            return Err(h);
        },
    };
    let (ha, j3) = match read_floats_exec(wt, rd, counts, j2, nh) {
        Ok(x) => x,
        Err(h) => {
            return Err(h);
        },
    };
    let (rows, _) = match read_rows_exec(wt, rd, counts, j3, nh, nv) {
        Ok(x) => x,
        Err(h) => {
            return Err(h);
        },
    };
    let d = IesData {
        photometric_type: i32_to_u32(iv[5]),
        num_lamps: iv[0],
        units_type: iv[6],
        lumens_per_lamp: fv[1],
        candela_multiplier: fv[2],
        width: fv[7],
        length: fv[8],
        height: fv[9],
        vertical_angles: va,
        horizontal_angles: ha,
        candela_values: rows,
    };
    assert(d@ =~= IesRecord {
        photometric_type: i32_as_u32(lamp_int(wv, rv, ps@, 5)),
        num_lamps: lamp_int(wv, rv, ps@, 0),
        units_type: lamp_int(wv, rv, ps@, 6),
        lumens_per_lamp: lamp_float(wv, rv, ps@, 1),
        candela_multiplier: lamp_float(wv, rv, ps@, 2),
        width: lamp_float(wv, rv, ps@, 7),
        length: lamp_float(wv, rv, ps@, 8),
        height: lamp_float(wv, rv, ps@, 9),
        vertical_angles: va@,
        horizontal_angles: ha@,
        candela_values: u32_rows(d.candela_values@),
    });
    Ok(d)
}


/// The trimmed lines, the word table and the word counts of an IES text.
fn ies_tables(text: &str) -> (r: (Vec<Vec<char>>, Vec<Vec<Vec<char>>>, Vec<usize>))
    ensures
        char_rows(r.0@) == ies_trimmed_lines(text@),
        word_table_view(r.1@) == ies_word_table(text@),
        r.2@ == word_counts(word_table_view(r.1@)),
{
    let chars = str_chars(text);
    let lines = split_lines(chars.as_slice());
    let ghost ls = char_rows(lines@);
    let mut tl: Vec<Vec<char>> = Vec::new();
    let mut wt: Vec<Vec<Vec<char>>> = Vec::new();
    let mut counts: Vec<usize> = Vec::new();
    let n = lines.len();
    for i in 0..n
        invariant
            n == lines@.len(),
            ls == char_rows(lines@),
            char_rows(tl@) == ls.take(i as int).map_values(|l: Seq<char>| trim(l)),
            word_table_view(wt@) == ls.take(i as int).map_values(|l: Seq<char>| words(trim(l))),
            counts@ == word_counts(word_table_view(wt@)),
    {
        let t = trim_chars(lines[i].as_slice());
        let w = split_words(t.as_slice());
        let ghost (old_tl, old_wt, old_counts) = (char_rows(tl@), word_table_view(wt@), counts@);
        let ghost (tv, wv) = (t@, char_rows(w@));
        counts.push(w.len());
        tl.push(t);
        wt.push(w);
        proof {
            assert(ls[i as int] == lines@[i as int]@);
            assert(char_rows(tl@) =~= old_tl.push(tv));
            assert(word_table_view(wt@) =~= old_wt.push(wv));
            assert(char_rows(tl@) =~= ls.take(i + 1).map_values(|l: Seq<char>| trim(l)));
            assert(word_table_view(wt@) =~= ls.take(i + 1).map_values(
                |l: Seq<char>| words(trim(l)),
            ));
            assert(counts@ =~= word_counts(word_table_view(wt@)));
        }
    }
    assert(ls.take(n as int) =~= ls);
    assert(ies_word_table(text@) =~= ls.map_values(|l: Seq<char>| words(trim(l))));
    (tl, wt, counts)
}

/// The whitespace-separated words of each line of an IES text, trimmed line by
/// line: the tokens that the numbers of the file are read from. Reading each as
/// an `f32` gives the readings that `parse_ies` takes.
pub fn ies_words(text: &str) -> (r: Vec<Vec<String>>)
    ensures
        r@.map_values(|l: Vec<String>| crate::tokens::string_rows(l@)) == ies_word_table(text@),
{
    let (_, wt, _) = ies_tables(text);
    let ghost wv = word_table_view(wt@);
    let mut out: Vec<Vec<String>> = Vec::new();
    let n = wt.len();
    for i in 0..n
        invariant
            n == wt@.len(),
            wv == word_table_view(wt@),
            out@.map_values(|l: Vec<String>| crate::tokens::string_rows(l@)) == wv.take(i as int),
    {
        let m = wt[i].len();
        let mut row: Vec<String> = Vec::new();
        for k in 0..m
            invariant
                m == wt@[i as int]@.len(),
                i < wv.len(),
                wv == word_table_view(wt@),
                crate::tokens::string_rows(row@) == wv[i as int].take(k as int),
        {
            let w = string_from_chars(wt[i][k].as_slice());
            let ghost old_row = crate::tokens::string_rows(row@);
            let ghost w_view = w@;
            row.push(w);
            assert(crate::tokens::string_rows(row@) =~= old_row.push(w_view));
            assert(crate::tokens::string_rows(row@) =~= wv[i as int].take(k + 1));
        }
        assert(wv[i as int].take(m as int) =~= wv[i as int]);
        let ghost old_out = out@.map_values(|l: Vec<String>| crate::tokens::string_rows(l@));
        let ghost row_view = crate::tokens::string_rows(row@);
        out.push(row);
        assert(out@.map_values(|l: Vec<String>| crate::tokens::string_rows(l@)) =~= old_out.push(
            row_view,
        ));
        assert(out@.map_values(|l: Vec<String>| crate::tokens::string_rows(l@)) =~= wv.take(
            i + 1,
        ));
    }
    assert(wv.take(n as int) =~= wv);
    out
}

/// Whether `readings` holds one reading for each word that `ies_words` gives for `text`.
pub fn ies_readings_fit(text: &str, readings: &Vec<Vec<FloatReading>>) -> (r: bool)
    ensures
        r == readings_fit(ies_word_table(text@), reading_rows(readings@)),
{
    let (_, wt, _) = ies_tables(text);
    let ghost wv = word_table_view(wt@);
    if readings.len() != wt.len() {
        return false;
    }
    let n = wt.len();
    for i in 0..n
        invariant
            n == wt@.len() == readings@.len(),
            wv == word_table_view(wt@),
            wv == ies_word_table(text@),
            forall|j: int| 0 <= j < i ==> #[trigger] reading_rows(readings@)[j].len() == wv[j].len(),
    {
        if readings[i].len() != wt[i].len() {
            assert(reading_rows(readings@)[i as int].len() != wv[i as int].len());
            return false;
        }
    }
    true
}

/// How reading an IES file ended, where it stopped early.
fn ies_halt(h: Halt) -> (r: Option<Result<IesData, IesLoaderError>>)
    ensures
        match h {
            Halt::Failed(m) => r matches Some(Err(IesLoaderError::Parse(e))) && e@ == m@,
            Halt::Aborts => r is None,
        },
{
    match h {
        Halt::Failed(m) => Some(Err(IesLoaderError::Parse(string_from_chars(m.as_slice())))),
        Halt::Aborts => None,
    }
}

/// Reads an IES file whose text is `text`, where `readings[i][k]` is what reading
/// word `k` of line `i` (of `ies_words(text)`) as an `f32` gave. `None` stands for
/// the inputs on which the reader panics: a count from the file (a negative one
/// taken as `usize`) for which no `Vec` can be allocated.
pub fn try_parse_ies(text: &str, readings: &Vec<Vec<FloatReading>>) -> (r: Option<
    Result<IesData, IesLoaderError>,
>)
    requires
        readings_fit(ies_word_table(text@), reading_rows(readings@)),
    ensures
        match ies_outcome(text@, reading_rows(readings@)) {
            Outcome::Value(rec) => r matches Some(Ok(d)) && d@ == rec,
            Outcome::Failed(m) => r matches Some(Err(IesLoaderError::Parse(e))) && e@ == m,
            Outcome::Aborts => r is None,
        },
{
    let (tl, wt, counts) = ies_tables(text);
    let ghost ctl = char_rows(tl@);
    let tilt = str_chars("TILT");
    let n = tl.len();
    let mut t: usize = 0;
    while t < n && !crate::text::starts_with_chars(tl[t].as_slice(), tilt.as_slice())
        invariant
            t <= n == tl@.len(),
            ctl == char_rows(tl@),
            tilt@ == "TILT"@,
            tilt_line_from(ctl, 0) == tilt_line_from(ctl, t as int),
        decreases n - t,
    {
        t += 1;
    }
    if t == n {
        let m = str_chars("No TILT line found");
        return Some(Err(IesLoaderError::Parse(string_from_chars(m.as_slice()))));
    }
    let s = match ies_data_start_exec(&wt, readings, &counts, &tl, t) {
        Ok(s) => s,
        Err(h) => {
            return ies_halt(h);
        },
    };
    match ies_body_exec(&wt, readings, &counts, s) {
        Ok(d) => Some(Ok(d)),
        Err(h) => ies_halt(h),
    }
}

/// Reads an IES file whose text is `text`, where `readings[i][k]` is what reading
/// word `k` of line `i` (of `ies_words(text)`) as an `f32` gave.
pub fn parse_ies(text: &str, readings: &Vec<Vec<FloatReading>>) -> (r: Result<IesData, IesLoaderError>)
    requires
        readings_fit(ies_word_table(text@), reading_rows(readings@)),
        !(ies_outcome(text@, reading_rows(readings@)) is Aborts),
    ensures
        match ies_outcome(text@, reading_rows(readings@)) {
            Outcome::Value(rec) => r matches Ok(d) && d@ == rec,
            Outcome::Failed(m) => r matches Err(IesLoaderError::Parse(e)) && e@ == m,
            Outcome::Aborts => false,
        },
{
    match try_parse_ies(text, readings) {
        Some(r) => r,
        None => Err(IesLoaderError::Parse(String::new())),
    }
}


/// Floats read at positions give one value per position.
pub proof fn lemma_floats_at_len(
    wt: Seq<Seq<Seq<char>>>,
    rd: Seq<Seq<FloatReading>>,
    ps: Seq<(usize, usize)>,
)
    ensures
        floats_at(wt, rd, ps) matches Ok(v) ==> v.len() == ps.len(),
    decreases ps.len(),
{
    if ps.len() > 0 {
        lemma_floats_at_len(wt, rd, ps.drop_first());
    }
}

/// Reading `n` values gives `n` values.
pub proof fn lemma_read_floats_len(
    wt: Seq<Seq<Seq<char>>>,
    rd: Seq<Seq<FloatReading>>,
    idx: int,
    n: int,
)
    requires
        n >= 0,
    ensures
        read_floats(wt, rd, idx, n) matches Outcome::Value((v, _)) ==> v.len() == n,
{
    crate::tokens::lemma_token_span_len(word_counts(wt), idx, n);
    match take_values_span(word_counts(wt), idx, n) {
        Outcome::Value((ps, j)) => {
            lemma_floats_at_len(wt, rd, ps);
        },
        _ => {},
    }
}

/// Reading `rows` rows of `n` values gives `rows` rows of `n` values each.
pub proof fn lemma_read_rows_shape(
    wt: Seq<Seq<Seq<char>>>,
    rd: Seq<Seq<FloatReading>>,
    idx: int,
    rows: nat,
    n: int,
)
    requires
        n >= 0,
    ensures
        read_rows(wt, rd, idx, rows, n) matches Outcome::Value((rs, _)) ==> {
            &&& rs.len() == rows
            &&& forall|r: int| 0 <= r < rs.len() ==> (#[trigger] rs[r]).len() == n
        },
    decreases rows,
{
    if rows > 0 {
        lemma_read_floats_len(wt, rd, idx, n);
        match read_floats(wt, rd, idx, n) {
            Outcome::Value((row, j)) => {
                lemma_read_rows_shape(wt, rd, j, (rows - 1) as nat, n);
                match read_rows(wt, rd, j, (rows - 1) as nat, n) {
                    Outcome::Value((rest, k)) => {
                        let all = seq![row] + rest;
                        assert forall|r: int| 0 <= r < all.len() implies (#[trigger] all[r]).len()
                            == n by {
                            if r > 0 {
                                assert(all[r] == rest[r - 1]);
                            }
                        }
                    },
                    _ => {},
                }
            },
            _ => {},
        }
    }
}

/// The shape of the data of an IES file: as many candela rows as horizontal
/// angles, and in each row as many values as vertical angles.
pub proof fn lemma_ies_shape(text: Seq<char>, rd: Seq<Seq<FloatReading>>)
    ensures
        ies_outcome(text, rd) matches Outcome::Value(rec) ==> {
            &&& rec.candela_values.len() == rec.horizontal_angles.len()
            &&& forall|r: int|
                0 <= r < rec.candela_values.len() ==> (#[trigger] rec.candela_values[r]).len()
                    == rec.vertical_angles.len()
        },
{
    let tl = ies_trimmed_lines(text);
    let wt = ies_word_table(text);
    match tilt_line_from(tl, 0) {
        Some(t) => match ies_data_start(wt, rd, tl, t) {
            Outcome::Value(s) => match take_values_span(word_counts(wt), s, 10) {
                Outcome::Value((ps, j0)) => {
                    let nv = i32_as_usize(lamp_int(wt, rd, ps, 3));
                    let nh = i32_as_usize(lamp_int(wt, rd, ps, 4));
                    match take_values_span(word_counts(wt), j0, 3) {
                        Outcome::Value((_, j1)) => {
                            lemma_read_floats_len(wt, rd, j1, nv);
                            match read_floats(wt, rd, j1, nv) {
                                Outcome::Value((va, j2)) => {
                                    lemma_read_floats_len(wt, rd, j2, nh);
                                    match read_floats(wt, rd, j2, nh) {
                                        Outcome::Value((ha, j3)) => {
                                            lemma_read_rows_shape(wt, rd, j3, nh as nat, nv);
                                        },
                                        _ => {},
                                    }
                                },
                                _ => {},
                            }
                        },
                        _ => {},
                    }
                },
                _ => {},
            },
            _ => {},
        },
        None => {},
    }
}


/// Whether every line of `wt`, and the number of lines, can be counted in a `usize`.
pub open spec fn table_bounded(wt: Seq<Seq<Seq<char>>>) -> bool {
    &&& wt.len() <= usize::MAX
    &&& forall|i: int| 0 <= i < wt.len() ==> (#[trigger] wt[i]).len() <= usize::MAX
}

/// The word table of a text whose length fits in a `usize` has lines and words
/// that fit too.
pub proof fn lemma_word_table_bounded(text: Seq<char>)
    requires
        text.len() <= usize::MAX,
    ensures
        table_bounded(ies_word_table(text)),
        ies_word_table(text).len() == ies_trimmed_lines(text).len(),
{
    crate::text::lemma_lines_len(text);
    let ls = lines_of(text);
    let wt = ies_word_table(text);
    assert forall|i: int| 0 <= i < wt.len() implies (#[trigger] wt[i]).len() <= usize::MAX by {
        crate::text::lemma_trim_len(ls[i]);
        crate::text::lemma_words_len(trim(ls[i]));
    }
}

/// A table of readings that fits a word table holds as many readings from each
/// line on as the word table holds words.
proof fn lemma_flat_readings_len(wt: Seq<Seq<Seq<char>>>, rd: Seq<Seq<FloatReading>>, a: int)
    requires
        readings_fit(wt, rd),
    ensures
        flat_from(rd, a).len() == flat_from(wt, a).len(),
    decreases wt.len() - a,
{
    if 0 <= a < wt.len() {
        lemma_flat_readings_len(wt, rd, a + 1);
        assert(rd[a].len() == wt[a].len());
    }
}

/// The values read from line `a` on are the first words of the lines from `a` on,
/// taken one after another, with their readings.
pub proof fn lemma_token_span_flat(
    wt: Seq<Seq<Seq<char>>>,
    rd: Seq<Seq<FloatReading>>,
    a: int,
    need: int,
)
    requires
        table_bounded(wt),
        readings_fit(wt, rd),
        0 <= a,
        need >= 0,
        token_span(word_counts(wt), a, need).2 == 0,
    ensures
        ({
            let ps = token_span(word_counts(wt), a, need).0;
            &&& ps.len() == need
            &&& need <= flat_from(wt, a).len()
            &&& forall|k: int|
                0 <= k < ps.len() ==> {
                    &&& wt[(#[trigger] ps[k]).0 as int][ps[k].1 as int] == flat_from(wt, a)[k]
                    &&& rd[ps[k].0 as int][ps[k].1 as int] == flat_from(rd, a)[k]
                }
        }),
    decreases wt.len() - a,
{
    let counts = word_counts(wt);
    lemma_token_span_len(counts, a, need);
    if need == 0 {
    } else if a >= counts.len() {
    } else {
        let c = counts[a] as int;
        assert(c == wt[a].len());
        assert(rd[a].len() == wt[a].len());
        let fw = flat_from(wt, a);
        let fr = flat_from(rd, a);
        lemma_flat_readings_len(wt, rd, a);
        assert(fw == wt[a] + flat_from(wt, a + 1));
        assert(fr == rd[a] + flat_from(rd, a + 1));
        if c >= need {
            let ps = line_positions(a, need);
            assert forall|k: int| 0 <= k < ps.len() implies {
                &&& wt[(#[trigger] ps[k]).0 as int][ps[k].1 as int] == fw[k]
                &&& rd[ps[k].0 as int][ps[k].1 as int] == fr[k]
            } by {
                assert(ps[k] == (a as usize, k as usize));
                assert(ps[k].0 as int == a && ps[k].1 as int == k);
                assert(fw[k] == wt[a][k] && fr[k] == rd[a][k]);
            }
        } else {
            lemma_token_span_flat(wt, rd, a + 1, need - c);
            let rest = token_span(counts, a + 1, need - c).0;
            let ps = line_positions(a, c) + rest;
            assert forall|k: int| 0 <= k < ps.len() implies {
                &&& wt[(#[trigger] ps[k]).0 as int][ps[k].1 as int] == fw[k]
                &&& rd[ps[k].0 as int][ps[k].1 as int] == fr[k]
            } by {
                if k < c {
                    assert(ps[k] == (a as usize, k as usize));
                    assert(ps[k].0 as int == a && ps[k].1 as int == k);
                    assert(fw[k] == wt[a][k] && fr[k] == rd[a][k]);
                } else {
                    assert(ps[k] == rest[k - c]);
                    assert(fw[k] == flat_from(wt, a + 1)[k - c]);
                    assert(fr[k] == flat_from(rd, a + 1)[k - c]);
                }
            }
        }
    }
}

/// The line found by `tilt_line_from(tl, i)` is the first `TILT` line at or after
/// `i`; where none is found, there is none.
pub proof fn lemma_tilt_line_in(tl: Seq<Seq<char>>, i: int)
    requires
        0 <= i,
    ensures
        tilt_line_from(tl, i) matches Some(t) ==> {
            &&& i <= t < tl.len()
            &&& is_tilt_line(tl[t])
            &&& forall|k: int| i <= k < t ==> !is_tilt_line(#[trigger] tl[k])
        },
        tilt_line_from(tl, i) is None ==> forall|k: int| i <= k < tl.len() ==> !is_tilt_line(
            #[trigger] tl[k],
        ),
    decreases tl.len() - i,
{
    if i < tl.len() && !is_tilt_line(tl[i]) {
        lemma_tilt_line_in(tl, i + 1);
    }
}

/// Where no field of the lamp line from field `k` on fails, each of them reads.
proof fn lemma_lamp_fields_read(
    wt: Seq<Seq<Seq<char>>>,
    rd: Seq<Seq<FloatReading>>,
    ps: Seq<(usize, usize)>,
    k: int,
)
    requires
        0 <= k <= 10,
        lamp_error_from(wt, rd, ps, k) is None,
    ensures
        forall|j: int| k <= j < 10 ==> (#[trigger] lamp_field_error(wt, rd, ps[j], j)) is None,
    decreases 10 - k,
{
    if k < 10 {
        lemma_lamp_fields_read(wt, rd, ps, k + 1);
    }
}

/// Whether line `s` is where the tilt table that starts after the `TILT=INCLUDE`
/// line `t` ends: after the line of the lamp-to-luminaire geometry come the
/// number of tilt pairs `n` (the first word from line `t + 2` on, its line read
/// whole), then the lines that hold the `n` tilt angles (ending before `j2`), then
/// those that hold the `n` multiplying factors (ending before `s`).
pub open spec fn tilt_table_spans(
    wt: Seq<Seq<Seq<char>>>,
    rd: Seq<Seq<FloatReading>>,
    t: int,
    j1: int,
    j2: int,
    s: int,
) -> bool {
    &&& span_ends(word_counts(wt), t + 2, 1, j1)
    &&& int_value(flat_from(wt, t + 2)[0], flat_from(rd, t + 2)[0]) matches Ok(pairs)
    &&& span_ends(word_counts(wt), j1, i32_as_usize(pairs), j2)
    &&& span_ends(word_counts(wt), j2, i32_as_usize(pairs), s)
}

/// Whether the photometric data of an IES file whose `TILT=` line is `t` begins at
/// line `s`: the next line, unless the tilt is `TILT=INCLUDE`, where it is the line
/// after the tilt table.
pub open spec fn is_data_start(
    wt: Seq<Seq<Seq<char>>>,
    rd: Seq<Seq<FloatReading>>,
    tl: Seq<Seq<char>>,
    t: int,
    s: int,
) -> bool {
    if tl[t] != "TILT=INCLUDE"@ {
        s == t + 1
    } else {
        exists|j1: int, j2: int| #[trigger] tilt_table_spans(wt, rd, t, j1, j2, s)
    }
}

/// Whether `rec` holds the lamp line read from line `s` on: its ten fields are the
/// first ten words from line `s` on, whatever lines they are spread over — the
/// number of lamps, the lumens per lamp, the candela multiplier, the numbers of
/// vertical and of horizontal angles, the photometric type, the units type, and
/// the width, length and height of the luminous opening.
pub open spec fn lamp_line_read(
    wt: Seq<Seq<Seq<char>>>,
    rd: Seq<Seq<FloatReading>>,
    s: int,
    rec: IesRecord,
) -> bool {
    let w = flat_from(wt, s);
    let r = flat_from(rd, s);
    &&& w.len() >= 10
    &&& int_value(w[0], r[0]) == Ok::<i32, Seq<char>>(rec.num_lamps)
    &&& float_value(w[1], r[1]) == Ok::<u32, Seq<char>>(rec.lumens_per_lamp)
    &&& float_value(w[2], r[2]) == Ok::<u32, Seq<char>>(rec.candela_multiplier)
    &&& int_value(w[3], r[3]) matches Ok(nv) && rec.vertical_angles.len() == i32_as_usize(nv)
    &&& int_value(w[4], r[4]) matches Ok(nh) && rec.horizontal_angles.len() == i32_as_usize(nh)
    &&& int_value(w[5], r[5]) matches Ok(pt) && rec.photometric_type == i32_as_u32(pt)
    &&& int_value(w[6], r[6]) == Ok::<i32, Seq<char>>(rec.units_type)
    &&& float_value(w[7], r[7]) == Ok::<u32, Seq<char>>(rec.width)
    &&& float_value(w[8], r[8]) == Ok::<u32, Seq<char>>(rec.length)
    &&& float_value(w[9], r[9]) == Ok::<u32, Seq<char>>(rec.height)
}

/// What an IES file reads to: after the first `TILT` line comes, directly or after
/// the tilt table, the lamp line, and the record's lamp fields are its ten values
/// in order.
pub proof fn lemma_ies_lamp_line(text: Seq<char>, rd: Seq<Seq<FloatReading>>)
    requires
        text.len() <= usize::MAX,
        readings_fit(ies_word_table(text), rd),
    ensures
        ies_outcome(text, rd) matches Outcome::Value(rec) ==> {
            let tl = ies_trimmed_lines(text);
            let wt = ies_word_table(text);
            &&& tilt_line_from(tl, 0) matches Some(t)
            &&& is_tilt_line(tl[t])
            &&& forall|k: int| 0 <= k < t ==> !is_tilt_line(#[trigger] tl[k])
            &&& exists|s: int| is_data_start(wt, rd, tl, t, s) && #[trigger] lamp_line_read(wt, rd, s, rec)
        },
{
    let tl = ies_trimmed_lines(text);
    let wt = ies_word_table(text);
    let counts = word_counts(wt);
    lemma_word_table_bounded(text);
    lemma_tilt_line_in(tl, 0);
    match ies_outcome(text, rd) {
        Outcome::Value(rec) => {
            let (t, s) = lemma_ies_start(text, rd);
            let (ps, j0) = take_values_span(counts, s, 10)->Value_0;
            lemma_token_span_len(counts, s, 10);
            lemma_token_span_flat(wt, rd, s, 10);
            lemma_lamp_fields_read(wt, rd, ps, 0);
            let fe = |j: int| lamp_field_error(wt, rd, ps[j], j);
            assert(fe(0) is None && fe(1) is None && fe(2) is None && fe(3) is None && fe(4) is None);
            assert(fe(5) is None && fe(6) is None && fe(7) is None && fe(8) is None && fe(9) is None);
            let nv = i32_as_usize(lamp_int(wt, rd, ps, 3));
            let nh = i32_as_usize(lamp_int(wt, rd, ps, 4));
            let j1 = take_values_span(counts, j0, 3)->Value_0.1;
            crate::ies::lemma_read_floats_len(wt, rd, j1, nv);
            let j2 = read_floats(wt, rd, j1, nv)->Value_0.1;
            crate::ies::lemma_read_floats_len(wt, rd, j2, nh);
            assert(lamp_line_read(wt, rd, s, rec));
        },
        _ => {},
    }
}


/// The data start of an IES file that reads: its `TILT=` line `t`, and the line
/// `s` at which its photometric data begins.
proof fn lemma_ies_start(text: Seq<char>, rd: Seq<Seq<FloatReading>>) -> (r: (int, int))
    requires
        text.len() <= usize::MAX,
        readings_fit(ies_word_table(text), rd),
        ies_outcome(text, rd) is Value,
    ensures
        tilt_line_from(ies_trimmed_lines(text), 0) == Some(r.0),
        is_data_start(ies_word_table(text), rd, ies_trimmed_lines(text), r.0, r.1),
        ies_data_start(ies_word_table(text), rd, ies_trimmed_lines(text), r.0) == Outcome::Value(
            r.1,
        ),
        0 <= r.1 <= ies_word_table(text).len(),
{
    let tl = ies_trimmed_lines(text);
    let wt = ies_word_table(text);
    let counts = word_counts(wt);
    lemma_word_table_bounded(text);
    lemma_tilt_line_in(tl, 0);
    let t = tilt_line_from(tl, 0)->Some_0;
    let s = ies_data_start(wt, rd, tl, t)->Value_0;
    if tl[t] == "TILT=INCLUDE"@ {
        let (ps, j1) = take_values_span(counts, t + 2, 1)->Value_0;
        lemma_token_span_len(counts, t + 2, 1);
        lemma_token_span_ends(counts, t + 2, 1);
        lemma_token_span_flat(wt, rd, t + 2, 1);
        let pairs = int_at(wt, rd, ps[0])->Ok_0;
        let c = i32_as_usize(pairs);
        let j2 = take_values_span(counts, j1, c)->Value_0.1;
        lemma_token_span_len(counts, j1, c);
        lemma_token_span_ends(counts, j1, c);
        lemma_token_span_len(counts, j2, c);
        lemma_token_span_ends(counts, j2, c);
        assert(tilt_table_spans(wt, rd, t, j1, j2, s));
    }
    (t, s)
}

/// Whether the words from line `a` on, read as floats, begin with the values `v`.
pub open spec fn floats_from(
    wt: Seq<Seq<Seq<char>>>,
    rd: Seq<Seq<FloatReading>>,
    a: int,
    v: Seq<u32>,
) -> bool {
    &&& v.len() <= flat_from(wt, a).len()
    &&& forall|k: int|
        0 <= k < v.len() ==> float_value(flat_from(wt, a)[k], flat_from(rd, a)[k]) == Ok::<
            u32,
            Seq<char>,
        >(#[trigger] v[k])
}

/// Whether the rows `rows`, of `n` values each, are read from lines `l[0]`,
/// `l[1]`, …: the first row is the first `n` words from line `l[0]` on, and the
/// next row begins on the line after the last line that it takes.
pub open spec fn rows_from(
    wt: Seq<Seq<Seq<char>>>,
    rd: Seq<Seq<FloatReading>>,
    l: Seq<int>,
    rows: Seq<Seq<u32>>,
    n: int,
) -> bool
    decreases rows.len(),
{
    &&& l.len() == rows.len() + 1
    &&& rows.len() > 0 ==> {
        &&& span_ends(word_counts(wt), l[0], n, l[1])
        &&& floats_from(wt, rd, l[0], rows[0])
        &&& rows_from(wt, rd, l.drop_first(), rows.drop_first(), n)
    }
}

/// Whether the data of `rec` is laid out from line `s` on as the format has it:
/// the lamp line's ten values ending before line `j0`, three electrical values
/// ending before `j1`, the vertical angles ending before `j2`, the horizontal
/// angles ending before `j3`, and the candela rows from line `j3 == l[0]` on, one
/// row of as many values as vertical angles per horizontal angle; each group of
/// values starts on a fresh line.
pub open spec fn data_laid_out(
    wt: Seq<Seq<Seq<char>>>,
    rd: Seq<Seq<FloatReading>>,
    s: int,
    rec: IesRecord,
    j0: int,
    j1: int,
    j2: int,
    l: Seq<int>,
) -> bool {
    &&& span_ends(word_counts(wt), s, 10, j0)
    &&& span_ends(word_counts(wt), j0, 3, j1)
    &&& span_ends(word_counts(wt), j1, rec.vertical_angles.len() as int, j2)
    &&& floats_from(wt, rd, j1, rec.vertical_angles)
    &&& l.len() > 0
    &&& span_ends(word_counts(wt), j2, rec.horizontal_angles.len() as int, l[0])
    &&& floats_from(wt, rd, j2, rec.horizontal_angles)
    &&& rec.candela_values.len() == rec.horizontal_angles.len()
    &&& rows_from(wt, rd, l, rec.candela_values, rec.vertical_angles.len() as int)
}

/// The floats read at positions `ps` are those of the words there.
proof fn lemma_floats_at_each(
    wt: Seq<Seq<Seq<char>>>,
    rd: Seq<Seq<FloatReading>>,
    ps: Seq<(usize, usize)>,
)
    ensures
        floats_at(wt, rd, ps) matches Ok(v) ==> {
            &&& v.len() == ps.len()
            &&& forall|k: int| 0 <= k < v.len() ==> float_at(wt, rd, ps[k]) == Ok::<u32, Seq<char>>(#[trigger] v[k])
        },
    decreases ps.len(),
{
    if ps.len() > 0 {
        lemma_floats_at_each(wt, rd, ps.drop_first());
        match floats_at(wt, rd, ps) {
            Ok(v) => {
                let r = floats_at(wt, rd, ps.drop_first())->Ok_0;
                assert forall|k: int| 0 <= k < v.len() implies float_at(wt, rd, ps[k]) == Ok::<
                    u32,
                    Seq<char>,
                >(#[trigger] v[k]) by {
                    if k > 0 {
                        assert(v[k] == r[k - 1]);
                        assert(ps[k] == ps.drop_first()[k - 1]);
                    }
                }
            },
            Err(_) => {},
        }
    }
}

/// Reading `n` floats from line `a` on takes the first `n` words from there, and
/// stops at the first line by which `n` words have been seen.
proof fn lemma_read_floats_from(
    wt: Seq<Seq<Seq<char>>>,
    rd: Seq<Seq<FloatReading>>,
    a: int,
    n: int,
)
    requires
        table_bounded(wt),
        readings_fit(wt, rd),
        0 <= a <= wt.len(),
        0 <= n,
    ensures
        read_floats(wt, rd, a, n) matches Outcome::Value((v, j)) ==> {
            &&& v.len() == n
            &&& span_ends(word_counts(wt), a, n, j)
            &&& floats_from(wt, rd, a, v)
        },
{
    let counts = word_counts(wt);
    lemma_token_span_len(counts, a, n);
    if read_floats(wt, rd, a, n) is Value {
        lemma_token_span_ends(counts, a, n);
        lemma_token_span_flat(wt, rd, a, n);
        let ps = token_span(counts, a, n).0;
        lemma_floats_at_each(wt, rd, ps);
        let v = floats_at(wt, rd, ps)->Ok_0;
        assert forall|k: int| 0 <= k < v.len() implies float_value(
            flat_from(wt, a)[k],
            flat_from(rd, a)[k],
        ) == Ok::<u32, Seq<char>>(#[trigger] v[k]) by {
            assert(float_at(wt, rd, ps[k]) == Ok::<u32, Seq<char>>(v[k]));
        }
    }
}

/// The lines from which `read_rows` reads its rows.
proof fn lemma_read_rows_from(
    wt: Seq<Seq<Seq<char>>>,
    rd: Seq<Seq<FloatReading>>,
    a: int,
    rows: nat,
    n: int,
    rs: Seq<Seq<u32>>,
    k: int,
) -> (l: Seq<int>)
    requires
        table_bounded(wt),
        readings_fit(wt, rd),
        0 <= a <= wt.len(),
        0 <= n,
        read_rows(wt, rd, a, rows, n) == Outcome::Value((rs, k)),
    ensures
        l.len() > 0,
        l[0] == a,
        rows_from(wt, rd, l, rs, n),
    decreases rows,
{
    if rows == 0 {
        assert(rs.len() == 0);
        assert(rows_from(wt, rd, seq![a], rs, n));
        seq![a]
    } else {
        lemma_read_floats_from(wt, rd, a, n);
        let (row, j) = read_floats(wt, rd, a, n)->Value_0;
        let (rest, k2) = read_rows(wt, rd, j, (rows - 1) as nat, n)->Value_0;
        let l2 = lemma_read_rows_from(wt, rd, j, (rows - 1) as nat, n, rest, k2);
        let l = seq![a] + l2;
        assert(rs == seq![row] + rest);
        assert(rs.drop_first() =~= rest);
        assert(l.drop_first() =~= l2);
        assert(rows_from(wt, rd, l, rs, n));
        l
    }
}

/// How an IES file's photometric data is laid out: from the line where it begins,
/// the lamp line, three electrical values, the vertical angles, the horizontal
/// angles and one candela row per horizontal angle follow each other, each group
/// starting on a fresh line, and each value read is the float of its word.
pub proof fn lemma_ies_data_lines(text: Seq<char>, rd: Seq<Seq<FloatReading>>)
    requires
        text.len() <= usize::MAX,
        readings_fit(ies_word_table(text), rd),
    ensures
        ies_outcome(text, rd) matches Outcome::Value(rec) ==> {
            let tl = ies_trimmed_lines(text);
            let wt = ies_word_table(text);
            &&& tilt_line_from(tl, 0) matches Some(t)
            &&& is_tilt_line(tl[t])
            &&& forall|k: int| 0 <= k < t ==> !is_tilt_line(#[trigger] tl[k])
            &&& exists|s: int, j0: int, j1: int, j2: int, l: Seq<int>|
                is_data_start(wt, rd, tl, t, s) && #[trigger] data_laid_out(
                    wt,
                    rd,
                    s,
                    rec,
                    j0,
                    j1,
                    j2,
                    l,
                )
        },
{
    let tl = ies_trimmed_lines(text);
    let wt = ies_word_table(text);
    let counts = word_counts(wt);
    lemma_word_table_bounded(text);
    lemma_tilt_line_in(tl, 0);
    if let Outcome::Value(rec) = ies_outcome(text, rd) {
        let (t, s) = lemma_ies_start(text, rd);
        let (ps, j0) = take_values_span(counts, s, 10)->Value_0;
        lemma_token_span_len(counts, s, 10);
        lemma_token_span_ends(counts, s, 10);
        let nv = i32_as_usize(lamp_int(wt, rd, ps, 3));
        let nh = i32_as_usize(lamp_int(wt, rd, ps, 4));
        let j1 = take_values_span(counts, j0, 3)->Value_0.1;
        lemma_token_span_len(counts, j0, 3);
        lemma_token_span_ends(counts, j0, 3);
        lemma_read_floats_from(wt, rd, j1, nv);
        let (va, j2) = read_floats(wt, rd, j1, nv)->Value_0;
        lemma_read_floats_from(wt, rd, j2, nh);
        let (ha, j3) = read_floats(wt, rd, j2, nh)->Value_0;
        let (rows, k) = read_rows(wt, rd, j3, nh as nat, nv)->Value_0;
        let l = lemma_read_rows_from(wt, rd, j3, nh as nat, nv, rows, k);
        lemma_read_rows_shape(wt, rd, j3, nh as nat, nv);
        assert(data_laid_out(wt, rd, s, rec, j0, j1, j2, l));
    }
}


/// An IES file with no line that starts with `TILT` is refused for that reason.
pub proof fn lemma_ies_no_tilt(text: Seq<char>, rd: Seq<Seq<FloatReading>>)
    requires
        forall|k: int|
            0 <= k < ies_trimmed_lines(text).len() ==> !is_tilt_line(
                #[trigger] ies_trimmed_lines(text)[k],
            ),
    ensures
        ies_outcome(text, rd) == Outcome::<IesRecord>::Failed("No TILT line found"@),
{
    let tl = ies_trimmed_lines(text);
    lemma_tilt_line_in(tl, 0);
    if let Some(t) = tilt_line_from(tl, 0) {
        assert(is_tilt_line(tl[t]));
    }
}

} // verus!
