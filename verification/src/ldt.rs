//! The EULUMDAT (LDT) photometric file format.
//!
//! A fixed-field text format with one value per line. Lines 0–25 (counting from
//! 0) hold the header: the symmetry indicator on line 2, the number of C-planes
//! on line 3 and their spacing on line 4, the number of gamma angles on line 5
//! and their spacing on line 6, the luminaire's length, width and height (mm) on
//! lines 12–14, the intensity conversion factor on line 23 and the number of lamp
//! sets on line 25. Six lines per lamp set follow (the first set's luminous flux
//! on line 28), then ten direct ratios, the C-plane angles, the gamma angles, and
//! the intensities, one block of gamma values per C-plane that holds data.
use vstd::prelude::*;
use crate::ies::{
    i32_as_u32, i32_as_usize, i32_to_u32, i32_to_usize, invalid_float_message, invalid_int_message,
    u32_rows,
};
use crate::loader::LdtLoaderError;
use crate::number::{
    FloatReading, f32_bits_le, f32_bits_to_i32, f32_le, f32_to_i32, i32_literal, parse_i32_literal,
};
use crate::text::{
    char_rows, concat_chars, decimal, decimal_chars, decimal_chars_i64, decimal_int, lines_of,
    split_lines, str_chars, string_from_chars, trim, trim_chars,
};
use crate::interp::angles_sorted;
use crate::tokens::{Halt, Outcome, capacity_fits, halts_as, vec_capacity_fits};

verus! {

/// The bits of the `f32` 180.0.
pub open spec fn bits_180() -> u32 {
    0x4334_0000
}

/// The bits of the `f32` 90.0.
pub open spec fn bits_90() -> u32 {
    0x42B4_0000
}

/// A line as the number reader sees it: trimmed, with a decimal comma written as a point.
pub open spec fn ldt_number_text_of(l: Seq<char>) -> Seq<char> {
    trim(l).map_values(|c: char| if c == ',' { '.' } else { c })
}

/// Reading line `l` as an integer, where reading its number text as an `f32`
/// gave `reading`: the trimmed line as an `i32` literal; else that float
/// truncated to an `i32` (so "2.0" and "2,0" give 2); else an error.
pub open spec fn ldt_int_value(l: Seq<char>, reading: FloatReading) -> Result<i32, Seq<char>> {
    match i32_literal(trim(l)) {
        Some(v) => Ok(v),
        None => match reading {
            Some(b) => Ok(f32_to_i32(b)),
            None => Err(invalid_int_message(trim(l))),
        },
    }
}

/// Reading line `l` as a float, where reading its number text as an `f32` gave `reading`.
pub open spec fn ldt_float_value(l: Seq<char>, reading: FloatReading) -> Result<u32, Seq<char>> {
    match reading {
        Some(b) => Ok(b),
        None => Err(invalid_float_message(trim(l))),
    }
}

/// Lines `from` to `to` (exclusive) read as floats, in order; the first failure
/// stops the reading.
pub open spec fn ldt_floats(ls: Seq<Seq<char>>, rd: Seq<FloatReading>, from: int, to: int) -> Result<
    Seq<u32>,
    Seq<char>,
>
    decreases to - from,
{
    if from >= to {
        Ok(seq![])
    } else {
        match ldt_float_value(ls[from], rd[from]) {
            Err(m) => Err(m),
            Ok(b) => match ldt_floats(ls, rd, from + 1, to) {
                Ok(r) => Ok(seq![b] + r),
                Err(m) => Err(m),
            },
        }
    }
}

/// The line of header field `k`: symmetry indicator, number of C-planes, their
/// spacing, number of gamma angles, their spacing, length, width, height,
/// conversion factor, number of lamp sets.
pub open spec fn header_line(k: int) -> int {
    if k == 0 {
        2
    } else if k == 1 {
        3
    } else if k == 2 {
        4
    } else if k == 3 {
        5
    } else if k == 4 {
        6
    } else if k == 5 {
        12
    } else if k == 6 {
        13
    } else if k == 7 {
        14
    } else if k == 8 {
        23
    } else {
        25
    }
}

/// Whether header field `k` is an integer (the others are floats).
pub open spec fn header_is_int(k: int) -> bool {
    k == 0 || k == 1 || k == 3 || k == 9
}

/// The error of reading header field `k`, if any.
pub open spec fn header_field_error(ls: Seq<Seq<char>>, rd: Seq<FloatReading>, k: int) -> Option<
    Seq<char>,
> {
    let i = header_line(k);
    if header_is_int(k) {
        match ldt_int_value(ls[i], rd[i]) {
            Err(m) => Some(m),
            Ok(_) => None,
        }
    } else {
        match ldt_float_value(ls[i], rd[i]) {
            Err(m) => Some(m),
            Ok(_) => None,
        }
    }
}

/// The first error among header fields `k` to 9, read in order.
pub open spec fn header_error_from(ls: Seq<Seq<char>>, rd: Seq<FloatReading>, k: int) -> Option<
    Seq<char>,
>
    decreases 10 - k,
{
    if k < 0 || k >= 10 {
        None
    } else {
        match header_field_error(ls, rd, k) {
            Some(m) => Some(m),
            None => header_error_from(ls, rd, k + 1),
        }
    }
}

/// The integer header field `k`.
pub open spec fn header_int(ls: Seq<Seq<char>>, rd: Seq<FloatReading>, k: int) -> i32 {
    match ldt_int_value(ls[header_line(k)], rd[header_line(k)]) {
        Ok(v) => v,
        Err(_) => 0,
    }
}

/// The float header field `k`.
pub open spec fn header_float(ls: Seq<Seq<char>>, rd: Seq<FloatReading>, k: int) -> u32 {
    match ldt_float_value(ls[header_line(k)], rd[header_line(k)]) {
        Ok(v) => v,
        Err(_) => 0,
    }
}

/// How many of the values `v` are at most `bound` (as `f32`).
pub open spec fn count_at_most(v: Seq<u32>, bound: u32) -> nat
    decreases v.len(),
{
    if v.len() == 0 {
        0
    } else {
        count_at_most(v.drop_last(), bound) + if f32_le(v.last(), bound) {
            1nat
        } else {
            0nat
        }
    }
}

/// The number of C-planes whose intensities the file holds, by its symmetry:
/// one for rotational symmetry (1), those up to 180° for symmetry about a plane
/// (2, 3), those up to 90° for quadrant symmetry (4), all of them otherwise.
pub open spec fn data_planes(isym: i32, c_angles: Seq<u32>, num_c_planes: int) -> int {
    if isym == 1 {
        1
    } else if isym == 2 || isym == 3 {
        count_at_most(c_angles, bits_180()) as int
    } else if isym == 4 {
        count_at_most(c_angles, bits_90()) as int
    } else {
        num_c_planes
    }
}

/// The message of the error for a file too short for its intensities.
pub open spec fn intensity_message(
    total: int,
    start: int,
    lines: int,
    isym: i32,
    planes: int,
    gamma: int,
) -> Seq<char> {
    "File too short for intensity data: need "@ + decimal(total as nat) + " lines from offset "@
        + decimal(start as nat) + ", file has "@ + decimal(lines as nat) + " lines (isym="@
        + decimal_int(isym as int) + ", data_planes="@ + decimal(planes as nat) + ", gamma="@
        + decimal(gamma as nat) + ")"@
}

/// `all` cut into `rows` rows of `n` values each.
pub open spec fn chunk_rows(all: Seq<u32>, rows: int, n: int) -> Seq<Seq<u32>> {
    Seq::new(rows as nat, |c: int| all.subrange(c * n, c * n + n))
}

/// An EULUMDAT file's data, with its float values as IEEE 754 bits, as written
/// (the intensities not yet scaled by the conversion factor).
#[verifier::ext_equal]
pub struct LdtRecord {
    pub isym: u32,
    pub num_c_planes: usize,
    pub delta_c: u32,
    pub num_gamma: usize,
    pub delta_gamma: u32,
    pub c_angles: Seq<u32>,
    pub gamma_angles: Seq<u32>,
    pub intensities: Seq<Seq<u32>>,
    pub conversion_factor: u32,
    pub total_flux: u32,
    pub length_mm: u32,
    pub width_mm: u32,
    pub height_mm: u32,
}

/// Reading the intensities that begin at line `ge` and building the record.
pub open spec fn ldt_intensities(
    ls: Seq<Seq<char>>,
    rd: Seq<FloatReading>,
    ca: Seq<u32>,
    ga: Seq<u32>,
    flux: u32,
    ge: int,
) -> Outcome<LdtRecord> {
    let n = ls.len() as int;
    let isym = header_int(ls, rd, 0);
    let nc = i32_as_usize(header_int(ls, rd, 1));
    let ng = i32_as_usize(header_int(ls, rd, 3));
    let ndp = data_planes(isym, ca, nc);
    if ndp * ng > usize::MAX || ge + ndp * ng > usize::MAX {
        Outcome::Aborts
    } else if ge + ndp * ng > n {
        Outcome::Failed(intensity_message(ndp * ng, ge, n, isym, ndp, ng))
    } else if !vec_capacity_fits(ndp) {
        Outcome::Aborts
    } else {
        match ldt_floats(ls, rd, ge, ge + ndp * ng) {
            Err(m) => Outcome::Failed(m),
            Ok(all) => if ndp > ca.len() {
                Outcome::Aborts
            } else {
                Outcome::Value(
                    LdtRecord {
                        isym: i32_as_u32(isym),
                        num_c_planes: nc as usize,
                        delta_c: header_float(ls, rd, 2),
                        num_gamma: ng as usize,
                        delta_gamma: header_float(ls, rd, 4),
                        c_angles: ca.take(ndp),
                        gamma_angles: ga,
                        intensities: chunk_rows(all, ndp, ng),
                        conversion_factor: header_float(ls, rd, 8),
                        total_flux: flux,
                        length_mm: header_float(ls, rd, 5),
                        width_mm: header_float(ls, rd, 6),
                        height_mm: header_float(ls, rd, 7),
                    },
                )
            },
        }
    }
}

/// Reading what follows the header: the lamp sets, the direct ratios, the
/// C-plane and gamma angles, and the intensities.
pub open spec fn ldt_body(ls: Seq<Seq<char>>, rd: Seq<FloatReading>) -> Outcome<LdtRecord> {
    let n = ls.len() as int;
    let nc = i32_as_usize(header_int(ls, rd, 1));
    let ng = i32_as_usize(header_int(ls, rd, 3));
    let nls = i32_as_usize(header_int(ls, rd, 9));
    let lde = 26 + nls * 6;
    if lde > usize::MAX {
        Outcome::Aborts
    } else {
        match (if nls > 0 && 28 < n {
            ldt_float_value(ls[28], rd[28])
        } else {
            Ok(0u32)
        }) {
            Err(m) => Outcome::Failed(m),
            Ok(flux) => if lde >= n {
                Outcome::Failed("File too short for lamp data"@)
            } else if lde + 10 >= n {
                Outcome::Failed("File too short for direct ratios"@)
            } else if lde + 10 + nc > usize::MAX {
                Outcome::Aborts
            } else if lde + 10 + nc > n {
                Outcome::Failed("File too short for C-plane angles"@)
            } else {
                let ce = lde + 10 + nc;
                match ldt_floats(ls, rd, lde + 10, ce) {
                    Err(m) => Outcome::Failed(m),
                    Ok(ca) => if ce + ng > usize::MAX {
                        Outcome::Aborts
                    } else if ce + ng > n {
                        Outcome::Failed("File too short for gamma angles"@)
                    } else {
                        match ldt_floats(ls, rd, ce, ce + ng) {
                            Err(m) => Outcome::Failed(m),
                            Ok(ga) => ldt_intensities(ls, rd, ca, ga, flux, ce + ng),
                        }
                    },
                }
            },
        }
    }
}

/// Reading an EULUMDAT file whose text is `text`, where `rd[i]` is what reading
/// the number text of line `i` as an `f32` gave.
pub open spec fn ldt_outcome(text: Seq<char>, rd: Seq<FloatReading>) -> Outcome<LdtRecord> {
    let ls = lines_of(text);
    if ls.len() < 42 {
        Outcome::Failed("File too short for EULUMDAT format"@)
    } else {
        match header_error_from(ls, rd, 0) {
            Some(m) => Outcome::Failed(m),
            None => ldt_body(ls, rd),
        }
    }
}


fn number_text_chars(l: &[char]) -> (v: Vec<char>)
    ensures
        v@ == ldt_number_text_of(l@),
{
    let t = trim_chars(l);
    let mut v: Vec<char> = Vec::new();
    let n = t.len();
    for i in 0..n
        invariant
            n == t@.len(),
            v@ == t@.take(i as int).map_values(|c: char| if c == ',' { '.' } else { c }),
    {
        let c = t[i];
        v.push(if c == ',' { '.' } else { c });
        assert(v@ =~= t@.take(i + 1).map_values(|c: char| if c == ',' { '.' } else { c }));
    }
    assert(t@.take(n as int) =~= t@);
    v
}

/// The text that the number on a line of an EULUMDAT file is read from: the
/// line trimmed, with a decimal comma written as a point ("1234,5" gives "1234.5").
pub fn ldt_number_text(line: &str) -> (r: String)
    ensures
        r@ == ldt_number_text_of(line@),
{
    let chars = str_chars(line);
    let v = number_text_chars(chars.as_slice());
    string_from_chars(v.as_slice())
}

/// The number text of each line of an EULUMDAT text; reading each as an `f32`
/// gives the readings that `parse_ldt` takes.
pub fn ldt_number_texts(text: &str) -> (r: Vec<String>)
    ensures
        crate::tokens::string_rows(r@) == lines_of(text@).map_values(
            |l: Seq<char>| ldt_number_text_of(l),
        ),
{
    let chars = str_chars(text);
    let lines = split_lines(chars.as_slice());
    let ghost ls = char_rows(lines@);
    let mut out: Vec<String> = Vec::new();
    let n = lines.len();
    for i in 0..n
        invariant
            n == lines@.len(),
            ls == char_rows(lines@),
            crate::tokens::string_rows(out@) == ls.take(i as int).map_values(
                |l: Seq<char>| ldt_number_text_of(l),
            ),
    {
        let v = number_text_chars(lines[i].as_slice());
        let s = string_from_chars(v.as_slice());
        let ghost old_out = crate::tokens::string_rows(out@);
        let ghost sv = s@;
        out.push(s);
        assert(ls[i as int] == lines@[i as int]@);
        assert(crate::tokens::string_rows(out@) =~= old_out.push(sv));
        assert(crate::tokens::string_rows(out@) =~= ls.take(i + 1).map_values(
            |l: Seq<char>| ldt_number_text_of(l),
        ));
    }
    assert(ls.take(n as int) =~= ls);
    out
}

fn quoted(prefix: &str, s: &[char]) -> (v: Vec<char>)
    ensures
        v@ == prefix@ + s@ + "'"@,
{
    let a = str_chars(prefix);
    let b = concat_chars(&a, s);
    let q = str_chars("'");
    concat_chars(&b, &q)
}

fn ldt_int_exec(l: &[char], reading: FloatReading) -> (r: Result<i32, Vec<char>>)
    ensures
        match r {
            Ok(v) => ldt_int_value(l@, reading) == Ok::<i32, Seq<char>>(v),
            Err(m) => ldt_int_value(l@, reading) == Err::<i32, Seq<char>>(m@),
        },
{
    let t = trim_chars(l);
    match parse_i32_literal(t.as_slice()) {
        Some(v) => Ok(v),
        None => match reading {
            Some(b) => Ok(f32_bits_to_i32(b)),
            None => Err(quoted("Invalid integer: '", t.as_slice())),
        },
    }
}

fn ldt_float_exec(l: &[char], reading: FloatReading) -> (r: Result<u32, Vec<char>>)
    ensures
        match r {
            Ok(v) => ldt_float_value(l@, reading) == Ok::<u32, Seq<char>>(v),
            Err(m) => ldt_float_value(l@, reading) == Err::<u32, Seq<char>>(m@),
        },
{
    match reading {
        Some(b) => Ok(b),
        None => {
            let t = trim_chars(l);
            Err(quoted("Invalid float: '", t.as_slice()))
        },
    }
}

/// Reads the integer on a line of an EULUMDAT file, where `reading` is what reading
/// the line's number text (`ldt_number_text`) as an `f32` gave: the trimmed line as
/// an integer literal, else that float truncated (as `as i32` does), else an error.
pub fn parse_ldt_int(line: &str, reading: FloatReading) -> (r: Result<i32, LdtLoaderError>)
    ensures
        match ldt_int_value(line@, reading) {
            Ok(v) => r matches Ok(w) && w == v,
            Err(m) => r matches Err(LdtLoaderError::Parse(e)) && e@ == m,
        },
{
    let chars = str_chars(line);
    match ldt_int_exec(chars.as_slice(), reading) {
        Ok(v) => Ok(v),
        Err(m) => Err(LdtLoaderError::Parse(string_from_chars(m.as_slice()))),
    }
}

/// Reads the float on a line of an EULUMDAT file, where `reading` is what reading the
/// line's number text (`ldt_number_text`) as an `f32` gave: its bits, or an error
/// that quotes the trimmed line.
pub fn parse_ldt_float(line: &str, reading: FloatReading) -> (r: Result<u32, LdtLoaderError>)
    ensures
        match ldt_float_value(line@, reading) {
            Ok(v) => r matches Ok(w) && w == v,
            Err(m) => r matches Err(LdtLoaderError::Parse(e)) && e@ == m,
        },
{
    let chars = str_chars(line);
    match ldt_float_exec(chars.as_slice(), reading) {
        Ok(v) => Ok(v),
        Err(m) => Err(LdtLoaderError::Parse(string_from_chars(m.as_slice()))),
    }
}

/// `o` followed by what `r` read, or the failure of `r`.
pub open spec fn prepend_values(o: Seq<u32>, r: Result<Seq<u32>, Seq<char>>) -> Result<
    Seq<u32>,
    Seq<char>,
> {
    match r {
        Ok(v) => Ok(o + v),
        Err(m) => Err(m),
    }
}

fn ldt_floats_exec(lines: &Vec<Vec<char>>, rd: &Vec<FloatReading>, from: usize, to: usize) -> (r:
    Result<Vec<u32>, Vec<char>>)
    requires
        from <= to <= lines@.len(),
        rd@.len() == lines@.len(),
    ensures
        match r {
            Ok(v) => ldt_floats(char_rows(lines@), rd@, from as int, to as int) == Ok::<
                Seq<u32>,
                Seq<char>,
            >(v@),
            Err(m) => ldt_floats(char_rows(lines@), rd@, from as int, to as int) == Err::<
                Seq<u32>,
                Seq<char>,
            >(m@),
        },
{
    let ghost ls = char_rows(lines@);
    let mut out: Vec<u32> = Vec::new();
    proof {
        match ldt_floats(ls, rd@, from as int, to as int) {
            Ok(v) => {
                assert(out@ + v =~= v);
            },
            Err(m) => {},
        }
    }
    for i in from..to
        invariant
            to <= lines@.len() == rd@.len(),
            ls == char_rows(lines@),
            ldt_floats(ls, rd@, from as int, to as int) == prepend_values(
                out@,
                ldt_floats(ls, rd@, i as int, to as int),
            ),
    {
        assert(ls[i as int] == lines@[i as int]@);
        match ldt_float_exec(lines[i].as_slice(), rd[i]) {
            Ok(b) => {
                let ghost old_out = out@;
                out.push(b);
                proof {
                    match ldt_floats(ls, rd@, i + 1, to as int) {
                        Ok(v) => {
                            assert(old_out + (seq![b] + v) =~= out@ + v);
                        },
                        Err(m) => {},
                    }
                }
            },
            Err(m) => {
                return Err(m);
            },
        }
    }
    assert(out@ + seq![] =~= out@);
    Ok(out)
}

fn count_at_most_exec(v: &Vec<u32>, bound: u32) -> (r: usize)
    ensures
        r == count_at_most(v@, bound),
{
    let mut c: usize = 0;
    let n = v.len();
    for i in 0..n
        invariant
            n == v@.len(),
            c == count_at_most(v@.take(i as int), bound),
            c <= i,
    {
        assert(v@.take(i + 1).drop_last() =~= v@.take(i as int));
        if f32_bits_le(v[i], bound) {
            c += 1;
        }
    }
    assert(v@.take(n as int) =~= v@);
    c
}


/// The data of an EULUMDAT file, with each float as its IEEE 754 bits
/// (`f32::to_bits`), as the file writes it: the intensities are not yet scaled
/// by the conversion factor. Only the C-planes that hold data are kept.
#[derive(Debug)]
pub struct LdtData {
    /// Symmetry indicator: 0 none, 1 rotational, 2 about C0-C180, 3 about
    /// C90-C270, 4 about both (quadrant).
    pub isym: u32,
    /// Number of C-planes that the file describes.
    pub num_c_planes: usize,
    /// Distance between C-planes, in degrees.
    pub delta_c: u32,
    /// Number of gamma angles per C-plane.
    pub num_gamma: usize,
    /// Distance between gamma angles, in degrees.
    pub delta_gamma: u32,
    /// The angles of the C-planes that hold data, in degrees.
    pub c_angles: Vec<u32>,
    /// Gamma angles, in degrees.
    pub gamma_angles: Vec<u32>,
    /// Intensities (cd/klm before conversion): one row per C-plane with data.
    pub intensities: Vec<Vec<u32>>,
    /// Conversion factor for the intensities.
    pub conversion_factor: u32,
    /// Luminous flux of the first lamp set, in lumens (0 without lamp sets).
    pub total_flux: u32,
    /// Length or diameter of the luminaire, in mm.
    pub length_mm: u32,
    /// Width of the luminaire, in mm (0 for circular).
    pub width_mm: u32,
    /// Height of the luminaire, in mm.
    pub height_mm: u32,
}

impl View for LdtData {
    type V = LdtRecord;

    open spec fn view(&self) -> LdtRecord {
        LdtRecord {
            isym: self.isym,
            num_c_planes: self.num_c_planes,
            delta_c: self.delta_c,
            num_gamma: self.num_gamma,
            delta_gamma: self.delta_gamma,
            c_angles: self.c_angles@,
            gamma_angles: self.gamma_angles@,
            intensities: u32_rows(self.intensities@),
            conversion_factor: self.conversion_factor,
            total_flux: self.total_flux,
            length_mm: self.length_mm,
            width_mm: self.width_mm,
            height_mm: self.height_mm,
        }
    }
}

fn header_line_exec(k: usize) -> (i: usize)
    requires
        k < 10,
    ensures
        i == header_line(k as int),
{
    if k == 0 {
        2
    } else if k == 1 {
        3
    } else if k == 2 {
        4
    } else if k == 3 {
        5
    } else if k == 4 {
        6
    } else if k == 5 {
        12
    } else if k == 6 {
        13
    } else if k == 7 {
        14
    } else if k == 8 {
        23
    } else {
        25
    }
}

/// The header's integer and float fields, or the first error.
fn read_header(lines: &Vec<Vec<char>>, rd: &Vec<FloatReading>) -> (r: Result<
    (Vec<i32>, Vec<u32>),
    Vec<char>,
>)
    requires
        lines@.len() >= 42,
        rd@.len() == lines@.len(),
    ensures
        match r {
            Ok((iv, fv)) => {
                &&& header_error_from(char_rows(lines@), rd@, 0) is None
                &&& iv@.len() == 10
                &&& fv@.len() == 10
                &&& forall|k: int|
                    0 <= k < 10 && header_is_int(k) ==> #[trigger] iv@[k] == header_int(
                        char_rows(lines@),
                        rd@,
                        k,
                    )
                &&& forall|k: int|
                    0 <= k < 10 && !header_is_int(k) ==> #[trigger] fv@[k] == header_float(
                        char_rows(lines@),
                        rd@,
                        k,
                    )
            },
            Err(m) => header_error_from(char_rows(lines@), rd@, 0) == Some(m@),
        },
{
    let ghost ls = char_rows(lines@);
    let mut iv: Vec<i32> = Vec::new();
    let mut fv: Vec<u32> = Vec::new();
    for k in 0..10usize
        invariant
            lines@.len() >= 42,
            rd@.len() == lines@.len(),
            ls == char_rows(lines@),
            iv@.len() == k,
            fv@.len() == k,
            header_error_from(ls, rd@, 0) == header_error_from(ls, rd@, k as int),
            forall|j: int|
                0 <= j < k && header_is_int(j) ==> #[trigger] iv@[j] == header_int(ls, rd@, j),
            forall|j: int|
                0 <= j < k && !header_is_int(j) ==> #[trigger] fv@[j] == header_float(ls, rd@, j),
    {
        let i = header_line_exec(k);
        assert(ls[i as int] == lines@[i as int]@);
        if k == 0 || k == 1 || k == 3 || k == 9 {
            match ldt_int_exec(lines[i].as_slice(), rd[i]) {
                Ok(v) => {
                    iv.push(v);
                    fv.push(0);
                },
                Err(m) => {
                    return Err(m);
                },
            }
        } else {
            match ldt_float_exec(lines[i].as_slice(), rd[i]) {
                Ok(b) => {
                    iv.push(0);
                    fv.push(b);
                },
                Err(m) => {
                    return Err(m);
                },
            }
        }
    }
    Ok((iv, fv))
}

fn copy_values(v: &Vec<u32>, from: usize, to: usize) -> (r: Vec<u32>)
    requires
        from <= to <= v@.len(),
    ensures
        r@ == v@.subrange(from as int, to as int),
{
    let mut r: Vec<u32> = Vec::new();
    for i in from..to
        invariant
            to <= v@.len(),
            r@ == v@.subrange(from as int, i as int),
    {
        r.push(v[i]);
        assert(r@ =~= v@.subrange(from as int, i + 1));
    }
    r
}

fn intensity_message_chars(
    total: usize,
    start: usize,
    lines: usize,
    isym: i32,
    planes: usize,
    gamma: usize,
) -> (v: Vec<char>)
    ensures
        v@ == intensity_message(
            total as int,
            start as int,
            lines as int,
            isym,
            planes as int,
            gamma as int,
        ),
{
    let v = str_chars("File too short for intensity data: need ");
    let v = concat_chars(&v, decimal_chars(total as u64).as_slice());
    let v = concat_chars(&v, str_chars(" lines from offset ").as_slice());
    let v = concat_chars(&v, decimal_chars(start as u64).as_slice());
    let v = concat_chars(&v, str_chars(", file has ").as_slice());
    let v = concat_chars(&v, decimal_chars(lines as u64).as_slice());
    let v = concat_chars(&v, str_chars(" lines (isym=").as_slice());
    let v = concat_chars(&v, decimal_chars_i64(isym as i64).as_slice());
    let v = concat_chars(&v, str_chars(", data_planes=").as_slice());
    let v = concat_chars(&v, decimal_chars(planes as u64).as_slice());
    let v = concat_chars(&v, str_chars(", gamma=").as_slice());
    let v = concat_chars(&v, decimal_chars(gamma as u64).as_slice());
    concat_chars(&v, str_chars(")").as_slice())
}


/// What the header fields stand for, in the readers below.
pub open spec fn header_ok(
    ls: Seq<Seq<char>>,
    rd: Seq<FloatReading>,
    iv: Seq<i32>,
    fv: Seq<u32>,
) -> bool {
    &&& iv.len() == 10
    &&& fv.len() == 10
    &&& forall|k: int| 0 <= k < 10 && header_is_int(k) ==> #[trigger] iv[k] == header_int(ls, rd, k)
    &&& forall|k: int|
        0 <= k < 10 && !header_is_int(k) ==> #[trigger] fv[k] == header_float(ls, rd, k)
}

/// Lines read as floats give one value per line.
pub proof fn lemma_ldt_floats_len(ls: Seq<Seq<char>>, rd: Seq<FloatReading>, from: int, to: int)
    requires
        from <= to,
    ensures
        ldt_floats(ls, rd, from, to) matches Ok(v) ==> v.len() == to - from,
    decreases to - from,
{
    if from < to {
        lemma_ldt_floats_len(ls, rd, from + 1, to);
    }
}

fn ldt_intensities_exec(
    lines: &Vec<Vec<char>>,
    rd: &Vec<FloatReading>,
    iv: &Vec<i32>,
    fv: &Vec<u32>,
    ca: Vec<u32>,
    ga: Vec<u32>,
    flux: u32,
    ge: usize,
) -> (r: Result<LdtData, Halt>)
    requires
        lines@.len() >= 42,
        rd@.len() == lines@.len(),
        header_ok(char_rows(lines@), rd@, iv@, fv@),
    ensures
        match r {
            Ok(d) => ldt_intensities(char_rows(lines@), rd@, ca@, ga@, flux, ge as int)
                == Outcome::Value(d@),
            Err(h) => halts_as(
                h,
                ldt_intensities(char_rows(lines@), rd@, ca@, ga@, flux, ge as int),
            ),
        },
{
    let ghost ls = char_rows(lines@);
    assert(header_is_int(0) && header_is_int(1) && header_is_int(3));
    assert(!header_is_int(2) && !header_is_int(4) && !header_is_int(5) && !header_is_int(6)
        && !header_is_int(7) && !header_is_int(8));
    let n = lines.len();
    let isym = iv[0];
    let nc = i32_to_usize(iv[1]);
    let ng = i32_to_usize(iv[3]);
    let ndp: usize = if isym == 1 {
        1
    } else if isym == 2 || isym == 3 {
        count_at_most_exec(&ca, 0x4334_0000)
    } else if isym == 4 {
        count_at_most_exec(&ca, 0x42B4_0000)
    } else {
        nc
    };
    assert(ndp == data_planes(isym, ca@, nc as int));
    let total = match ndp.checked_mul(ng) {
        Some(x) => x,
        None => {
            return Err(Halt::Aborts);
        },
    };
    let end = match ge.checked_add(total) {
        Some(x) => x,
        None => {
            return Err(Halt::Aborts);
        },
    };
    if end > n {
        return Err(Halt::Failed(intensity_message_chars(total, ge, n, isym, ndp, ng)));
    }
    if !capacity_fits(ndp) {
        return Err(Halt::Aborts);
    }
    let all = match ldt_floats_exec(lines, rd, ge, end) {
        Ok(v) => v,
        Err(m) => {
            return Err(Halt::Failed(m));
        },
    };
    if ndp > ca.len() {
        return Err(Halt::Aborts);
    }
    let mut rows: Vec<Vec<u32>> = Vec::new();
    let mut start: usize = 0;
    proof {
        lemma_ldt_floats_len(ls, rd@, ge as int, end as int);
        assert(0 * ng == 0) by (nonlinear_arith);
        assert(u32_rows(rows@) =~= chunk_rows(all@, 0, ng as int));
    }
    for c in 0..ndp
        invariant
            total == ndp * ng,
            all@.len() == total,
            start == c * ng,
            u32_rows(rows@) == chunk_rows(all@, c as int, ng as int),
    {
        proof {
            assert(c * ng + ng <= ndp * ng) by (nonlinear_arith)
                requires
                    c < ndp,
            ;
            assert((c + 1) * ng == c * ng + ng) by (nonlinear_arith);
        }
        let row = copy_values(&all, start, start + ng);
        let ghost old_rows = u32_rows(rows@);
        let ghost rv = row@;
        rows.push(row);
        assert(u32_rows(rows@) =~= old_rows.push(rv));
        assert(u32_rows(rows@) =~= chunk_rows(all@, c + 1, ng as int));
        start = start + ng;
    }
    let c_angles = copy_values(&ca, 0, ndp);
    assert(c_angles@ =~= ca@.take(ndp as int));
    let d = LdtData {
        isym: i32_to_u32(isym),
        num_c_planes: nc,
        delta_c: fv[2],
        num_gamma: ng,
        delta_gamma: fv[4],
        c_angles,
        gamma_angles: ga,
        intensities: rows,
        conversion_factor: fv[8],
        total_flux: flux,
        length_mm: fv[5],
        width_mm: fv[6],
        height_mm: fv[7],
    };
    assert(d@ =~= LdtRecord {
        isym: i32_as_u32(isym),
        num_c_planes: nc,
        delta_c: header_float(ls, rd@, 2),
        num_gamma: ng,
        delta_gamma: header_float(ls, rd@, 4),
        c_angles: ca@.take(ndp as int),
        gamma_angles: ga@,
        intensities: chunk_rows(all@, ndp as int, ng as int),
        conversion_factor: header_float(ls, rd@, 8),
        total_flux: flux,
        length_mm: header_float(ls, rd@, 5),
        width_mm: header_float(ls, rd@, 6),
        height_mm: header_float(ls, rd@, 7),
    });
    Ok(d)
}

fn ldt_body_exec(lines: &Vec<Vec<char>>, rd: &Vec<FloatReading>, iv: &Vec<i32>, fv: &Vec<u32>) -> (r:
    Result<LdtData, Halt>)
    requires
        lines@.len() >= 42,
        rd@.len() == lines@.len(),
        header_ok(char_rows(lines@), rd@, iv@, fv@),
    ensures
        match r {
            Ok(d) => ldt_body(char_rows(lines@), rd@) == Outcome::Value(d@),
            Err(h) => halts_as(h, ldt_body(char_rows(lines@), rd@)),
        },
{
    let ghost ls = char_rows(lines@);
    assert(header_is_int(1) && header_is_int(3) && header_is_int(9));
    let n = lines.len();
    let nc = i32_to_usize(iv[1]);
    let ng = i32_to_usize(iv[3]);
    let nls = i32_to_usize(iv[9]);
    let lde = match nls.checked_mul(6) {
        Some(x) => match x.checked_add(26) {
            Some(y) => y,
            None => {
                return Err(Halt::Aborts);
            },
        },
        None => {
            return Err(Halt::Aborts);
        },
    };
    let flux: u32 = if nls > 0 && 28 < n {
        assert(ls[28] == lines@[28]@);
        match ldt_float_exec(lines[28].as_slice(), rd[28]) {
            Ok(b) => b,
            Err(m) => {
                return Err(Halt::Failed(m));
            },
        }
    } else {
        0
    };
    if lde >= n {
        return Err(Halt::Failed(str_chars("File too short for lamp data")));
    }
    let dre = match lde.checked_add(10) {
        Some(x) => x,
        None => {
            return Err(Halt::Failed(str_chars("File too short for direct ratios")));
        },
    };
    if dre >= n {
        return Err(Halt::Failed(str_chars("File too short for direct ratios")));
    }
    let ce = match dre.checked_add(nc) {
        Some(x) => x,
        None => {
            return Err(Halt::Aborts);
        },
    };
    if ce > n {
        return Err(Halt::Failed(str_chars("File too short for C-plane angles")));
    }
    let ca = match ldt_floats_exec(lines, rd, dre, ce) {
        Ok(v) => v,
        Err(m) => {
            return Err(Halt::Failed(m));
        },
    };
    let ge = match ce.checked_add(ng) {
        Some(x) => x,
        None => {
            return Err(Halt::Aborts);
        },
    };
    if ge > n {
        return Err(Halt::Failed(str_chars("File too short for gamma angles")));
    }
    let ga = match ldt_floats_exec(lines, rd, ce, ge) {
        Ok(v) => v,
        Err(m) => {
            return Err(Halt::Failed(m));
        },
    };
    ldt_intensities_exec(lines, rd, iv, fv, ca, ga, flux, ge)
}

/// Reads an EULUMDAT file whose text is `text`, where `readings[i]` is what reading
/// the number text of line `i` (of `ldt_number_texts(text)`) as an `f32` gave.
/// `None` stands for the inputs on which the reader panics: an offset that
/// overflows `usize` (a negative count taken as `usize`), a capacity that no `Vec`
/// can have, or rotational symmetry with no C-plane angle to keep.
pub fn try_parse_ldt(text: &str, readings: &Vec<FloatReading>) -> (r: Option<
    Result<LdtData, LdtLoaderError>,
>)
    requires
        readings@.len() == lines_of(text@).len(),
    ensures
        match ldt_outcome(text@, readings@) {
            Outcome::Value(rec) => r matches Some(Ok(d)) && d@ == rec,
            Outcome::Failed(m) => r matches Some(Err(LdtLoaderError::Parse(e))) && e@ == m,
            Outcome::Aborts => r is None,
        },
{
    let chars = str_chars(text);
    let lines = split_lines(chars.as_slice());
    if lines.len() < 42 {
        let m = str_chars("File too short for EULUMDAT format");
        return Some(Err(LdtLoaderError::Parse(string_from_chars(m.as_slice()))));
    }
    let (iv, fv) = match read_header(&lines, readings) {
        Ok(x) => x,
        Err(m) => {
            return Some(Err(LdtLoaderError::Parse(string_from_chars(m.as_slice()))));
        },
    };
    match ldt_body_exec(&lines, readings, &iv, &fv) {
        Ok(d) => Some(Ok(d)),
        Err(Halt::Failed(m)) => Some(Err(LdtLoaderError::Parse(string_from_chars(m.as_slice())))),
        Err(Halt::Aborts) => None,
    }
}

/// Reads an EULUMDAT file whose text is `text`, where `readings[i]` is what reading
/// the number text of line `i` (of `ldt_number_texts(text)`) as an `f32` gave.
pub fn parse_ldt(text: &str, readings: &Vec<FloatReading>) -> (r: Result<LdtData, LdtLoaderError>)
    requires
        readings@.len() == lines_of(text@).len(),
        !(ldt_outcome(text@, readings@) is Aborts),
    ensures
        match ldt_outcome(text@, readings@) {
            Outcome::Value(rec) => r matches Ok(d) && d@ == rec,
            Outcome::Failed(m) => r matches Err(LdtLoaderError::Parse(e)) && e@ == m,
            Outcome::Aborts => false,
        },
{
    match try_parse_ldt(text, readings) {
        Some(r) => r,
        None => Err(LdtLoaderError::Parse(String::new())),
    }
}


/// The shape of the data of an EULUMDAT file: one intensity row per kept C-plane
/// angle, and in each row, as in the gamma angles, as many values as gamma angles.
pub proof fn lemma_ldt_shape(text: Seq<char>, rd: Seq<FloatReading>)
    ensures
        ldt_outcome(text, rd) matches Outcome::Value(rec) ==> {
            &&& rec.intensities.len() == rec.c_angles.len()
            &&& rec.gamma_angles.len() == rec.num_gamma
            &&& forall|r: int|
                0 <= r < rec.intensities.len() ==> (#[trigger] rec.intensities[r]).len()
                    == rec.num_gamma
        },
{
    let ls = lines_of(text);
    if ls.len() >= 42 && header_error_from(ls, rd, 0) is None {
        let n = ls.len() as int;
        let isym = header_int(ls, rd, 0);
        let nc = i32_as_usize(header_int(ls, rd, 1));
        let ng = i32_as_usize(header_int(ls, rd, 3));
        let nls = i32_as_usize(header_int(ls, rd, 9));
        let lde = 26 + nls * 6;
        let ce = lde + 10 + nc;
        if lde <= usize::MAX && lde + 10 < n && ce <= n && ce + ng <= n {
            lemma_ldt_floats_len(ls, rd, lde + 10, ce);
            lemma_ldt_floats_len(ls, rd, ce, ce + ng);
            match (ldt_floats(ls, rd, lde + 10, ce), ldt_floats(ls, rd, ce, ce + ng)) {
                (Ok(ca), Ok(ga)) => {
                    let ge = ce + ng;
                    let ndp = data_planes(isym, ca, nc);
                    if ndp * ng <= usize::MAX && ge + ndp * ng <= n && ndp <= ca.len() && ndp >= 0 {
                        lemma_ldt_floats_len(ls, rd, ge, ge + ndp * ng);
                        match ldt_floats(ls, rd, ge, ge + ndp * ng) {
                            Ok(all) => {
                                let rows = chunk_rows(all, ndp, ng);
                                assert forall|r: int| 0 <= r < rows.len() implies (
                                #[trigger] rows[r]).len() == ng by {
                                    assert(r * ng + ng <= ndp * ng) by (nonlinear_arith)
                                        requires
                                            0 <= r < ndp,
                                            ng >= 0,
                                    ;
                                    assert(0 <= r * ng) by (nonlinear_arith)
                                        requires
                                            0 <= r,
                                            ng >= 0,
                                    ;
                                }
                            },
                            Err(_) => {},
                        }
                    }
                },
                _ => {},
            }
        }
    }
}


/// Where no header field from field `k` on fails, each of them reads.
proof fn lemma_header_fields_read(ls: Seq<Seq<char>>, rd: Seq<FloatReading>, k: int)
    requires
        0 <= k <= 10,
        header_error_from(ls, rd, k) is None,
    ensures
        forall|j: int| k <= j < 10 ==> (#[trigger] header_field_error(ls, rd, j)) is None,
    decreases 10 - k,
{
    if k < 10 {
        lemma_header_fields_read(ls, rd, k + 1);
    }
}

/// In sorted angles, those at most `b` come first: the first `count_at_most(a, b)`
/// angles are at most `b`, and the rest are not.
pub proof fn lemma_count_sorted(a: Seq<u32>, b: u32)
    requires
        angles_sorted(a),
    ensures
        count_at_most(a, b) <= a.len(),
        forall|i: int| 0 <= i < count_at_most(a, b) ==> f32_le(#[trigger] a[i], b),
        forall|i: int| count_at_most(a, b) <= i < a.len() ==> !f32_le(#[trigger] a[i], b),
    decreases a.len(),
{
    if a.len() > 0 {
        let p = a.drop_last();
        assert(angles_sorted(p)) by {
            assert forall|i: int, j: int| 0 <= i <= j < p.len() implies f32_le(
                #[trigger] p[i],
                #[trigger] p[j],
            ) by {
                assert(f32_le(a[i], a[j]));
            }
        }
        lemma_count_sorted(p, b);
        let k = count_at_most(p, b);
        let last = a.len() - 1;
        if f32_le(a[last], b) {
            assert forall|i: int| 0 <= i < a.len() implies f32_le(#[trigger] a[i], b) by {
                assert(f32_le(a[i], a[last]));
            }
            if k < p.len() {
                assert(f32_le(a[k as int], b));
                assert(p[k as int] == a[k as int]);
            }
        } else {
            assert forall|i: int| k <= i < a.len() implies !f32_le(#[trigger] a[i], b) by {
                if i < last {
                    assert(p[i] == a[i]);
                }
            }
            assert forall|i: int| 0 <= i < k implies f32_le(#[trigger] a[i], b) by {
                assert(p[i] == a[i]);
            }
        }
    }
}

/// The C-plane angles of an EULUMDAT file as it writes them: after the 26 header
/// lines, six lines per lamp set (their number on line 25) and ten direct ratios,
/// one line per C-plane (their number on line 3); the numbers are taken as `usize`,
/// as `as usize` takes them.
pub open spec fn file_c_angles(ls: Seq<Seq<char>>, rd: Seq<FloatReading>) -> Result<
    Seq<u32>,
    Seq<char>,
> {
    match (ldt_int_value(ls[25], rd[25]), ldt_int_value(ls[3], rd[3])) {
        (Ok(nls), Ok(mc)) => {
            let start = 36 + 6 * i32_as_usize(nls);
            ldt_floats(ls, rd, start, start + i32_as_usize(mc))
        },
        _ => Err(seq![]),
    }
}

/// The total flux of an EULUMDAT file is the luminous flux of its first lamp set,
/// on line 28, wherever it has a lamp set (their number on line 25), and 0 where
/// it has none.
pub proof fn lemma_ldt_first_lamp_flux(text: Seq<char>, rd: Seq<FloatReading>)
    ensures
        ldt_outcome(text, rd) matches Outcome::Value(d) ==> {
            let ls = lines_of(text);
            &&& ldt_int_value(ls[25], rd[25]) matches Ok(nls)
            &&& nls >= 0
            &&& nls > 0 ==> ldt_float_value(ls[28], rd[28]) == Ok::<u32, Seq<char>>(d.total_flux)
            &&& nls == 0 ==> d.total_flux == 0
        },
{
    let ls = lines_of(text);
    if ls.len() >= 42 && header_error_from(ls, rd, 0) is None {
        lemma_header_fields_read(ls, rd, 0);
        assert(header_field_error(ls, rd, 9) is None);
        lemma_ldt_flux_of_body(ls, rd);
    }
}

proof fn lemma_ldt_flux_of_body(ls: Seq<Seq<char>>, rd: Seq<FloatReading>)
    requires
        ls.len() >= 42,
        ldt_int_value(ls[25], rd[25]) is Ok,
    ensures
        ldt_body(ls, rd) matches Outcome::Value(d) ==> {
            &&& ldt_int_value(ls[25], rd[25]) matches Ok(nls)
            &&& nls >= 0
            &&& nls > 0 ==> ldt_float_value(ls[28], rd[28]) == Ok::<u32, Seq<char>>(d.total_flux)
            &&& nls == 0 ==> d.total_flux == 0
        },
{
    let n = ls.len() as int;
    let nls = i32_as_usize(header_int(ls, rd, 9));
    let lde = 26 + nls * 6;
    if lde <= usize::MAX {
        let fl = if nls > 0 && 28 < n {
            ldt_float_value(ls[28], rd[28])
        } else {
            Ok(0u32)
        };
        match fl {
            Ok(flux) => {
                let nc = i32_as_usize(header_int(ls, rd, 1));
                let ng = i32_as_usize(header_int(ls, rd, 3));
                let ce = lde + 10 + nc;
                if lde + 10 < n && ce <= n && ce + ng <= n {
                    match (ldt_floats(ls, rd, lde + 10, ce), ldt_floats(ls, rd, ce, ce + ng)) {
                        (Ok(ca), Ok(ga)) => {
                            assert(ldt_intensities(ls, rd, ca, ga, flux, ce + ng) matches Outcome::Value(d) ==> d.total_flux == flux);
                        },
                        _ => {},
                    }
                }
            },
            Err(_) => {},
        }
    }
}

/// The C-planes whose intensities an EULUMDAT file holds, by its symmetry
/// indicator (line 2): the first of its C-plane angles for rotational symmetry (1),
/// as many as are at most 180° for symmetry about a plane (2, 3), as many as are
/// at most 90° for quadrant symmetry (4), all of them otherwise; one row of
/// intensities per kept C-plane. Where the angles are sorted, as the format writes
/// them, the kept angles are exactly those at most 180° (2, 3) or 90° (4).
pub proof fn lemma_ldt_kept_planes(text: Seq<char>, rd: Seq<FloatReading>)
    ensures
        ldt_outcome(text, rd) matches Outcome::Value(d) ==> {
            let ls = lines_of(text);
            let k = d.c_angles.len();
            &&& ldt_int_value(ls[2], rd[2]) matches Ok(isym)
            &&& file_c_angles(ls, rd) matches Ok(ca)
            &&& d.c_angles == ca.take(k as int)
            &&& d.intensities.len() == k
            &&& isym == 1 ==> k == 1
            &&& (isym == 2 || isym == 3) ==> k == count_at_most(ca, bits_180())
            &&& isym == 4 ==> k == count_at_most(ca, bits_90())
            &&& !(1 <= isym <= 4) ==> d.c_angles == ca
            &&& (isym == 2 || isym == 3) && angles_sorted(ca) ==> {
                &&& forall|i: int| 0 <= i < k ==> f32_le(#[trigger] d.c_angles[i], bits_180())
                &&& forall|i: int| k <= i < ca.len() ==> !f32_le(#[trigger] ca[i], bits_180())
            }
            &&& isym == 4 && angles_sorted(ca) ==> {
                &&& forall|i: int| 0 <= i < k ==> f32_le(#[trigger] d.c_angles[i], bits_90())
                &&& forall|i: int| k <= i < ca.len() ==> !f32_le(#[trigger] ca[i], bits_90())
            }
        },
{
    let ls = lines_of(text);
    if ls.len() >= 42 && header_error_from(ls, rd, 0) is None {
        lemma_header_fields_read(ls, rd, 0);
        assert(header_field_error(ls, rd, 0) is None);
        assert(header_field_error(ls, rd, 1) is None);
        assert(header_field_error(ls, rd, 9) is None);
        let n = ls.len() as int;
        let isym = header_int(ls, rd, 0);
        let nc = i32_as_usize(header_int(ls, rd, 1));
        let ng = i32_as_usize(header_int(ls, rd, 3));
        let nls = i32_as_usize(header_int(ls, rd, 9));
        let lde = 26 + nls * 6;
        let ce = lde + 10 + nc;
        if lde <= usize::MAX && lde + 10 < n && ce <= usize::MAX && ce <= n && ce + ng <= n {
            match (ldt_floats(ls, rd, lde + 10, ce), ldt_floats(ls, rd, ce, ce + ng)) {
                (Ok(ca), Ok(ga)) => {
                    lemma_ldt_floats_len(ls, rd, lde + 10, ce);
                    assert(header_line(0) == 2 && header_line(1) == 3 && header_line(9) == 25);
                    assert(ldt_int_value(ls[25], rd[25]) == Ok::<i32, Seq<char>>(header_int(ls, rd, 9)));
                    assert(ldt_int_value(ls[3], rd[3]) == Ok::<i32, Seq<char>>(header_int(ls, rd, 1)));
                    assert(file_c_angles(ls, rd) == Ok::<Seq<u32>, Seq<char>>(ca));
                    let ndp = data_planes(isym, ca, nc);
                    if ndp <= ca.len() {
                        assert(ca.take(ca.len() as int) =~= ca);
                        if isym == 2 || isym == 3 {
                            if angles_sorted(ca) {
                                lemma_count_sorted(ca, bits_180());
                            }
                        }
                        if isym == 4 {
                            if angles_sorted(ca) {
                                lemma_count_sorted(ca, bits_90());
                            }
                        }
                    }
                },
                _ => {},
            }
        }
    }
}


/// The values read from lines `from` to `to` are the floats of those lines, in order.
pub proof fn lemma_ldt_floats_at(ls: Seq<Seq<char>>, rd: Seq<FloatReading>, from: int, to: int)
    requires
        from <= to,
    ensures
        ldt_floats(ls, rd, from, to) matches Ok(v) ==> {
            &&& v.len() == to - from
            &&& forall|i: int|
                0 <= i < v.len() ==> ldt_float_value(ls[from + i], rd[from + i]) == Ok::<
                    u32,
                    Seq<char>,
                >(#[trigger] v[i])
        },
    decreases to - from,
{
    if from < to {
        lemma_ldt_floats_at(ls, rd, from + 1, to);
        match ldt_floats(ls, rd, from, to) {
            Ok(v) => {
                let r = ldt_floats(ls, rd, from + 1, to)->Ok_0;
                assert forall|i: int| 0 <= i < v.len() implies ldt_float_value(
                    ls[from + i],
                    rd[from + i],
                ) == Ok::<u32, Seq<char>>(#[trigger] v[i]) by {
                    if i > 0 {
                        assert(v[i] == r[i - 1]);
                        assert(from + 1 + (i - 1) == from + i);
                    }
                }
            },
            Err(_) => {},
        }
    }
}

/// The intensities read from line `ge` on: one block of gamma values per kept
/// C-plane, one value per line.
proof fn lemma_ldt_intensity_lines(
    ls: Seq<Seq<char>>,
    rd: Seq<FloatReading>,
    ca: Seq<u32>,
    ga: Seq<u32>,
    flux: u32,
    ge: int,
    d: LdtRecord,
)
    requires
        0 <= ge,
        ldt_intensities(ls, rd, ca, ga, flux, ge) == Outcome::Value(d),
    ensures
        d.gamma_angles == ga,
        d.num_gamma as int == i32_as_usize(header_int(ls, rd, 3)),
        forall|c: int| 0 <= c < d.intensities.len() ==> (#[trigger] d.intensities[c]).len() == d.num_gamma,
        forall|c: int, g: int|
            0 <= c < d.intensities.len() && 0 <= g < d.num_gamma ==> ldt_float_value(
                ls[ge + c * d.num_gamma + g],
                rd[ge + c * d.num_gamma + g],
            ) == Ok::<u32, Seq<char>>(#[trigger] d.intensities[c][g]),
{
    let n = ls.len() as int;
    let isym = header_int(ls, rd, 0);
    let nc = i32_as_usize(header_int(ls, rd, 1));
    let ng = i32_as_usize(header_int(ls, rd, 3));
    let ndp = data_planes(isym, ca, nc);
    assert(ndp >= 0);
    lemma_ldt_floats_at(ls, rd, ge, ge + ndp * ng);
    let all = ldt_floats(ls, rd, ge, ge + ndp * ng)->Ok_0;
    let rows = chunk_rows(all, ndp, ng);
    assert(d.intensities == rows);
    assert(d.num_gamma as int == ng);
    assert forall|c: int| 0 <= c < d.intensities.len() implies (#[trigger] d.intensities[c]).len()
        == d.num_gamma by {
        assert(c * ng + ng <= ndp * ng) by (nonlinear_arith)
            requires
                0 <= c < ndp,
                ng >= 0,
        ;
        assert(0 <= c * ng) by (nonlinear_arith)
            requires
                0 <= c,
                ng >= 0,
        ;
    }
    assert forall|c: int, g: int| 0 <= c < d.intensities.len() && 0 <= g < d.num_gamma implies
        ldt_float_value(ls[ge + c * d.num_gamma + g], rd[ge + c * d.num_gamma + g]) == Ok::<
            u32,
            Seq<char>,
        >(#[trigger] d.intensities[c][g]) by {
        assert(c * ng + ng <= ndp * ng) by (nonlinear_arith)
            requires
                0 <= c < ndp,
                ng >= 0,
        ;
        assert(0 <= c * ng) by (nonlinear_arith)
            requires
                0 <= c,
                ng >= 0,
        ;
        assert(rows[c][g] == all[c * ng + g]);
    }
}

/// The header fields of an EULUMDAT file come from their fixed lines: symmetry
/// indicator 2, number of C-planes 3 and their spacing 4, number of gamma angles 5
/// and their spacing 6, length, width and height 12–14, conversion factor 23.
pub proof fn lemma_ldt_header_fields(text: Seq<char>, rd: Seq<FloatReading>)
    ensures
        ldt_outcome(text, rd) matches Outcome::Value(d) ==> {
            let ls = lines_of(text);
            &&& ldt_int_value(ls[2], rd[2]) matches Ok(isym) && d.isym == i32_as_u32(isym)
            &&& ldt_int_value(ls[3], rd[3]) matches Ok(mc) && d.num_c_planes == i32_as_usize(mc)
            &&& ldt_float_value(ls[4], rd[4]) == Ok::<u32, Seq<char>>(d.delta_c)
            &&& ldt_int_value(ls[5], rd[5]) matches Ok(ng) && d.num_gamma == i32_as_usize(ng)
            &&& ldt_float_value(ls[6], rd[6]) == Ok::<u32, Seq<char>>(d.delta_gamma)
            &&& ldt_float_value(ls[12], rd[12]) == Ok::<u32, Seq<char>>(d.length_mm)
            &&& ldt_float_value(ls[13], rd[13]) == Ok::<u32, Seq<char>>(d.width_mm)
            &&& ldt_float_value(ls[14], rd[14]) == Ok::<u32, Seq<char>>(d.height_mm)
            &&& ldt_float_value(ls[23], rd[23]) == Ok::<u32, Seq<char>>(d.conversion_factor)
        },
{
    let ls = lines_of(text);
    if ls.len() >= 42 && header_error_from(ls, rd, 0) is None {
        lemma_header_fields_read(ls, rd, 0);
        assert(header_field_error(ls, rd, 0) is None);
        assert(header_field_error(ls, rd, 1) is None);
        assert(header_field_error(ls, rd, 2) is None);
        assert(header_field_error(ls, rd, 3) is None);
        assert(header_field_error(ls, rd, 4) is None);
        assert(header_field_error(ls, rd, 5) is None);
        assert(header_field_error(ls, rd, 6) is None);
        assert(header_field_error(ls, rd, 7) is None);
        assert(header_field_error(ls, rd, 8) is None);
        assert(header_line(0) == 2 && header_line(1) == 3 && header_line(2) == 4
            && header_line(3) == 5 && header_line(4) == 6);
        assert(header_line(5) == 12 && header_line(6) == 13 && header_line(7) == 14
            && header_line(8) == 23);
        lemma_ldt_header_of_body(ls, rd);
    }
}

proof fn lemma_ldt_header_of_body(ls: Seq<Seq<char>>, rd: Seq<FloatReading>)
    ensures
        ldt_body(ls, rd) matches Outcome::Value(d) ==> {
            &&& d.isym == i32_as_u32(header_int(ls, rd, 0))
            &&& d.num_c_planes == i32_as_usize(header_int(ls, rd, 1))
            &&& d.delta_c == header_float(ls, rd, 2)
            &&& d.num_gamma == i32_as_usize(header_int(ls, rd, 3))
            &&& d.delta_gamma == header_float(ls, rd, 4)
            &&& d.length_mm == header_float(ls, rd, 5)
            &&& d.width_mm == header_float(ls, rd, 6)
            &&& d.height_mm == header_float(ls, rd, 7)
            &&& d.conversion_factor == header_float(ls, rd, 8)
        },
{
}

/// The data lines of an EULUMDAT file: after the 26 header lines, six lines per
/// lamp set (their number on line 25), ten direct ratios and one line per C-plane
/// come the gamma angles, one per line, and then the intensities, one block of
/// gamma values per kept C-plane, one value per line.
pub proof fn lemma_ldt_data_lines(text: Seq<char>, rd: Seq<FloatReading>)
    ensures
        ldt_outcome(text, rd) matches Outcome::Value(d) ==> {
            let ls = lines_of(text);
            &&& ldt_int_value(ls[25], rd[25]) matches Ok(nls)
            &&& d.gamma_angles.len() == d.num_gamma
            &&& forall|g: int|
                0 <= g < d.num_gamma ==> ldt_float_value(
                    ls[36 + 6 * i32_as_usize(nls) + d.num_c_planes + g],
                    rd[36 + 6 * i32_as_usize(nls) + d.num_c_planes + g],
                ) == Ok::<u32, Seq<char>>(#[trigger] d.gamma_angles[g])
            &&& forall|c: int, g: int|
                0 <= c < d.intensities.len() && 0 <= g < d.num_gamma ==> {
                    let l = 36 + 6 * i32_as_usize(nls) + d.num_c_planes + d.num_gamma + c
                        * d.num_gamma + g;
                    &&& d.intensities[c].len() == d.num_gamma
                    &&& ldt_float_value(ls[l], rd[l]) == Ok::<u32, Seq<char>>(
                        #[trigger] d.intensities[c][g],
                    )
                }
        },
{
    let ls = lines_of(text);
    if ls.len() >= 42 && header_error_from(ls, rd, 0) is None {
        lemma_header_fields_read(ls, rd, 0);
        assert(header_field_error(ls, rd, 9) is None);
        assert(header_line(9) == 25);
        assert(ldt_int_value(ls[25], rd[25]) == Ok::<i32, Seq<char>>(header_int(ls, rd, 9)));
        lemma_ldt_header_of_body(ls, rd);
        let n = ls.len() as int;
        let nc = i32_as_usize(header_int(ls, rd, 1));
        let ng = i32_as_usize(header_int(ls, rd, 3));
        let nls = i32_as_usize(header_int(ls, rd, 9));
        let lde = 26 + nls * 6;
        let ce = lde + 10 + nc;
        if lde <= usize::MAX && lde + 10 < n && ce <= usize::MAX && ce <= n && ce + ng <= n {
            match (ldt_floats(ls, rd, lde + 10, ce), ldt_floats(ls, rd, ce, ce + ng)) {
                (Ok(ca), Ok(ga)) => {
                    lemma_ldt_floats_at(ls, rd, ce, ce + ng);
                    let flux = (if nls > 0 && 28 < n {
                        ldt_float_value(ls[28], rd[28])
                    } else {
                        Ok(0u32)
                    })->Ok_0;
                    if let Outcome::Value(d) = ldt_intensities(ls, rd, ca, ga, flux, ce + ng) {
                        lemma_ldt_intensity_lines(ls, rd, ca, ga, flux, ce + ng, d);
                    }
                },
                _ => {},
            }
        }
    }
}


/// An EULUMDAT file of fewer than 42 lines is refused as too short, whatever its
/// lines hold.
pub proof fn lemma_ldt_too_short(text: Seq<char>, rd: Seq<FloatReading>)
    requires
        lines_of(text).len() < 42,
    ensures
        ldt_outcome(text, rd) == Outcome::<LdtRecord>::Failed("File too short for EULUMDAT format"@),
{
}

} // verus!
