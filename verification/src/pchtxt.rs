//! Patch text files, as they are read.

use crate::numbers;
use crate::numbers::IntParseError;
use crate::patches;
use crate::patches::PatchVec;
use crate::preprocessor::token;
use crate::text;
use vstd::prelude::*;
use vstd::string::*;
use vstd::utf8::*;

verus! {

/// What is said about a patch text file.
#[allow(inconsistent_fields)]
#[derive(Debug, PartialEq, Eq)]
pub enum PchtxtDianostic<Text = String> {
    Information { message: Text, at: (usize, usize) },
    PatchEnabled { message: Text, at: (usize, usize) },
    UnexpectedUnicode { at: (usize, usize) },
    BigEndian { at: (usize, usize) },
    OverUnderFlow { offset_shift: i32, at: (usize, usize) },
    DisabledPointerOffset { at: (usize, usize) },
    MissingBuildId,
    InvalidBuildId { cause: IntParseError, at: (usize, usize) },
    UnknownFlag { at: (usize, usize) },
    InvalidOffset { cause: IntParseError, at: (usize, usize) },
    UnterminatedStringLiteral { at: usize },
    OddHexValueLength { at: (usize, usize) },
    InvalidHexValue { at: (usize, usize) },
}

pub type DiagModel = PchtxtDianostic<Seq<u8>>;

impl View for PchtxtDianostic<String> {
    type V = PchtxtDianostic<Seq<u8>>;

    open spec fn view(&self) -> PchtxtDianostic<Seq<u8>> {
        match *self {
            PchtxtDianostic::Information { message, at } => PchtxtDianostic::Information {
                message: text::bytes_of(message),
                at,
            },
            PchtxtDianostic::PatchEnabled { message, at } => PchtxtDianostic::PatchEnabled {
                message: text::bytes_of(message),
                at,
            },
            PchtxtDianostic::UnexpectedUnicode { at } => PchtxtDianostic::UnexpectedUnicode { at },
            PchtxtDianostic::BigEndian { at } => PchtxtDianostic::BigEndian { at },
            PchtxtDianostic::OverUnderFlow { offset_shift, at } => PchtxtDianostic::OverUnderFlow {
                offset_shift,
                at,
            },
            PchtxtDianostic::DisabledPointerOffset { at } =>
                PchtxtDianostic::DisabledPointerOffset { at },
            PchtxtDianostic::MissingBuildId => PchtxtDianostic::MissingBuildId,
            PchtxtDianostic::InvalidBuildId { cause, at } => PchtxtDianostic::InvalidBuildId {
                cause,
                at,
            },
            PchtxtDianostic::UnknownFlag { at } => PchtxtDianostic::UnknownFlag { at },
            PchtxtDianostic::InvalidOffset { cause, at } => PchtxtDianostic::InvalidOffset {
                cause,
                at,
            },
            PchtxtDianostic::UnterminatedStringLiteral { at } =>
                PchtxtDianostic::UnterminatedStringLiteral { at },
            PchtxtDianostic::OddHexValueLength { at } => PchtxtDianostic::OddHexValueLength { at },
            PchtxtDianostic::InvalidHexValue { at } => PchtxtDianostic::InvalidHexValue { at },
        }
    }
}

/// The diagnostics of a list.
pub open spec fn diagnostics(v: Seq<PchtxtDianostic>) -> Seq<DiagModel> {
    Seq::new(v.len(), |i: int| v[i]@)
}

/// What a line of the file holds.
#[derive(Debug, PartialEq, Eq)]
pub enum PchtxtLineData<Bytes = Vec<u8>> {
    Ignored,
    BuildId(u128),
    Information,
    Comment,
    BigEndian,
    LittleEndian,
    Enable,
    Flag(PchtxtFlag),
    Stop,
    Disable,
    Patch { offset: u32, patch: Bytes, is_string: bool },
}

#[derive(Clone, Copy, Debug, PartialEq, Eq)]
pub enum PchtxtFlag {
    PrintValues,
    OffsetShift(i32),
}

impl View for PchtxtLineData<Vec<u8>> {
    type V = PchtxtLineData<Seq<u8>>;

    open spec fn view(&self) -> PchtxtLineData<Seq<u8>> {
        match *self {
            PchtxtLineData::Ignored => PchtxtLineData::Ignored,
            PchtxtLineData::BuildId(id) => PchtxtLineData::BuildId(id),
            PchtxtLineData::Information => PchtxtLineData::Information,
            PchtxtLineData::Comment => PchtxtLineData::Comment,
            PchtxtLineData::BigEndian => PchtxtLineData::BigEndian,
            PchtxtLineData::LittleEndian => PchtxtLineData::LittleEndian,
            PchtxtLineData::Enable => PchtxtLineData::Enable,
            PchtxtLineData::Flag(flag) => PchtxtLineData::Flag(flag),
            PchtxtLineData::Stop => PchtxtLineData::Stop,
            PchtxtLineData::Disable => PchtxtLineData::Disable,
            PchtxtLineData::Patch { offset, patch, is_string } => PchtxtLineData::Patch {
                offset,
                patch: patch@,
                is_string,
            },
        }
    }
}

// ---------------------------------------------------------------------------------------------
// Model

/// What is read from a line: what it holds, the range of the text behind that, and what is wrong
/// with it.
#[verifier::ext_equal]
pub struct LineModel {
    pub data: PchtxtLineData<Seq<u8>>,
    pub rest: (usize, usize),
    pub diag: Option<DiagModel>,
}

/// A character, or the end of the text, starts at `i`.
pub open spec fn on_boundary(b: Seq<u8>, i: int) -> bool {
    i >= b.len() || !(0x80 <= b[i] <= 0xbf)
}

/// The last offset up to `i` at which a character starts.
pub open spec fn floor_boundary(b: Seq<u8>, i: int) -> int
    decreases i,
{
    if i <= 0 || on_boundary(b, i) {
        i
    } else {
        floor_boundary(b, i - 1)
    }
}

/// The first offset from `i` on at which a character starts.
pub open spec fn ceil_boundary(b: Seq<u8>, i: int) -> int
    decreases b.len() - i,
{
    if on_boundary(b, i) {
        i
    } else {
        ceil_boundary(b, i + 1)
    }
}

/// The lower case form of an ASCII letter; any other byte as it is.
pub open spec fn lower(x: u8) -> u8 {
    if 0x41 <= x <= 0x5a {
        (x + 0x20) as u8
    } else {
        x
    }
}

/// The text at `i` reads as `pat`, where the case of ASCII letters does not count.
pub open spec fn reads_as(b: Seq<u8>, i: int, pat: Seq<u8>) -> bool {
    &&& i + pat.len() <= b.len()
    &&& forall|k: int| 0 <= k < pat.len() ==> lower(b[i + k]) == lower(#[trigger] pat[k])
}

/// The offset behind a prefix of the range `i..end`, or `i` where the range does not start with
/// it.
pub open spec fn behind_prefix(b: Seq<u8>, i: int, end: int, prefix: Seq<u8>) -> int {
    if prefix.len() <= end - i && reads_as(b, i, prefix) {
        i + prefix.len()
    } else {
        i
    }
}

/// The offset at which a prefix would end can be told to be one or not: it lies behind the range,
/// or a character starts there.
pub open spec fn prefix_fits(b: Seq<u8>, i: int, end: int, prefix: Seq<u8>) -> bool {
    prefix.len() <= end - i ==> on_boundary(b, i + prefix.len())
}

/// The end of the value that starts at `i`: a space, a slash, a line break or `end`.
pub open spec fn value_end(b: Seq<u8>, i: int, end: int) -> int
    decreases end - i,
{
    if i >= end || b[i] == 0x20 || b[i] == 0x2f || b[i] == 0x0d || b[i] == 0x0a {
        i
    } else {
        value_end(b, i + 1, end)
    }
}

/// The end of the run of hexadecimal digits that starts at `i`.
pub open spec fn hex_end(b: Seq<u8>, i: int, end: int) -> int
    decreases end - i,
{
    if i < end && token::digit_value(b[i]) < 16 {
        hex_end(b, i + 1, end)
    } else {
        i
    }
}

/// A line that counts for nothing.
pub open spec fn ignored(s: int, e: int, diag: Option<DiagModel>) -> LineModel {
    LineModel { data: PchtxtLineData::Ignored, rest: (s as usize, e as usize), diag }
}

pub open spec fn span_at(i: int, j: int) -> (usize, usize) {
    (i as usize, (j - i) as usize)
}

/// A value is to be cut out at `i`, in the middle of a character.
pub open spec fn cut_diagnostic(b: Seq<u8>, i: int, end: int) -> DiagModel {
    let p = value_end(b, i, end);
    PchtxtDianostic::UnexpectedUnicode { at: span_at(floor_boundary(b, i), p) }
}

/// The line that names the build: hexadecimal digits, at most as many as the identifier takes.
pub open spec fn build_id_line(b: Seq<u8>, s: int, e: int) -> LineModel {
    let first = s + "@nsobid-".spec_bytes().len();
    let h = hex_end(b, first, e);
    let value = token::digits_value(b, first, h, 16);
    let good = h > first && value <= u128::MAX;
    LineModel {
        data: PchtxtLineData::BuildId(
            if good {
                value as u128
            } else {
                0
            },
        ),
        rest: (h as usize, e as usize),
        diag: if good {
            None
        } else {
            Some(
                PchtxtDianostic::InvalidBuildId {
                    cause: if h > first {
                        IntParseError::PosOverflow
                    } else {
                        IntParseError::Empty
                    },
                    at: span_at(first, h),
                },
            )
        },
    }
}

/// The value of a flag counts, and is an offset shift.
pub open spec fn is_shift_flag(b: Seq<u8>, s: int, e: int) -> bool {
    let p = value_end(b, s + 6, e);
    &&& e - s >= 7
    &&& on_boundary(b, s + 6)
    &&& !is_word(b, s + 6, p, "print_values".spec_bytes())
    &&& e - s >= p - (s + 6) + 8
    &&& on_boundary(b, p + 1)
    &&& is_word(b, s + 6, p, "offset_shift".spec_bytes())
}

/// The range `i..j` reads as `pat`.
pub open spec fn is_word(b: Seq<u8>, i: int, j: int, pat: Seq<u8>) -> bool {
    j - i == pat.len() && reads_as(b, i, pat)
}

/// The line of a flag.
pub open spec fn flag_line(b: Seq<u8>, s: int, e: int) -> LineModel {
    let p = value_end(b, s + 6, e);
    let q = value_end(b, p + 1, e);
    let unknown = PchtxtDianostic::UnknownFlag { at: span_at(s + 6, p) };
    if e - s < 7 {
        ignored(s, e, None)
    } else if !on_boundary(b, s + 6) {
        ignored(s, e, Some(cut_diagnostic(b, s + 6, e)))
    } else if is_word(b, s + 6, p, "print_values".spec_bytes()) {
        LineModel {
            data: PchtxtLineData::Flag(PchtxtFlag::PrintValues),
            rest: (p as usize, e as usize),
            diag: None,
        }
    } else if e - s < p - (s + 6) + 8 {
        ignored(s, e, Some(unknown))
    } else if !on_boundary(b, p + 1) {
        ignored(s, e, Some(cut_diagnostic(b, p + 1, e)))
    } else if is_word(b, s + 6, p, "offset_shift".spec_bytes()) {
        LineModel {
            data: PchtxtLineData::Flag(
                PchtxtFlag::OffsetShift(
                    shift_value(numbers::signed_i32(b.subrange(p + 1, q))),
                ),
            ),
            rest: (q as usize, e as usize),
            diag: None,
        }
    } else {
        ignored(s, e, Some(unknown))
    }
}

/// The offset shift for what was read as its value: what is no number counts as 0.
pub open spec fn shift_value(parsed: Result<i32, IntParseError>) -> i32 {
    match parsed {
        Ok(v) => v,
        Err(_) => 0,
    }
}

/// The offset in the first eight bytes of a line: hexadecimal digits, maybe behind a plus sign.
pub open spec fn patch_offset(b: Seq<u8>, s: int) -> Option<u32> {
    let first = if b[s] == 0x2b {
        s + 1
    } else {
        s
    };
    if hex_end(b, first, s + 8) == s + 8 {
        Some(token::digits_value(b, first, s + 8, 16) as u32)
    } else {
        None
    }
}

/// The first quote from `q` on that no backslash stands before, or `end`.
pub open spec fn closing_quote(b: Seq<u8>, q: int, end: int) -> int
    decreases end - q,
{
    if q >= end || (b[q] == 0x22 && b[q - 1] != 0x5c) {
        q
    } else {
        closing_quote(b, q + 1, end)
    }
}

/// The byte that a letter behind a backslash stands for.
pub open spec fn escaped_byte(x: u8) -> u8 {
    if x == 0x61 {
        0x07
    } else if x == 0x62 {
        0x08
    } else if x == 0x66 {
        0x0c
    } else if x == 0x6e {
        0x0a
    } else if x == 0x72 {
        0x0d
    } else if x == 0x74 {
        0x09
    } else {
        x
    }
}

/// The bytes that the inside `i..j` of a quoted string stands for.
pub open spec fn string_bytes(b: Seq<u8>, i: int, j: int) -> Seq<u8>
    decreases j + 1 - i,
{
    if i >= j {
        Seq::empty()
    } else if b[i] == 0x5c {
        seq![escaped_byte(b[i + 1])] + string_bytes(b, i + 2, j)
    } else {
        seq![b[i]] + string_bytes(b, i + 1, j)
    }
}

/// The bytes that the pairs of hexadecimal digits `i..j` stand for.
pub open spec fn pair_bytes(b: Seq<u8>, i: int, j: int) -> Seq<u8>
    decreases j - i,
{
    if i + 2 > j {
        Seq::empty()
    } else {
        seq![(token::digit_value(b[i]) * 16 + token::digit_value(b[i + 1])) as u8] + pair_bytes(
            b,
            i + 2,
            j,
        )
    }
}

/// The line of a patch: an offset of eight digits, one character, and the value: a quoted string,
/// which stands for its bytes and a zero, or pairs of hexadecimal digits.
pub open spec fn patch_line(b: Seq<u8>, s: int, e: int) -> LineModel {
    let v = s + 9;
    if e - s < 11 {
        ignored(s, e, None)
    } else if patch_offset(b, s) is None {
        ignored(
            s,
            e,
            Some(
                PchtxtDianostic::InvalidOffset {
                    cause: IntParseError::InvalidDigit,
                    at: (s as usize, 8),
                },
            ),
        )
    } else if !on_boundary(b, v) {
        ignored(
            s,
            e,
            Some(
                PchtxtDianostic::UnexpectedUnicode {
                    at: span_at(floor_boundary(b, v), ceil_boundary(b, v)),
                },
            ),
        )
    } else if b[v] == 0x22 {
        let q = closing_quote(b, v + 2, e);
        if q >= e {
            ignored(s, e, Some(PchtxtDianostic::UnterminatedStringLiteral { at: e as usize }))
        } else {
            LineModel {
                data: PchtxtLineData::Patch {
                    offset: patch_offset(b, s)->0,
                    patch: string_bytes(b, v + 1, q).push(0),
                    is_string: true,
                },
                rest: ((q + 1) as usize, e as usize),
                diag: None,
            }
        }
    } else {
        let p = value_end(b, v, e);
        let h = hex_end(b, v, p);
        if (p - v) % 2 != 0 {
            ignored(s, e, Some(PchtxtDianostic::OddHexValueLength { at: span_at(v, p) }))
        } else if h < p {
            ignored(s, e, Some(PchtxtDianostic::InvalidHexValue { at: (h as usize, 1) }))
        } else {
            LineModel {
                data: PchtxtLineData::Patch {
                    offset: patch_offset(b, s)->0,
                    patch: pair_bytes(b, v, p),
                    is_string: false,
                },
                rest: (p as usize, e as usize),
                diag: None,
            }
        }
    }
}

/// The line that starts with an at sign.
pub open spec fn at_line(b: Seq<u8>, s: int, e: int) -> LineModel {
    let x = lower(b[s + 1]);
    let plain = |data: PchtxtLineData<Seq<u8>>, i: int, prefix: Seq<u8>|
        LineModel {
            data,
            rest: (behind_prefix(b, i, e, prefix) as usize, e as usize),
            diag: None,
        };
    if x == 0x62 {
        LineModel {
            data: PchtxtLineData::BigEndian,
            rest: (
                behind_prefix(b, s + 2, e, "ig-endian".spec_bytes()) as usize,
                e as usize,
            ),
            diag: Some(PchtxtDianostic::BigEndian { at: span_at(s, e) }),
        }
    } else if x == 0x6c {
        plain(PchtxtLineData::LittleEndian, s + 2, "ittle-endian".spec_bytes())
    } else if x == 0x65 {
        plain(PchtxtLineData::Enable, s + 2, "nabled".spec_bytes())
    } else if x == 0x66 {
        flag_line(b, s, e)
    } else if x == 0x73 {
        plain(PchtxtLineData::Stop, s + 2, "top".spec_bytes())
    } else {
        plain(PchtxtLineData::Disable, s + 1, "disabled".spec_bytes())
    }
}

/// The first line names the build.
pub open spec fn names_build(b: Seq<u8>, s: int, e: int, first: bool) -> bool {
    first && text::has_at(b, s, "@nsobid-".spec_bytes()) && s + "@nsobid-".spec_bytes().len() <= e
}

/// What is read from the line `s..e`, the first one or a later one, before or behind the one that
/// stops the reading.
pub open spec fn line_at(b: Seq<u8>, s: int, e: int, first: bool, finished: bool) -> LineModel {
    if e - s < 2 || finished {
        ignored(s, e, None)
    } else if names_build(b, s, e, first) {
        build_id_line(b, s, e)
    } else if b[s] == 0x23 {
        LineModel {
            data: PchtxtLineData::Information,
            rest: (e as usize, e as usize),
            diag: None,
        }
    } else if b[s] == 0x2f {
        LineModel { data: PchtxtLineData::Comment, rest: (e as usize, e as usize), diag: None }
    } else if b[s] == 0x40 {
        at_line(b, s, e)
    } else {
        patch_line(b, s, e)
    }
}

/// The line can be read: no piece of it has to be cut in the middle of a character, and its
/// number can be told.
pub open spec fn line_readable(b: Seq<u8>, s: int, e: int, first: bool, finished: bool) -> bool {
    if e - s < 2 || finished || names_build(b, s, e, first) || b[s] == 0x23 || b[s] == 0x2f {
        true
    } else if b[s] == 0x40 {
        let x = lower(b[s + 1]);
        if x == 0x62 {
            prefix_fits(b, s + 2, e, "ig-endian".spec_bytes())
        } else if x == 0x6c {
            prefix_fits(b, s + 2, e, "ittle-endian".spec_bytes())
        } else if x == 0x65 {
            prefix_fits(b, s + 2, e, "nabled".spec_bytes())
        } else if x == 0x66 {
            is_shift_flag(b, s, e) ==> !numbers::negates_least(
                b.subrange(
                    value_end(b, s + 6, e) + 1,
                    value_end(b, value_end(b, s + 6, e) + 1, e),
                ),
                0x8000_0000,
            )
        } else if x == 0x73 {
            prefix_fits(b, s + 2, e, "top".spec_bytes())
        } else {
            prefix_fits(b, s + 1, e, "disabled".spec_bytes())
        }
    } else {
        e - s >= 11 ==> on_boundary(b, s + 8)
    }
}

/// The line stops the reading.
pub open spec fn line_stops(b: Seq<u8>, s: int, e: int, first: bool) -> bool {
    e - s >= 2 && !names_build(b, s, e, first) && b[s] == 0x40 && lower(b[s + 1]) == 0x73
}

/// Where the line that starts at `i` ends, without its line break, and where the next one starts.
pub open spec fn line_ends(b: Seq<u8>, i: int) -> (int, int) {
    let len = b.len() as int;
    let f = text::find_byte(b, 0x0a, i, len);
    if f < len {
        (
            if f > i && b[f - 1] == 0x0d {
                f - 1
            } else {
                f
            },
            f + 1,
        )
    } else {
        (len, len)
    }
}

/// All lines from `i` on can be read.
pub open spec fn readable_from(b: Seq<u8>, i: int, first: bool, finished: bool) -> bool
    decreases b.len() - i,
{
    if i < 0 || i >= b.len() {
        true
    } else {
        let (e, next) = line_ends(b, i);
        if next <= i || next > b.len() {
            true
        } else {
            line_readable(b, i, e, first, finished) && readable_from(
                b,
                next,
                false,
                finished || line_stops(b, i, e, first),
            )
        }
    }
}

/// All lines of the text can be read.
pub open spec fn readable(b: Seq<u8>) -> bool {
    readable_from(b, 0, true, false)
}

// ---------------------------------------------------------------------------------------------
// Facts about lines

pub proof fn lemma_line_ends(b: Seq<u8>, i: int)
    requires
        0 <= i < b.len(),
    ensures
        i <= line_ends(b, i).0 <= b.len(),
        i < line_ends(b, i).1 <= b.len(),
        line_ends(b, i).0 <= line_ends(b, i).1,
        valid_utf8(b) ==> text::cut_point(b, line_ends(b, i).0),
        valid_utf8(b) ==> text::cut_point(b, line_ends(b, i).1),
        on_boundary(b, line_ends(b, i).0),
{
    let len = b.len() as int;
    text::lemma_find_byte(b, 0x0a, i, len);
    let f = text::find_byte(b, 0x0a, i, len);
    if valid_utf8(b) {
        is_char_boundary_start_end_of_seq(b);
        if f < len {
            text::lemma_ascii_boundary(b, f);
            if f > i && b[f - 1] == 0x0d {
                text::lemma_ascii_boundary(b, f - 1);
            }
        }
    }
}

proof fn lemma_boundary(b: Seq<u8>, i: int)
    requires
        valid_utf8(b),
        0 <= i <= b.len(),
    ensures
        on_boundary(b, i) <==> text::cut_point(b, i),
{
    is_char_boundary_start_end_of_seq(b);
    if i < b.len() {
        is_char_boundary_iff_not_is_continuation_byte(b, i);
    }
}

pub proof fn lemma_value_end(b: Seq<u8>, i: int, end: int)
    requires
        0 <= i <= end <= b.len(),
        on_boundary(b, end),
    ensures
        i <= value_end(b, i, end) <= end,
        on_boundary(b, value_end(b, i, end)),
    decreases end - i,
{
    if i < end && !(b[i] == 0x20 || b[i] == 0x2f || b[i] == 0x0d || b[i] == 0x0a) {
        lemma_value_end(b, i + 1, end);
    }
}

pub proof fn lemma_hex_end(b: Seq<u8>, i: int, end: int)
    requires
        0 <= i <= end <= b.len(),
    ensures
        i <= hex_end(b, i, end) <= end,
        forall|k: int| i <= k < hex_end(b, i, end) ==> token::digit_value(#[trigger] b[k]) < 16,
        hex_end(b, i, end) < end ==> token::digit_value(b[hex_end(b, i, end)]) >= 16,
    decreases end - i,
{
    if i < end && token::digit_value(b[i]) < 16 {
        lemma_hex_end(b, i + 1, end);
    }
}

proof fn lemma_digits_bound(b: Seq<u8>, i: int, j: int)
    requires
        i <= j <= i + 8,
        forall|k: int| i <= k < j ==> token::digit_value(#[trigger] b[k]) < 16,
    ensures
        0 <= token::digits_value(b, i, j, 16) <= u32::MAX,
        j - i <= 7 ==> token::digits_value(b, i, j, 16) < 0x1000_0000,
        j - i <= 6 ==> token::digits_value(b, i, j, 16) < 0x100_0000,
        j - i <= 5 ==> token::digits_value(b, i, j, 16) < 0x10_0000,
        j - i <= 4 ==> token::digits_value(b, i, j, 16) < 0x1_0000,
        j - i <= 3 ==> token::digits_value(b, i, j, 16) < 0x1000,
        j - i <= 2 ==> token::digits_value(b, i, j, 16) < 0x100,
        j - i <= 1 ==> token::digits_value(b, i, j, 16) < 0x10,
    decreases j - i,
{
    if i < j {
        lemma_digits_bound(b, i, j - 1);
        assert(token::digit_value(b[j - 1]) < 16);
    }
}

pub proof fn lemma_closing_quote(b: Seq<u8>, q: int, end: int)
    requires
        q <= end,
    ensures
        q <= closing_quote(b, q, end) <= end,
        closing_quote(b, q, end) < end ==> b[closing_quote(b, q, end)] == 0x22
            && b[closing_quote(b, q, end) - 1] != 0x5c,
    decreases end - q,
{
    if q < end && !(b[q] == 0x22 && b[q - 1] != 0x5c) {
        lemma_closing_quote(b, q + 1, end);
    }
}

// ---------------------------------------------------------------------------------------------
// Reading lines

/// A line that was read.
pub struct PchtxtLine {
    pub data: PchtxtLineData,
    pub rest: (usize, usize),
    pub diag: Option<PchtxtDianostic>,
}

impl View for PchtxtLine {
    type V = LineModel;

    open spec fn view(&self) -> LineModel {
        LineModel {
            data: self.data@,
            rest: self.rest,
            diag: match self.diag {
                None => None,
                Some(d) => Some(d@),
            },
        }
    }
}

fn boundary(b: &[u8], i: usize) -> (r: bool)
    ensures
        r == on_boundary(b@, i as int),
{
    i >= b.len() || b[i] < 0x80 || b[i] > 0xbf
}

fn floor_of(b: &[u8], i: usize) -> (r: usize)
    requires
        i <= b@.len(),
    ensures
        r == floor_boundary(b@, i as int),
        r <= i,
{
    let mut k: usize = i;
    while k > 0 && !boundary(b, k)
        invariant
            k <= i <= b@.len(),
            floor_boundary(b@, i as int) == floor_boundary(b@, k as int),
        decreases k,
    {
        k -= 1;
    }
    k
}

fn ceil_of(b: &[u8], i: usize) -> (r: usize)
    requires
        i <= b@.len(),
    ensures
        r == ceil_boundary(b@, i as int),
        i <= r <= b@.len(),
{
    let len: usize = b.len();
    let mut k: usize = i;
    while !boundary(b, k)
        invariant
            i <= k <= b@.len(),
            len == b@.len(),
            ceil_boundary(b@, i as int) == ceil_boundary(b@, k as int),
        decreases b@.len() - k,
    {
        k += 1;
    }
    k
}

fn lower_case(x: u8) -> (r: u8)
    ensures
        r == lower(x),
{
    if 0x41 <= x && x <= 0x5a {
        x + 0x20
    } else {
        x
    }
}

fn text_reads_as(b: &[u8], i: usize, pat: &[u8]) -> (r: bool)
    requires
        i <= b@.len(),
    ensures
        r == reads_as(b@, i as int, pat@),
{
    if b.len() - i < pat.len() {
        return false;
    }
    let mut k: usize = 0;
    while k < pat.len()
        invariant
            k <= pat@.len(),
            i + pat@.len() <= b@.len() <= usize::MAX,
            forall|m: int| 0 <= m < k ==> lower(b@[i + m]) == lower(#[trigger] pat@[m]),
        decreases pat@.len() - k,
    {
        if lower_case(b[i + k]) != lower_case(pat[k]) {
            assert(lower(b@[i + k]) != lower(pat@[k as int]));
            return false;
        }
        k += 1;
    }
    true
}

fn strip_prefix_case_insensitive(b: &[u8], i: usize, end: usize, prefix: &str) -> (r: usize)
    requires
        i <= end <= b@.len(),
    ensures
        r == behind_prefix(b@, i as int, end as int, prefix.spec_bytes()),
        i <= r <= end,
{
    let p = prefix.as_bytes();
    if p.len() <= end - i && text_reads_as(b, i, p) {
        i + p.len()
    } else {
        i
    }
}

fn find_value_end(b: &[u8], i: usize, end: usize) -> (r: usize)
    requires
        i <= end <= b@.len(),
    ensures
        r == value_end(b@, i as int, end as int),
        i <= r <= end,
{
    let mut k: usize = i;
    while k < end && !(b[k] == 0x20 || b[k] == 0x2f || b[k] == 0x0d || b[k] == 0x0a)
        invariant
            i <= k <= end <= b@.len(),
            value_end(b@, i as int, end as int) == value_end(b@, k as int, end as int),
        decreases end - k,
    {
        k += 1;
    }
    k
}

fn find_hex_end(b: &[u8], i: usize, end: usize) -> (r: usize)
    requires
        i <= end <= b@.len(),
    ensures
        r == hex_end(b@, i as int, end as int),
        i <= r <= end,
{
    let mut k: usize = i;
    while k < end && token::digit(b[k]) < 16
        invariant
            i <= k <= end <= b@.len(),
            hex_end(b@, i as int, end as int) == hex_end(b@, k as int, end as int),
        decreases end - k,
    {
        k += 1;
    }
    k
}

fn ignored_line(s: usize, e: usize, diag: Option<PchtxtDianostic>) -> (r: PchtxtLine)
    ensures
        r@ == ignored(
            s as int,
            e as int,
            match diag {
                None => None,
                Some(d) => Some(d@),
            },
        ),
{
    PchtxtLine { data: PchtxtLineData::Ignored, rest: (s, e), diag }
}

/// The value of hexadecimal digits, if it fits in 128 bits.
fn hex_u128(b: &[u8], i: usize, j: usize) -> (r: Option<u128>)
    requires
        i <= j <= b@.len(),
        forall|k: int| i <= k < j ==> token::digit_value(#[trigger] b@[k]) < 16,
    ensures
        r is Some <==> token::digits_value(b@, i as int, j as int, 16) <= u128::MAX,
        r matches Some(v) ==> v == token::digits_value(b@, i as int, j as int, 16),
{
    let mut value: u128 = 0;
    let mut k: usize = i;
    while k < j
        invariant
            i <= k <= j <= b@.len(),
            forall|k: int| i <= k < j ==> token::digit_value(#[trigger] b@[k]) < 16,
            value == token::digits_value(b@, i as int, k as int, 16),
        decreases j - k,
    {
        proof {
            token::lemma_digits_grow(b@, i as int, k + 1, j as int, 16);
            assert(token::digit_value(b@[k as int]) < 16);
        }
        if value > u128::MAX / 16 {
            return None;
        }
        value = value * 16 + token::digit(b[k]) as u128;
        k += 1;
    }
    Some(value)
}

proof fn lemma_build_prefix(b: Seq<u8>, s: int)
    requires
        valid_utf8(b),
        text::has_at(b, s, "@nsobid-".spec_bytes()),
    ensures
        text::cut_point(b, s + "@nsobid-".spec_bytes().len()),
{
    let prefix = "@nsobid-".spec_bytes();
    reveal_strlit("@nsobid-");
    is_ascii_spec_bytes("@nsobid-");
    assert(prefix.len() == 8 && prefix[7] == 0x2d);
    assert(b.subrange(s, s + 8)[7] == b[s + 7]);
    text::lemma_ascii_boundary(b, s + 7);
}

fn read_build_id(b: &[u8], s: usize, e: usize) -> (r: PchtxtLine)
    requires
        e <= b@.len(),
        valid_utf8(b@),
        text::has_at(b@, s as int, "@nsobid-".spec_bytes()),
        s + "@nsobid-".spec_bytes().len() <= e,
    ensures
        r@ == build_id_line(b@, s as int, e as int),
        r.rest.0 <= r.rest.1 <= b@.len(),
        text::cut_point(b@, r.rest.0 as int),
        r.rest.1 == e,
{
    let first: usize = s + "@nsobid-".as_bytes().len();
    let h = find_hex_end(b, first, e);
    proof {
        lemma_build_prefix(b@, s as int);
        lemma_hex_end(b@, first as int, e as int);
        if h > first {
            text::lemma_ascii_boundary(b@, h - 1);
        }
    }
    if h == first {
        return PchtxtLine {
            data: PchtxtLineData::BuildId(0),
            rest: (h, e),
            diag: Some(
                PchtxtDianostic::InvalidBuildId {
                    cause: IntParseError::Empty,
                    at: (first, h - first),
                },
            ),
        };
    }
    match hex_u128(b, first, h) {
        Some(id) => {
            proof {
                token::lemma_digits_grow(b@, first as int, h as int, h as int, 16);
            }
            PchtxtLine { data: PchtxtLineData::BuildId(id), rest: (h, e), diag: None }
        },
        None => PchtxtLine {
            data: PchtxtLineData::BuildId(0),
            rest: (h, e),
            diag: Some(
                PchtxtDianostic::InvalidBuildId {
                    cause: IntParseError::PosOverflow,
                    at: (first, h - first),
                },
            ),
        },
    }
}

/// The offset shift for what was read as its value.
pub fn offset_shift(parsed: Result<i32, IntParseError>) -> (r: i32)
    ensures
        r == shift_value(parsed),
{
    match parsed {
        Ok(v) => v,
        Err(_) => 0,
    }
}

fn word_is(b: &[u8], i: usize, j: usize, word: &str) -> (r: bool)
    requires
        i <= j <= b@.len(),
    ensures
        r == is_word(b@, i as int, j as int, word.spec_bytes()),
{
    j - i == word.as_bytes().len() && text_reads_as(b, i, word.as_bytes())
}

fn read_flag(t: &str, s: usize, e: usize) -> (r: PchtxtLine)
    requires
        s + 2 <= e <= t.spec_bytes().len(),
        on_boundary(t.spec_bytes(), e as int),
        is_shift_flag(t.spec_bytes(), s as int, e as int) ==> !numbers::negates_least(
            t.spec_bytes().subrange(
                value_end(t.spec_bytes(), s + 6, e as int) + 1,
                value_end(
                    t.spec_bytes(),
                    value_end(t.spec_bytes(), s + 6, e as int) + 1,
                    e as int,
                ),
            ),
            0x8000_0000,
        ),
    ensures
        r@ == flag_line(t.spec_bytes(), s as int, e as int),
        r.rest.0 <= r.rest.1 <= t.spec_bytes().len(),
        text::cut_point(t.spec_bytes(), s as int) ==> text::cut_point(
            t.spec_bytes(),
            r.rest.0 as int,
        ),
        r.rest.1 == e,
{
    let b = t.as_bytes();
    proof {
        text::lemma_str_valid(t@);
        lemma_boundary(b@, e as int);
    }
    if e - s < 7 {
        return ignored_line(s, e, None);
    }
    let n: usize = s + 6;
    let p = find_value_end(b, n, e);
    proof {
        lemma_value_end(b@, n as int, e as int);
        lemma_boundary(b@, p as int);
    }
    if !boundary(b, n) {
        let at = floor_of(b, n);
        return ignored_line(s, e, Some(PchtxtDianostic::UnexpectedUnicode { at: (at, p - at) }));
    }
    if word_is(b, n, p, "print_values") {
        return PchtxtLine {
            data: PchtxtLineData::Flag(PchtxtFlag::PrintValues),
            rest: (p, e),
            diag: None,
        };
    }
    if e - p < 2 {
        return ignored_line(s, e, Some(PchtxtDianostic::UnknownFlag { at: (n, p - n) }));
    }
    let q = find_value_end(b, p + 1, e);
    proof {
        lemma_value_end(b@, p + 1, e as int);
        lemma_boundary(b@, q as int);
        lemma_boundary(b@, p + 1);
    }
    if !boundary(b, p + 1) {
        let at = floor_of(b, p + 1);
        return ignored_line(s, e, Some(PchtxtDianostic::UnexpectedUnicode { at: (at, q - at) }));
    }
    if word_is(b, n, p, "offset_shift") {
        let shift = offset_shift(numbers::read_i32(text::slice(t, p + 1, q)));
        return PchtxtLine {
            data: PchtxtLineData::Flag(PchtxtFlag::OffsetShift(shift)),
            rest: (q, e),
            diag: None,
        };
    }
    ignored_line(s, e, Some(PchtxtDianostic::UnknownFlag { at: (n, p - n) }))
}

fn read_offset(b: &[u8], s: usize) -> (r: Option<u32>)
    requires
        s + 8 <= b@.len(),
    ensures
        r == patch_offset(b@, s as int),
{
    let first: usize = if b[s] == 0x2b { s + 1 } else { s };
    let h = find_hex_end(b, first, s + 8);
    proof {
        lemma_hex_end(b@, first as int, s + 8);
    }
    if h < s + 8 {
        return None;
    }
    proof {
        lemma_digits_bound(b@, first as int, s + 8);
    }
    match token::parse_digits(b, first, s + 8, 16, u32::MAX as u128) {
        Some(v) => Some(v as u32),
        None => None,
    }
}

fn find_closing_quote(b: &[u8], q: usize, end: usize) -> (r: usize)
    requires
        1 <= q <= end <= b@.len(),
    ensures
        r == closing_quote(b@, q as int, end as int),
        q <= r <= end,
{
    let mut k: usize = q;
    while k < end && !(b[k] == 0x22 && b[k - 1] != 0x5c)
        invariant
            1 <= q <= k <= end <= b@.len(),
            closing_quote(b@, q as int, end as int) == closing_quote(b@, k as int, end as int),
        decreases end - k,
    {
        k += 1;
    }
    k
}

fn byte_of_escape(x: u8) -> (r: u8)
    ensures
        r == escaped_byte(x),
{
    match x {
        0x61 => 0x07,
        0x62 => 0x08,
        0x66 => 0x0c,
        0x6e => 0x0a,
        0x72 => 0x0d,
        0x74 => 0x09,
        _ => x,
    }
}

fn read_string(b: &[u8], start: usize, end: usize) -> (r: Vec<u8>)
    requires
        start <= end < b@.len(),
    ensures
        r@ == string_bytes(b@, start as int, end as int).push(0),
{
    let len: usize = b.len();
    let mut r: Vec<u8> = Vec::new();
    let mut i: usize = start;
    let ghost whole = string_bytes(b@, start as int, end as int);
    assert(r@ + whole =~= whole);
    while i < end
        invariant
            start <= i <= end + 1,
            end < len == b@.len(),
            r@ + string_bytes(b@, i as int, end as int) == whole,
        decreases end + 1 - i,
    {
        let ghost before = r@;
        if b[i] == 0x5c {
            r.push(byte_of_escape(b[i + 1]));
            assert(r@ + string_bytes(b@, i + 2, end as int) =~= before + string_bytes(
                b@,
                i as int,
                end as int,
            ));
            i += 2;
        } else {
            r.push(b[i]);
            assert(r@ + string_bytes(b@, i + 1, end as int) =~= before + string_bytes(
                b@,
                i as int,
                end as int,
            ));
            i += 1;
        }
    }
    assert(r@ + string_bytes(b@, i as int, end as int) =~= r@);
    r.push(0);
    r
}

fn read_pairs(b: &[u8], start: usize, end: usize) -> (r: Vec<u8>)
    requires
        start <= end <= b@.len(),
        (end - start) % 2 == 0,
        forall|k: int| start <= k < end ==> token::digit_value(#[trigger] b@[k]) < 16,
    ensures
        r@ == pair_bytes(b@, start as int, end as int),
{
    let mut r: Vec<u8> = Vec::new();
    let mut i: usize = start;
    let ghost whole = pair_bytes(b@, start as int, end as int);
    assert(r@ + whole =~= whole);
    while i < end
        invariant
            start <= i <= end <= b@.len(),
            (end - i) % 2 == 0,
            forall|k: int| start <= k < end ==> token::digit_value(#[trigger] b@[k]) < 16,
            r@ + pair_bytes(b@, i as int, end as int) == whole,
        decreases end - i,
    {
        let ghost before = r@;
        assert(token::digit_value(b@[i as int]) < 16 && token::digit_value(b@[i + 1]) < 16);
        r.push(token::digit(b[i]) * 16 + token::digit(b[i + 1]));
        assert(r@ + pair_bytes(b@, i + 2, end as int) =~= before + pair_bytes(
            b@,
            i as int,
            end as int,
        ));
        i += 2;
    }
    assert(r@ + pair_bytes(b@, i as int, end as int) =~= r@);
    r
}

fn read_patch(b: &[u8], s: usize, e: usize) -> (r: PchtxtLine)
    requires
        valid_utf8(b@),
        s <= e <= b@.len(),
        text::cut_point(b@, s as int),
        on_boundary(b@, e as int),
    ensures
        r@ == patch_line(b@, s as int, e as int),
        r.rest.0 <= r.rest.1 <= b@.len(),
        text::cut_point(b@, r.rest.0 as int),
        r.rest.1 == e,
{
    if e - s < 11 {
        return ignored_line(s, e, None);
    }
    let offset = match read_offset(b, s) {
        None => {
            return ignored_line(
                s,
                e,
                Some(
                    PchtxtDianostic::InvalidOffset {
                        cause: IntParseError::InvalidDigit,
                        at: (s, 8),
                    },
                ),
            );
        },
        Some(offset) => offset,
    };
    let v: usize = s + 9;
    if !boundary(b, v) {
        let floor = floor_of(b, v);
        let ceil = ceil_of(b, v);
        return ignored_line(
            s,
            e,
            Some(PchtxtDianostic::UnexpectedUnicode { at: (floor, ceil - floor) }),
        );
    }
    if b[v] == 0x22 {
        proof {
            lemma_closing_quote(b@, v + 2, e as int);
        }
        let q = find_closing_quote(b, v + 2, e);
        if q >= e {
            return ignored_line(s, e, Some(PchtxtDianostic::UnterminatedStringLiteral { at: e }));
        }
        proof {
            text::lemma_ascii_boundary(b@, q as int);
        }
        return PchtxtLine {
            data: PchtxtLineData::Patch {
                offset,
                patch: read_string(b, v + 1, q),
                is_string: true,
            },
            rest: (q + 1, e),
            diag: None,
        };
    }
    let p = find_value_end(b, v, e);
    let h = find_hex_end(b, v, p);
    proof {
        lemma_value_end(b@, v as int, e as int);
        lemma_boundary(b@, p as int);
        lemma_hex_end(b@, v as int, p as int);
    }
    if (p - v) % 2 != 0 {
        return ignored_line(s, e, Some(PchtxtDianostic::OddHexValueLength { at: (v, p - v) }));
    }
    if h < p {
        return ignored_line(s, e, Some(PchtxtDianostic::InvalidHexValue { at: (h, 1) }));
    }
    PchtxtLine {
        data: PchtxtLineData::Patch { offset, patch: read_pairs(b, v, p), is_string: false },
        rest: (p, e),
        diag: None,
    }
}

fn read_at(t: &str, s: usize, e: usize) -> (r: PchtxtLine)
    requires
        s + 2 <= e <= t.spec_bytes().len(),
        text::cut_point(t.spec_bytes(), s as int),
        on_boundary(t.spec_bytes(), e as int),
        t.spec_bytes()[s as int] == 0x40,
        line_readable(t.spec_bytes(), s as int, e as int, false, false),
    ensures
        r@ == at_line(t.spec_bytes(), s as int, e as int),
        r.rest.0 <= r.rest.1 <= t.spec_bytes().len(),
        text::cut_point(t.spec_bytes(), r.rest.0 as int),
        r.rest.1 == e,
{
    let b = t.as_bytes();
    let x = lower_case(b[s + 1]);
    proof {
        text::lemma_str_valid(t@);
        text::lemma_ascii_boundary(b@, s as int);
        if b@[s + 1] <= 0x7f {
            text::lemma_ascii_boundary(b@, s + 1);
        }
    }
    if x == 0x66 {
        return read_flag(t, s, e);
    }
    let (data, from, prefix) = if x == 0x62 {
        (PchtxtLineData::BigEndian, s + 2, "ig-endian")
    } else if x == 0x6c {
        (PchtxtLineData::LittleEndian, s + 2, "ittle-endian")
    } else if x == 0x65 {
        (PchtxtLineData::Enable, s + 2, "nabled")
    } else if x == 0x73 {
        (PchtxtLineData::Stop, s + 2, "top")
    } else {
        (PchtxtLineData::Disable, s + 1, "disabled")
    };
    let rest = strip_prefix_case_insensitive(b, from, e, prefix);
    proof {
        lemma_boundary(b@, rest as int);
        lemma_boundary(b@, from as int);
    }
    let diag = if x == 0x62 {
        Some(PchtxtDianostic::BigEndian { at: (s, e - s) })
    } else {
        None
    };
    PchtxtLine { data, rest: (rest, e), diag }
}

fn read_line(t: &str, s: usize, e: usize, first: bool, finished: bool) -> (r: PchtxtLine)
    requires
        s <= e <= t.spec_bytes().len(),
        text::cut_point(t.spec_bytes(), s as int),
        on_boundary(t.spec_bytes(), e as int),
        line_readable(t.spec_bytes(), s as int, e as int, first, finished),
    ensures
        r@ == line_at(t.spec_bytes(), s as int, e as int, first, finished),
        r.rest.0 <= r.rest.1 <= t.spec_bytes().len(),
        text::cut_point(t.spec_bytes(), r.rest.0 as int),
        r.rest.1 == e,
{
    let b = t.as_bytes();
    proof {
        text::lemma_str_valid(t@);
        lemma_boundary(b@, e as int);
    }
    if e - s < 2 || finished {
        return ignored_line(s, e, None);
    }
    let prefix = "@nsobid-".as_bytes();
    if first && prefix.len() <= e - s && text::bytes_at(b, s, prefix) {
        return read_build_id(b, s, e);
    }
    match b[s] {
        0x23 => PchtxtLine { data: PchtxtLineData::Information, rest: (e, e), diag: None },
        0x2f => PchtxtLine { data: PchtxtLineData::Comment, rest: (e, e), diag: None },
        0x40 => read_at(t, s, e),
        _ => read_patch(b, s, e),
    }
}

fn next_line(b: &[u8], i: usize) -> (r: (usize, usize))
    requires
        i < b@.len(),
    ensures
        (r.0 as int, r.1 as int) == line_ends(b@, i as int),
        i <= r.0 <= r.1 <= b@.len(),
        i < r.1,
{
    proof {
        lemma_line_ends(b@, i as int);
    }
    let f = text::byte_position(b, 0x0a, i, b.len());
    if f < b.len() {
        if f > i && b[f - 1] == 0x0d {
            (f - 1, f + 1)
        } else {
            (f, f + 1)
        }
    } else {
        (f, f)
    }
}

/// Whether every line of a text can be read.
pub fn pchtxt_is_readable(pchtxt: &str) -> (r: bool)
    ensures
        r == readable(pchtxt.spec_bytes()),
{
    let b = pchtxt.as_bytes();
    let mut i: usize = 0;
    let mut first = true;
    let mut finished = false;
    while i < b.len()
        invariant
            i <= b@.len(),
            b@ == pchtxt.spec_bytes(),
            readable(b@) == readable_from(b@, i as int, first, finished),
        decreases b@.len() - i,
    {
        let (e, next) = next_line(b, i);
        proof {
            lemma_line_ends(b@, i as int);
        }
        if !is_line_readable(pchtxt, i, e, first, finished) {
            return false;
        }
        let stops = does_line_stop(b, i, e, first);
        finished = finished || stops;
        first = false;
        i = next;
    }
    true
}

fn build_named(b: &[u8], s: usize, e: usize, first: bool) -> (r: bool)
    requires
        s <= e <= b@.len(),
    ensures
        r == names_build(b@, s as int, e as int, first),
{
    let prefix = "@nsobid-".as_bytes();
    first && prefix.len() <= e - s && text::bytes_at(b, s, prefix)
}

fn does_line_stop(b: &[u8], s: usize, e: usize, first: bool) -> (r: bool)
    requires
        s <= e <= b@.len(),
    ensures
        r == line_stops(b@, s as int, e as int, first),
{
    e - s >= 2 && !build_named(b, s, e, first) && b[s] == 0x40 && lower_case(b[s + 1]) == 0x73
}

fn does_prefix_fit(b: &[u8], i: usize, end: usize, prefix: &str) -> (r: bool)
    requires
        i <= end <= b@.len(),
    ensures
        r == prefix_fits(b@, i as int, end as int, prefix.spec_bytes()),
{
    let p = prefix.as_bytes();
    p.len() > end - i || boundary(b, i + p.len())
}

fn is_shift_readable(t: &str, s: usize, e: usize) -> (r: bool)
    requires
        s + 2 <= e <= t.spec_bytes().len(),
        on_boundary(t.spec_bytes(), e as int),
    ensures
        r == (is_shift_flag(t.spec_bytes(), s as int, e as int) ==> !numbers::negates_least(
            t.spec_bytes().subrange(
                value_end(t.spec_bytes(), s + 6, e as int) + 1,
                value_end(
                    t.spec_bytes(),
                    value_end(t.spec_bytes(), s + 6, e as int) + 1,
                    e as int,
                ),
            ),
            0x8000_0000,
        )),
{
    let b = t.as_bytes();
    if e - s < 7 {
        return true;
    }
    let n: usize = s + 6;
    let p = find_value_end(b, n, e);
    if !boundary(b, n) || word_is(b, n, p, "print_values") || e - p < 2 || !boundary(b, p + 1)
        || !word_is(b, n, p, "offset_shift") {
        return true;
    }
    let q = find_value_end(b, p + 1, e);
    proof {
        text::lemma_str_valid(t@);
        lemma_value_end(b@, p + 1, e as int);
        lemma_boundary(b@, q as int);
        lemma_boundary(b@, p + 1);
    }
    !numbers::is_negated_least(text::slice(t, p + 1, q), 0x8000_0000)
}

fn is_line_readable(t: &str, s: usize, e: usize, first: bool, finished: bool) -> (r: bool)
    requires
        s <= e <= t.spec_bytes().len(),
        on_boundary(t.spec_bytes(), e as int),
    ensures
        r == line_readable(t.spec_bytes(), s as int, e as int, first, finished),
{
    let b = t.as_bytes();
    if e - s < 2 || finished || build_named(b, s, e, first) || b[s] == 0x23 || b[s] == 0x2f {
        return true;
    }
    if b[s] == 0x40 {
        let x = lower_case(b[s + 1]);
        return match x {
            0x62 => does_prefix_fit(b, s + 2, e, "ig-endian"),
            0x6c => does_prefix_fit(b, s + 2, e, "ittle-endian"),
            0x65 => does_prefix_fit(b, s + 2, e, "nabled"),
            0x66 => is_shift_readable(t, s, e),
            0x73 => does_prefix_fit(b, s + 2, e, "top"),
            _ => does_prefix_fit(b, s + 1, e, "disabled"),
        };
    }
    e - s < 11 || boundary(b, s + 8)
}

/// A line that is read before the reading has stopped stops it just when it says so.
proof fn lemma_line_stops(b: Seq<u8>, s: int, e: int, first: bool)
    ensures
        line_at(b, s, e, first, false).data is Stop <==> line_stops(b, s, e, first),
{
}

/// The text of the value of an offset shift.
pub open spec fn shift_text(b: Seq<u8>, s: int, e: int) -> Seq<u8> {
    let p = value_end(b, s + 6, e);
    b.subrange(p + 1, value_end(b, p + 1, e))
}

/// An offset shift that is a plain number, maybe with a minus sign, is that number, or none where
/// it is too large.
pub open spec fn shift_is_told(b: Seq<u8>, s: int, e: int, line: LineModel) -> bool {
    line.data matches PchtxtLineData::Flag(PchtxtFlag::OffsetShift(shift)) ==> {
        &&& numbers::plain_value(shift_text(b, s, e)) matches Some(v) ==> shift == (if v
            <= i32::MAX {
            v
        } else {
            0
        })
        &&& numbers::negated_value(shift_text(b, s, e)) matches Some(v) ==> shift == (if v
            <= i32::MAX {
            -v
        } else {
            0
        })
    }
}

/// Every line tells an offset shift that is a plain number.
pub proof fn law_plain_shift_is_told(b: Seq<u8>, s: int, e: int, first: bool, finished: bool)
    ensures
        shift_is_told(b, s, e, line_at(b, s, e, first, finished)),
{
    let t = shift_text(b, s, e);
    if numbers::plain_value(t) is Some {
        numbers::law_plain_number_is_read(t);
    }
    if numbers::negated_value(t) is Some {
        numbers::law_negated_number_is_read(t);
    }
}

/// A line of the walk: what is read from it, and where it starts and ends.
pub struct ItemModel {
    pub line: LineModel,
    pub start: int,
    pub end: int,
}

/// The lines from `i` on, as they are walked.
pub open spec fn walk(b: Seq<u8>, i: int, first: bool, finished: bool) -> Seq<ItemModel>
    decreases b.len() - i,
{
    if i < 0 || i >= b.len() {
        Seq::empty()
    } else {
        let (e, next) = line_ends(b, i);
        let line = line_at(b, i, e, first, finished);
        if next <= i || next > b.len() {
            Seq::empty()
        } else {
            seq![ItemModel { line, start: i, end: e }] + walk(
                b,
                next,
                false,
                finished || line.data is Stop,
            )
        }
    }
}

/// Walks the lines of a patch text file.
pub struct PchtxtParseIter<'a> {
    pub pchtxt: &'a str,
    pub position: usize,
    pub first: bool,
    pub finished: bool,
}

impl<'a> PchtxtParseIter<'a> {
    /// The invariant: a line starts here, and the lines from here on can be read.
    pub open spec fn wf(&self) -> bool {
        &&& self.position <= self.pchtxt.spec_bytes().len()
        &&& text::cut_point(self.pchtxt.spec_bytes(), self.position as int)
        &&& readable_from(
            self.pchtxt.spec_bytes(),
            self.position as int,
            self.first,
            self.finished,
        )
    }

    /// The lines that are left.
    pub open spec fn remaining(&self) -> Seq<ItemModel> {
        walk(self.pchtxt.spec_bytes(), self.position as int, self.first, self.finished)
    }

    /// Starts at the first line of a text.
    pub fn new(pchtxt: &'a str) -> (r: Self)
        requires
            readable(pchtxt.spec_bytes()),
        ensures
            r.wf(),
            r.pchtxt == pchtxt,
            r.position == 0,
            r.first,
            !r.finished,
            r.remaining() == walk(pchtxt.spec_bytes(), 0, true, false),
    {
        proof {
            text::lemma_str_valid(pchtxt@);
        }
        PchtxtParseIter { pchtxt, position: 0, first: true, finished: false }
    }

    /// The next line, where it starts and where it ends.
    pub fn next(&mut self) -> (r: Option<(PchtxtLine, usize, usize)>)
        requires
            old(self).wf(),
        ensures
            final(self).wf(),
            final(self).pchtxt == old(self).pchtxt,
            r is None <==> old(self).position >= old(self).pchtxt.spec_bytes().len(),
            r is None ==> *final(self) == *old(self),
            r matches Some((line, s, e)) ==> {
                let b = old(self).pchtxt.spec_bytes();
                let ends = line_ends(b, old(self).position as int);
                &&& s == old(self).position
                &&& e == ends.0
                &&& s <= e <= b.len()
                &&& text::cut_point(b, s as int)
                &&& text::cut_point(b, e as int)
                &&& line@ == line_at(b, s as int, e as int, old(self).first, old(self).finished)
                &&& shift_is_told(b, s as int, e as int, line@)
                &&& line.rest.0 <= line.rest.1 == e
                &&& text::cut_point(b, line.rest.0 as int)
                &&& final(self).position == ends.1
                &&& s < final(self).position
                &&& !final(self).first
                &&& final(self).finished == (old(self).finished || line@.data is Stop)
                &&& old(self).remaining() == seq![
                    ItemModel { line: line@, start: s as int, end: e as int },
                ] + final(self).remaining()
            },
            r is None ==> old(self).remaining().len() == 0,
    {
        let b = self.pchtxt.as_bytes();
        if self.position >= b.len() {
            return None;
        }
        proof {
            text::lemma_str_valid(self.pchtxt@);
            lemma_line_ends(b@, self.position as int);
        }
        let s: usize = self.position;
        let (e, next) = next_line(b, s);
        let line = read_line(self.pchtxt, s, e, self.first, self.finished);
        let stop = match line.data {
            PchtxtLineData::Stop => true,
            _ => false,
        };
        proof {
            lemma_line_stops(b@, s as int, e as int, self.first);
            law_plain_shift_is_told(b@, s as int, e as int, self.first, self.finished);
            assert(stop == (line@.data is Stop));
        }
        self.finished = self.finished || stop;
        self.first = false;
        self.position = next;
        Some((line, s, e))
    }
}

// ---------------------------------------------------------------------------------------------
// Patches

/// What has been read: the patches, what was said, and the state that later lines depend on.
#[verifier::ext_equal]
pub struct PatchesModel {
    pub patches: Map<u32, u8>,
    pub diags: Seq<DiagModel>,
    pub shift: i32,
    pub comment: Seq<u8>,
    pub build_id: Option<u128>,
    pub enabled: bool,
}

impl PatchesModel {
    /// Nothing has been read.
    pub open spec fn start() -> PatchesModel {
        PatchesModel {
            patches: Map::empty(),
            diags: Seq::empty(),
            shift: 0,
            comment: Seq::empty(),
            build_id: None,
            enabled: false,
        }
    }

    pub open spec fn saying(self, d: Option<DiagModel>) -> PatchesModel {
        match d {
            None => self,
            Some(d) => PatchesModel { diags: self.diags.push(d), ..self },
        }
    }

    /// A line `text` at `at` has been read, which does not stop the reading.
    pub open spec fn with_line(self, line: LineModel, text: Seq<u8>, at: usize) -> PatchesModel {
        let st = self.saying(line.diag);
        let span = (at, text.len() as usize);
        match line.data {
            PchtxtLineData::BuildId(id) => PatchesModel { build_id: Some(id), ..st },
            PchtxtLineData::Information => st.saying(
                Some(PchtxtDianostic::Information { message: text, at: span }),
            ),
            PchtxtLineData::Comment => PatchesModel { comment: text, ..st },
            PchtxtLineData::Enable => PatchesModel { enabled: true, ..st }.saying(
                Some(PchtxtDianostic::PatchEnabled { message: st.comment, at: span }),
            ),
            PchtxtLineData::Flag(PchtxtFlag::OffsetShift(shift)) => PatchesModel { shift, ..st },
            PchtxtLineData::Disable => PatchesModel { enabled: false, ..st },
            PchtxtLineData::Patch { offset, patch, is_string } => if !st.enabled {
                st
            } else {
                let said = if offset.checked_add_signed(st.shift) is None {
                    st.saying(
                        Some(
                            PchtxtDianostic::OverUnderFlow {
                                offset_shift: st.shift,
                                at: (at, 8),
                            },
                        ),
                    )
                } else {
                    st
                };
                PatchesModel {
                    patches: patches::put_all(
                        st.patches,
                        offset.wrapping_add_signed(st.shift),
                        patch,
                    ),
                    ..said
                }
            },
            _ => st,
        }
    }
}

/// What has been read when the lines from `i` on have been read too, up to the one that stops
/// the reading.
pub open spec fn patches_from(b: Seq<u8>, i: int, first: bool, st: PatchesModel) -> PatchesModel
    decreases b.len() - i,
{
    if i < 0 || i >= b.len() {
        st
    } else {
        let (e, next) = line_ends(b, i);
        let line = line_at(b, i, e, first, false);
        if next <= i || next > b.len() {
            st
        } else if line.data is Stop {
            st.saying(line.diag)
        } else {
            patches_from(b, next, false, st.with_line(line, b.subrange(i, e), i as usize))
        }
    }
}

/// What a whole file holds: its patches, the build that they are for, and what is said about it.
pub open spec fn pchtxt_patches(b: Seq<u8>) -> ((Map<u32, u8>, u128), Seq<DiagModel>) {
    let st = patches_from(b, 0, true, PatchesModel::start());
    match st.build_id {
        Some(id) => ((st.patches, id), st.diags),
        None => (
            (st.patches, 0),
            seq![PchtxtDianostic::MissingBuildId] + st.diags,
        ),
    }
}

/// Reads the patches of a file, the identifier of the build that they are for, and what there is
/// to say about the file.
pub fn pchtxt_to_patches(pchtxt: &str) -> (r: ((PatchVec, u128), Vec<PchtxtDianostic>))
    requires
        readable(pchtxt.spec_bytes()),
    ensures
        ((r.0.0@, r.0.1), diagnostics(r.1@)) == pchtxt_patches(pchtxt.spec_bytes()),
{
    let ghost b = pchtxt.spec_bytes();
    let ghost whole = patches_from(b, 0, true, PatchesModel::start());
    let mut vec = PatchVec::new();
    let mut diags: Vec<PchtxtDianostic> = Vec::new();
    let mut shift: i32 = 0;
    let mut comment: String = String::new();
    let mut build_id: Option<u128> = None;
    let mut enabled = false;
    let mut lines = PchtxtParseIter::new(pchtxt);
    let ghost mut st = PatchesModel::start();
    proof {
        assert(text::bytes_of(comment) =~= Seq::empty());
        assert(diagnostics(diags@) =~= Seq::empty());
    }
    loop
        invariant_except_break
            lines.wf(),
            lines.pchtxt == pchtxt,
            b == pchtxt.spec_bytes(),
            !lines.finished,
            st.patches == vec@,
            st.diags == diagnostics(diags@),
            st.shift == shift,
            st.comment == text::bytes_of(comment),
            st.build_id == build_id,
            st.enabled == enabled,
            whole == patches_from(b, lines.position as int, lines.first, st),
        ensures
            whole.patches == vec@,
            whole.diags == diagnostics(diags@),
            whole.build_id == build_id,
        decreases b.len() - lines.position,
    {
        let ghost before = st;
        let (line, s, e) = match lines.next() {
            None => {
                break;
            },
            Some(found) => found,
        };
        let ghost model = line@;
        let ghost words = b.subrange(s as int, e as int);
        if let Some(d) = line.diag {
            let ghost said = diags@;
            diags.push(d);
            assert(diagnostics(diags@) =~= diagnostics(said).push(d@));
        }
        let at = (s, e - s);
        let ghost said = diags@;
        match line.data {
            PchtxtLineData::BuildId(id) => {
                build_id = Some(id);
            },
            PchtxtLineData::Information => {
                let message = text::cut(pchtxt, s, e);
                diags.push(PchtxtDianostic::Information { message, at });
            },
            PchtxtLineData::Comment => {
                comment = text::cut(pchtxt, s, e);
            },
            PchtxtLineData::Enable => {
                enabled = true;
                diags.push(PchtxtDianostic::PatchEnabled { message: comment.clone(), at });
            },
            PchtxtLineData::Flag(flag) => match flag {
                PchtxtFlag::OffsetShift(value) => {
                    shift = value;
                },
                PchtxtFlag::PrintValues => {},
            },
            PchtxtLineData::Stop => {
                break;
            },
            PchtxtLineData::Disable => {
                enabled = false;
            },
            PchtxtLineData::Patch { offset, patch, is_string } => {
                if enabled {
                    if offset.checked_add_signed(shift).is_none() {
                        diags.push(
                            PchtxtDianostic::OverUnderFlow { offset_shift: shift, at: (s, 8) },
                        );
                    }
                    vec.put(offset.wrapping_add_signed(shift), patch.as_slice());
                }
            },
            PchtxtLineData::Ignored | PchtxtLineData::BigEndian | PchtxtLineData::LittleEndian => {
            },
        }
        proof {
            st = before.with_line(model, words, s);
            if diags@.len() > said.len() {
                assert(diagnostics(diags@) =~= diagnostics(said).push(diags@.last()@));
            }
        }
    }
    if build_id.is_none() {
        let ghost said = diags@;
        diags.insert(0, PchtxtDianostic::MissingBuildId);
        assert(diagnostics(diags@) =~= seq![PchtxtDianostic::MissingBuildId] + diagnostics(said));
    }
    let id: u128 = match build_id {
        Some(id) => id,
        None => 0,
    };
    ((vec, id), diags)
}

} // verus!
