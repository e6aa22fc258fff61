//! Patch text files, as they are written.

use crate::option::BuildId;
use crate::patches;
use crate::patches::PatchVec;
use crate::text;
use vstd::prelude::*;
use vstd::string::*;
use vstd::utf8::*;

verus! {

/// The most bytes of a hunk that is written in one go.
pub const PCHTXT_MAX_HUNK_SIZE: u32 = 4080;

// ---------------------------------------------------------------------------------------------
// Model

/// The upper case hexadecimal digit for a number below 16.
pub open spec fn hex_digit(n: int) -> u8 {
    if n < 10 {
        (0x30 + n) as u8
    } else {
        (0x41 + n - 10) as u8
    }
}

/// The last `digits` hexadecimal digits of a number.
pub open spec fn hex_text(n: int, digits: nat) -> Seq<u8>
    decreases digits,
{
    if digits == 0 {
        Seq::empty()
    } else {
        hex_text(n / 16, (digits - 1) as nat).push(hex_digit(n % 16))
    }
}

/// The letter that stands behind a backslash for a byte that is written so.
pub open spec fn escape_letter(x: u8) -> Option<u8> {
    if x == 0x07 {
        Some(0x61)
    } else if x == 0x08 {
        Some(0x62)
    } else if x == 0x0c {
        Some(0x66)
    } else if x == 0x0a {
        Some(0x6e)
    } else if x == 0x0d {
        Some(0x72)
    } else if x == 0x09 {
        Some(0x74)
    } else if x == 0x0b {
        Some(0x76)
    } else if x == 0x5c {
        Some(0x5c)
    } else if x == 0x22 {
        Some(0x22)
    } else {
        None
    }
}

/// An ASCII control character.
pub open spec fn is_control(x: u8) -> bool {
    x <= 0x1f || x == 0x7f
}

/// The byte can stand in a quoted string, on its own or behind a backslash.
pub open spec fn is_writable(x: u8) -> bool {
    escape_letter(x) is Some || !is_control(x)
}

/// How many of the bytes `i..j` are written with a backslash.
pub open spec fn escapes(h: Seq<u8>, i: int, j: int) -> int
    decreases j - i,
{
    if i >= j {
        0
    } else {
        (if escape_letter(h[i]) is Some {
            1int
        } else {
            0
        }) + escapes(h, i + 1, j)
    }
}

/// The bytes `i..j` end with a zero and can be written as a quoted string.
pub open spec fn is_text(h: Seq<u8>, i: int, j: int) -> bool {
    &&& i < j
    &&& h[j - 1] == 0
    &&& forall|k: int| i <= k < j - 1 ==> is_writable(#[trigger] h[k])
    &&& valid_utf8(h.subrange(i, j))
}

/// The length of the bytes `i..j` as a quoted string, where they can be one.
pub open spec fn text_len(h: Seq<u8>, i: int, j: int) -> Option<usize> {
    if is_text(h, i, j) {
        Some((2 + (j - 1 - i) + escapes(h, i, j - 1)) as usize)
    } else {
        None
    }
}

/// A stretch of a hunk that takes one line, and its length as a quoted string if it is one.
#[derive(Clone, Copy, Debug, PartialEq, Eq, Structural)]
pub struct Part {
    pub start: usize,
    pub end: usize,
    pub text: Option<usize>,
}

pub open spec fn part(h: Seq<u8>, i: int, j: int) -> Part {
    Part { start: i as usize, end: j as usize, text: text_len(h, i, j) }
}

/// The first of the bytes `i..j` that is no control character, or `j`.
pub open spec fn first_plain(h: Seq<u8>, i: int, j: int) -> int
    decreases j - i,
{
    if i < j && is_control(h[i]) {
        first_plain(h, i + 1, j)
    } else {
        i
    }
}

/// The parts for the bytes `i..j`, which hold no zero but maybe the last: one part, or the
/// control characters in front and a string behind them.
pub open spec fn parts_of(h: Seq<u8>, i: int, j: int) -> Seq<Part> {
    let f = first_plain(h, i, j);
    if !is_text(h, i, j) && i < j && h[j - 1] == 0 && i < f && f < j && is_text(h, f, j) {
        seq![Part { start: i as usize, end: f as usize, text: None }, part(h, f, j)]
    } else {
        seq![part(h, i, j)]
    }
}

/// The offset behind the first zero from `i` on, or the end.
pub open spec fn zero_end(h: Seq<u8>, i: int) -> int {
    let f = text::find_byte(h, 0, i, h.len() as int);
    if f < h.len() {
        f + 1
    } else {
        h.len() as int
    }
}

/// The parts of the hunk from `i` on: each ends behind a zero or at the end.
pub open spec fn parts_from(h: Seq<u8>, i: int) -> Seq<Part>
    decreases h.len() - i,
{
    if i >= h.len() {
        Seq::empty()
    } else {
        let e = zero_end(h, i);
        if e <= i {
            Seq::empty()
        } else {
            parts_of(h, i, e) + parts_from(h, e)
        }
    }
}

/// The length of a part as it would be written.
pub open spec fn part_size(p: Part) -> int {
    match p.text {
        Some(n) => n as int,
        None => 2 * (p.end - p.start),
    }
}

/// Writing the two parts on one line is shorter than giving each its own.
pub open spec fn shorter_joined(a: Part, b: Part) -> bool {
    2 * (a.end - a.start) + 2 * (b.end - b.start) < part_size(a) + 10 + part_size(b)
}

/// Neighbouring parts from `k` on joined wherever that is shorter.
pub open spec fn joined(ps: Seq<Part>, k: int) -> Seq<Part>
    decreases ps.len() - k,
{
    if k < 0 || k + 1 >= ps.len() {
        ps
    } else if shorter_joined(ps[k], ps[k + 1]) {
        joined(
            ps.update(k, Part { start: ps[k].start, end: ps[k + 1].end, text: None }).remove(k + 1),
            k,
        )
    } else {
        joined(ps, k + 1)
    }
}

/// The bytes `i..j` as they stand in a quoted string.
pub open spec fn escaped(h: Seq<u8>, i: int, j: int) -> Seq<u8>
    decreases j - i,
{
    if i >= j {
        Seq::empty()
    } else {
        (match escape_letter(h[i]) {
            Some(letter) => seq![0x5cu8, letter],
            None => seq![h[i]],
        }) + escaped(h, i + 1, j)
    }
}

/// The bytes `i..j` in hexadecimal.
pub open spec fn hex_bytes(h: Seq<u8>, i: int, j: int) -> Seq<u8>
    decreases j - i,
{
    if i >= j {
        Seq::empty()
    } else {
        hex_text(h[i] as int, 2) + hex_bytes(h, i + 1, j)
    }
}

/// What a part puts on its line behind the address.
pub open spec fn part_body(h: Seq<u8>, p: Part) -> Seq<u8> {
    if p.text is Some {
        seq![0x22u8] + escaped(h, p.start as int, p.end - 1) + seq![0x22u8]
    } else {
        hex_bytes(h, p.start as int, p.end as int)
    }
}

/// The line for a part: the address, a space, the bytes and a line feed.
pub open spec fn part_line(base: u32, h: Seq<u8>, p: Part) -> Seq<u8> {
    hex_text(base + p.start, 8) + seq![0x20u8] + part_body(h, p) + seq![0x0au8]
}

/// The lines for the parts from `k` on.
pub open spec fn part_lines(base: u32, h: Seq<u8>, ps: Seq<Part>, k: int) -> Seq<u8>
    decreases ps.len() - k,
{
    if k >= ps.len() {
        Seq::empty()
    } else {
        part_line(base, h, ps[k]) + part_lines(base, h, ps, k + 1)
    }
}

/// The lines for a hunk.
pub open spec fn hunk_lines(base: u32, h: Seq<u8>) -> Seq<u8> {
    part_lines(base, h, joined(parts_from(h, 0), 0), 0)
}

/// The lines for a list of hunks.
pub open spec fn all_lines(hs: Seq<(u32, Seq<u8>)>) -> Seq<u8>
    decreases hs.len(),
{
    if hs.len() == 0 {
        Seq::empty()
    } else {
        all_lines(hs.drop_last()) + hunk_lines(hs.last().0, hs.last().1)
    }
}

/// A patch text file: the build it is for, the mark that what follows is enabled, and the hunks.
pub open spec fn pchtxt_file(m: Map<u32, u8>, build_id: BuildId) -> Seq<u8> {
    "@nsobid-".spec_bytes() + hex_text(build_id as int, 32) + "\n@enabled\n".spec_bytes()
        + all_lines(patches::hunks(m, PCHTXT_MAX_HUNK_SIZE as int))
}

// ---------------------------------------------------------------------------------------------
// Facts about parts

/// The parts lie one behind the other from `start` to `end`, none is empty, and one that is
/// written as a string can be.
pub open spec fn tiles(h: Seq<u8>, ps: Seq<Part>, start: int, end: int) -> bool {
    &&& forall|k: int|
        0 <= k < ps.len() ==> (#[trigger] ps[k]).start < ps[k].end <= h.len() && (ps[k].text
            is Some ==> ps[k].text == text_len(h, ps[k].start as int, ps[k].end as int) && is_text(
            h,
            ps[k].start as int,
            ps[k].end as int,
        ))
    &&& forall|k: int, l: int|
        0 <= k && l == k + 1 && l < ps.len() ==> (#[trigger] ps[k]).end == (#[trigger] ps[l]).start
    &&& ps.len() == 0 ==> start == end
    &&& ps.len() > 0 ==> ps[0].start == start && ps[ps.len() - 1].end == end
}

proof fn lemma_first_plain(h: Seq<u8>, i: int, j: int)
    requires
        0 <= i <= j <= h.len(),
    ensures
        i <= first_plain(h, i, j) <= j,
    decreases j - i,
{
    if i < j && is_control(h[i]) {
        lemma_first_plain(h, i + 1, j);
    }
}

proof fn lemma_escapes(h: Seq<u8>, i: int, j: int)
    requires
        i <= j,
    ensures
        0 <= escapes(h, i, j) <= j - i,
    decreases j - i,
{
    if i < j {
        lemma_escapes(h, i + 1, j);
    }
}

proof fn lemma_tiles_concat(
    h: Seq<u8>,
    a: Seq<Part>,
    b: Seq<Part>,
    start: int,
    mid: int,
    end: int,
)
    requires
        tiles(h, a, start, mid),
        tiles(h, b, mid, end),
    ensures
        tiles(h, a + b, start, end),
{
    let ps = a + b;
    assert forall|k: int| 0 <= k < ps.len() implies (#[trigger] ps[k]).start < ps[k].end <= h.len()
        && (ps[k].text is Some ==> ps[k].text == text_len(h, ps[k].start as int, ps[k].end as int)
        && is_text(h, ps[k].start as int, ps[k].end as int)) by {
        if k < a.len() {
            assert(ps[k] == a[k]);
        } else {
            assert(ps[k] == b[k - a.len()]);
        }
    }
    assert forall|k: int, l: int| 0 <= k && l == k + 1 && l < ps.len() implies (
    #[trigger] ps[k]).end == (#[trigger] ps[l]).start by {
        if l < a.len() {
            assert(ps[k] == a[k] && ps[l] == a[l]);
        } else if k >= a.len() {
            assert(ps[k] == b[k - a.len()] && ps[l] == b[l - a.len()]);
        } else {
            assert(ps[k] == a[a.len() - 1] && ps[l] == b[0]);
        }
    }
}

proof fn lemma_parts_tile(h: Seq<u8>, i: int)
    requires
        0 <= i <= h.len() <= PCHTXT_MAX_HUNK_SIZE,
    ensures
        tiles(h, parts_from(h, i), i, h.len() as int),
    decreases h.len() - i,
{
    if i < h.len() {
        text::lemma_find_byte(h, 0, i, h.len() as int);
        let e = zero_end(h, i);
        lemma_parts_tile(h, e);
        lemma_first_plain(h, i, e);
        let f = first_plain(h, i, e);
        if i < f < e {
            lemma_escapes(h, f, e - 1);
        }
        lemma_escapes(h, i, e - 1);
        let here = parts_of(h, i, e);
        assert(tiles(h, here, i, e));
        lemma_tiles_concat(h, here, parts_from(h, e), i, e, h.len() as int);
    }
}

proof fn lemma_join_step(h: Seq<u8>, ps: Seq<Part>, k: int, start: int, end: int)
    requires
        tiles(h, ps, start, end),
        0 <= k,
        k + 1 < ps.len(),
    ensures
        tiles(
            h,
            ps.update(k, Part { start: ps[k].start, end: ps[k + 1].end, text: None }).remove(k + 1),
            start,
            end,
        ),
{
    let p = Part { start: ps[k].start, end: ps[k + 1].end, text: None };
    let qs = ps.update(k, p).remove(k + 1);
    assert(ps[k].end == ps[k + 1].start);
    assert forall|n: int| 0 <= n < qs.len() implies (#[trigger] qs[n]).start < qs[n].end <= h.len()
        && (qs[n].text is Some ==> qs[n].text == text_len(h, qs[n].start as int, qs[n].end as int)
        && is_text(h, qs[n].start as int, qs[n].end as int)) by {
        if n < k {
            assert(qs[n] == ps[n]);
        } else if n > k {
            assert(qs[n] == ps[n + 1]);
        } else {
            assert(ps[k].start < ps[k].end && ps[k + 1].start < ps[k + 1].end);
        }
    }
    assert forall|n: int, l: int| 0 <= n && l == n + 1 && l < qs.len() implies (
    #[trigger] qs[n]).end == (#[trigger] qs[l]).start by {
        if l < k {
            assert(ps[n].end == ps[l].start);
        } else if l == k {
            assert(ps[n].end == ps[k].start);
        } else if n == k {
            assert(ps[k + 1].end == ps[k + 2].start);
        } else {
            assert(ps[n + 1].end == ps[l + 1].start);
        }
    }
}

proof fn lemma_joined_tile(h: Seq<u8>, ps: Seq<Part>, k: int, start: int, end: int)
    requires
        tiles(h, ps, start, end),
        0 <= k,
    ensures
        tiles(h, joined(ps, k), start, end),
    decreases ps.len() - k,
{
    if k + 1 < ps.len() {
        if shorter_joined(ps[k], ps[k + 1]) {
            lemma_join_step(h, ps, k, start, end);
            lemma_joined_tile(
                h,
                ps.update(k, Part { start: ps[k].start, end: ps[k + 1].end, text: None }).remove(
                    k + 1,
                ),
                k,
                start,
                end,
            );
        } else {
            lemma_joined_tile(h, ps, k + 1, start, end);
        }
    }
}

/// The lines of a hunk hold its bytes without a gap and without an overlap.
pub proof fn law_pchtxt_parts_tile(h: Seq<u8>)
    requires
        h.len() <= PCHTXT_MAX_HUNK_SIZE,
    ensures
        tiles(h, joined(parts_from(h, 0), 0), 0, h.len() as int),
{
    lemma_parts_tile(h, 0);
    lemma_joined_tile(h, parts_from(h, 0), 0, 0, h.len() as int);
}

// ---------------------------------------------------------------------------------------------
// Writing

/// `str::from_utf8`: the text with just these bytes when they are valid UTF-8, nothing otherwise.
#[verifier::external_body]
pub(crate) fn utf8_text(bytes: &[u8]) -> (r: Option<&str>)
    ensures
        r is Some <==> valid_utf8(bytes@),
        r matches Some(s) ==> s.spec_bytes() == bytes@,
{
    match std::str::from_utf8(bytes) {
        Ok(s) => Some(s),
        Err(_) => None,
    }
}

pub(crate) fn push_hex(out: &mut Vec<u8>, n: u128, digits: usize)
    ensures
        final(out)@ == old(out)@ + hex_text(n as int, digits as nat),
    decreases digits,
{
    if digits > 0 {
        push_hex(out, n / 16, digits - 1);
        let d: u8 = (n % 16) as u8;
        out.push(if d < 10 { 0x30 + d } else { 0x41 + (d - 10) });
    }
    assert(out@ =~= old(out)@ + hex_text(n as int, digits as nat));
}

fn push_str(out: &mut Vec<u8>, s: &str)
    ensures
        final(out)@ == old(out)@ + s.spec_bytes(),
{
    out.extend_from_slice(s.as_bytes());
    assert(out@ =~= old(out)@ + s.spec_bytes());
}

pub(crate) fn escape_for(x: u8) -> (r: Option<u8>)
    ensures
        r == escape_letter(x),
{
    match x {
        0x07 => Some(0x61),
        0x08 => Some(0x62),
        0x0c => Some(0x66),
        0x0a => Some(0x6e),
        0x0d => Some(0x72),
        0x09 => Some(0x74),
        0x0b => Some(0x76),
        0x5c => Some(0x5c),
        0x22 => Some(0x22),
        _ => None,
    }
}

/// The length of the bytes `i..j` as a quoted string, where they can be one.
fn hunk_len_as_string(h: &[u8], i: usize, j: usize) -> (r: Option<usize>)
    requires
        i < j <= h@.len() <= PCHTXT_MAX_HUNK_SIZE,
    ensures
        r == text_len(h@, i as int, j as int),
{
    if h[j - 1] != 0 {
        return None;
    }
    let mut len: usize = 2;
    let mut k: usize = i;
    while k < j - 1
        invariant
            i <= k <= j - 1,
            j <= h@.len() <= PCHTXT_MAX_HUNK_SIZE,
            forall|n: int| i <= n < k ==> is_writable(#[trigger] h@[n]),
            len <= 2 + 2 * (k - i),
            len + (j - 1 - k) + escapes(h@, k as int, j - 1) == 2 + (j - 1 - i) + escapes(
                h@,
                i as int,
                j - 1,
            ),
        decreases j - k,
    {
        let x: u8 = h[k];
        match escape_for(x) {
            Some(_) => {
                len += 2;
            },
            None => {
                if x <= 0x1f || x == 0x7f {
                    assert(!is_writable(h@[k as int]));
                    return None;
                }
                len += 1;
            },
        }
        k += 1;
    }
    match utf8_text(vstd::slice::slice_subrange(h, i, j)) {
        Some(_) => Some(len),
        None => None,
    }
}

/// The parts of a hunk.
fn split_parts(h: &[u8]) -> (r: Vec<Part>)
    requires
        h@.len() <= PCHTXT_MAX_HUNK_SIZE,
    ensures
        r@ == parts_from(h@, 0),
{
    let mut parts: Vec<Part> = Vec::new();
    let mut i: usize = 0;
    assert(parts@ + parts_from(h@, 0) =~= parts_from(h@, 0));
    while i < h.len()
        invariant
            i <= h@.len() <= PCHTXT_MAX_HUNK_SIZE,
            parts@ + parts_from(h@, i as int) == parts_from(h@, 0),
        decreases h@.len() - i,
    {
        let ghost before = parts@;
        let f = text::byte_position(h, 0, i, h.len());
        let e: usize = if f < h.len() { f + 1 } else { h.len() };
        let len_as_str = hunk_len_as_string(h, i, e);
        let mut p: usize = i;
        while p < e && (h[p] <= 0x1f || h[p] == 0x7f)
            invariant
                i <= p <= e <= h@.len(),
                first_plain(h@, i as int, e as int) == first_plain(h@, p as int, e as int),
            decreases e - p,
        {
            p += 1;
        }
        if len_as_str.is_none() && h[e - 1] == 0 && i < p && p < e {
            let right_len = hunk_len_as_string(h, p, e);
            if right_len.is_some() {
                parts.push(Part { start: i, end: p, text: None });
                parts.push(Part { start: p, end: e, text: right_len });
            } else {
                parts.push(Part { start: i, end: e, text: len_as_str });
            }
        } else {
            parts.push(Part { start: i, end: e, text: len_as_str });
        }
        proof {
            assert(parts@ =~= before + parts_of(h@, i as int, e as int));
            assert(parts@ + parts_from(h@, e as int) =~= before + parts_from(h@, i as int));
        }
        i = e;
    }
    assert(parts@ + parts_from(h@, i as int) =~= parts@);
    parts
}

fn size_of_part(p: Part) -> (r: usize)
    requires
        p.start <= p.end <= PCHTXT_MAX_HUNK_SIZE,
    ensures
        r == part_size(p),
{
    match p.text {
        Some(n) => n,
        None => 2 * (p.end - p.start),
    }
}

/// Joins neighbouring parts wherever that makes the output shorter.
fn join_parts(h: &[u8], parts: &mut Vec<Part>)
    requires
        h@.len() <= PCHTXT_MAX_HUNK_SIZE,
        tiles(h@, old(parts)@, 0, h@.len() as int),
    ensures
        final(parts)@ == joined(old(parts)@, 0),
        tiles(h@, final(parts)@, 0, h@.len() as int),
{
    let mut k: usize = 0;
    while parts.len() - k > 1
        invariant
            h@.len() <= PCHTXT_MAX_HUNK_SIZE,
            tiles(h@, parts@, 0, h@.len() as int),
            joined(old(parts)@, 0) == joined(parts@, k as int),
            k <= parts@.len(),
        decreases parts@.len() - k,
    {
        let a = parts[k];
        let b = parts[k + 1];
        proof {
            assert(parts@[k as int].end == parts@[k + 1].start);
            assert(parts@[k as int].start < parts@[k as int].end <= h@.len());
            assert(parts@[k + 1].start < parts@[k + 1].end <= h@.len());
            lemma_escapes(h@, a.start as int, a.end - 1);
            lemma_escapes(h@, b.start as int, b.end - 1);
        }
        let alone: usize = size_of_part(a) + 10 + size_of_part(b);
        let together: usize = 2 * (a.end - a.start) + 2 * (b.end - b.start);
        if together < alone {
            proof {
                lemma_join_step(h@, parts@, k as int, 0, h@.len() as int);
            }
            parts[k] = Part { start: a.start, end: b.end, text: None };
            parts.remove(k + 1);
        } else {
            k += 1;
        }
    }
}

pub(crate) fn push_escaped(out: &mut Vec<u8>, h: &[u8], i: usize, j: usize)
    requires
        i <= j <= h@.len(),
    ensures
        final(out)@ == old(out)@ + escaped(h@, i as int, j as int),
{
    let mut k: usize = i;
    while k < j
        invariant
            i <= k <= j <= h@.len(),
            out@ + escaped(h@, k as int, j as int) == old(out)@ + escaped(h@, i as int, j as int),
        decreases j - k,
    {
        let ghost before = out@;
        match escape_for(h[k]) {
            Some(letter) => {
                out.push(0x5c);
                out.push(letter);
            },
            None => {
                out.push(h[k]);
            },
        }
        k += 1;
        assert(out@ + escaped(h@, k as int, j as int) =~= before + escaped(h@, k - 1, j as int));
    }
    assert(out@ + escaped(h@, k as int, j as int) =~= out@);
}

pub(crate) fn push_hex_bytes(out: &mut Vec<u8>, h: &[u8], i: usize, j: usize)
    requires
        i <= j <= h@.len(),
    ensures
        final(out)@ == old(out)@ + hex_bytes(h@, i as int, j as int),
{
    let mut k: usize = i;
    while k < j
        invariant
            i <= k <= j <= h@.len(),
            out@ + hex_bytes(h@, k as int, j as int) == old(out)@ + hex_bytes(
                h@,
                i as int,
                j as int,
            ),
        decreases j - k,
    {
        let ghost before = out@;
        push_hex(out, h[k] as u128, 2);
        k += 1;
        assert(out@ + hex_bytes(h@, k as int, j as int) =~= before + hex_bytes(
            h@,
            k - 1,
            j as int,
        ));
    }
    assert(out@ + hex_bytes(h@, k as int, j as int) =~= out@);
}

fn push_part(out: &mut Vec<u8>, base: u32, h: &[u8], p: Part)
    requires
        p.start < p.end <= h@.len() <= PCHTXT_MAX_HUNK_SIZE,
        base + h@.len() <= patches::TOP + 1,
    ensures
        final(out)@ == old(out)@ + part_line(base, h@, p),
{
    push_hex(out, base as u128 + p.start as u128, 8);
    out.push(0x20);
    if p.text.is_some() {
        out.push(0x22);
        push_escaped(out, h, p.start, p.end - 1);
        out.push(0x22);
    } else {
        push_hex_bytes(out, h, p.start, p.end);
    }
    out.push(0x0a);
    assert(out@ =~= old(out)@ + part_line(base, h@, p));
}

fn push_hunk(out: &mut Vec<u8>, base: u32, h: &[u8])
    requires
        h@.len() <= PCHTXT_MAX_HUNK_SIZE,
        base + h@.len() <= patches::TOP + 1,
    ensures
        final(out)@ == old(out)@ + hunk_lines(base, h@),
{
    let mut parts = split_parts(h);
    proof {
        lemma_parts_tile(h@, 0);
    }
    join_parts(h, &mut parts);
    let mut k: usize = 0;
    while k < parts.len()
        invariant
            h@.len() <= PCHTXT_MAX_HUNK_SIZE,
            base + h@.len() <= patches::TOP + 1,
            tiles(h@, parts@, 0, h@.len() as int),
            k <= parts@.len(),
            parts@ == joined(parts_from(h@, 0), 0),
            out@ + part_lines(base, h@, parts@, k as int) == old(out)@ + hunk_lines(base, h@),
        decreases parts@.len() - k,
    {
        let ghost before = out@;
        let p = parts[k];
        assert(parts@[k as int].start < parts@[k as int].end);
        push_part(out, base, h, p);
        k += 1;
        assert(out@ + part_lines(base, h@, parts@, k as int) =~= before + part_lines(
            base,
            h@,
            parts@,
            k - 1,
        ));
    }
    assert(out@ + part_lines(base, h@, parts@, k as int) =~= out@);
}

/// The patch text file for a patch of the build `build_id`.
pub fn generate_pchtxt(vec: &PatchVec, build_id: BuildId) -> (r: Vec<u8>)
    ensures
        r@ == pchtxt_file(vec@, build_id),
{
    let mut out: Vec<u8> = Vec::new();
    push_str(&mut out, "@nsobid-");
    push_hex(&mut out, build_id, 32);
    push_str(&mut out, "\n@enabled\n");
    let ghost max = PCHTXT_MAX_HUNK_SIZE as int;
    let ghost hs = patches::hunks(vec@, max);
    let ghost start = "@nsobid-".spec_bytes() + hex_text(build_id as int, 32)
        + "\n@enabled\n".spec_bytes();
    let ghost mut done: Seq<(u32, Seq<u8>)> = Seq::empty();
    let mut hunks = vec.iter_hunks(PCHTXT_MAX_HUNK_SIZE);
    proof {
        patches::law_hunks_rebuild(vec@, max);
        assert(done + patches::hunks_of(hunks@, max) =~= hs);
        assert(out@ =~= start + all_lines(done));
    }
    loop
        invariant
            hunks.wf(),
            hunks.max() == max,
            max == PCHTXT_MAX_HUNK_SIZE,
            hs == patches::hunks(vec@, max),
            patches::hunks_sound(hs, max),
            hs == done + patches::hunks_of(hunks@, max),
            start == "@nsobid-".spec_bytes() + hex_text(build_id as int, 32)
                + "\n@enabled\n".spec_bytes(),
            out@ == start + all_lines(done),
        decreases hunks@.len(),
    {
        let ghost left = hunks@;
        match hunks.next() {
            None => {
                assert(hs =~= done);
                return out;
            },
            Some((addr, hunk)) => {
                let ghost h = (addr, hunk@);
                let ghost rest = patches::hunks_of(hunks@, max);
                proof {
                    assert(patches::hunks_of(left, max) == seq![h] + rest);
                    assert(hs =~= done.push(h) + rest);
                    assert(hs[done.len() as int] == h);
                    assert(done.push(h).drop_last() =~= done);
                }
                push_hunk(&mut out, addr, hunk.as_slice());
                proof {
                    assert(out@ =~= start + all_lines(done.push(h)));
                    done = done.push(h);
                }
            },
        }
    }
}

} // verus!
