//! Text handled as UTF-8 bytes.
//!
//! Every scanner of this crate walks the bytes of a string and cuts pieces out of it by byte
//! offsets. This module holds the scanning primitives and the facts about character boundaries
//! that make the cuts legal.

use vstd::prelude::*;
use vstd::string::*;
use vstd::utf8::*;

verus! {

/// The UTF-8 bytes of an owned string.
pub open spec fn bytes_of(s: String) -> Seq<u8> {
    encode_utf8(s@)
}

/// `pat` stands in `b` at offset `i`.
pub open spec fn has_at(b: Seq<u8>, i: int, pat: Seq<u8>) -> bool {
    &&& 0 <= i
    &&& i + pat.len() <= b.len()
    &&& b.subrange(i, i + pat.len()) == pat
}

/// An ASCII letter or `_`.
pub open spec fn is_name_start(x: u8) -> bool {
    x == 0x5f || 0x41 <= x <= 0x5a || 0x61 <= x <= 0x7a
}

/// An ASCII decimal digit.
pub open spec fn is_digit(x: u8) -> bool {
    0x30 <= x <= 0x39
}

/// An ASCII letter, an ASCII digit or `_`.
pub open spec fn is_name_byte(x: u8) -> bool {
    is_name_start(x) || is_digit(x)
}

/// A space or a tab.
pub open spec fn is_blank(x: u8) -> bool {
    x == 0x20 || x == 0x09
}

/// The three bytes encode a character with the Unicode property `White_Space`.
pub open spec fn is_wide_space(x: u8, y: u8, z: u8) -> bool {
    ||| x == 0xe1 && y == 0x9a && z == 0x80
    ||| x == 0xe2 && y == 0x80 && (0x80 <= z <= 0x8a || z == 0xa8 || z == 0xa9 || z == 0xaf)
    ||| x == 0xe2 && y == 0x81 && z == 0x9f
    ||| x == 0xe3 && y == 0x80 && z == 0x80
}

/// The number of bytes of the white space character that stands at offset `i` and ends no later
/// than `end`; 0 when there is none.
pub open spec fn space_width(b: Seq<u8>, i: int, end: int) -> int {
    if !(0 <= i && i < end && end <= b.len()) {
        0
    } else if 0x09 <= b[i] <= 0x0d || b[i] == 0x20 {
        1
    } else if i + 1 < end && b[i] == 0xc2 && (b[i + 1] == 0x85 || b[i + 1] == 0xa0) {
        2
    } else if i + 2 < end && is_wide_space(b[i], b[i + 1], b[i + 2]) {
        3
    } else {
        0
    }
}

/// The number of bytes of the white space character that ends at offset `end` and starts no
/// earlier than `start`; 0 when there is none.
pub open spec fn space_width_before(b: Seq<u8>, start: int, end: int) -> int {
    if !(0 <= start && start < end && end <= b.len()) {
        0
    } else if 0x09 <= b[end - 1] <= 0x0d || b[end - 1] == 0x20 {
        1
    } else if start + 2 <= end && b[end - 2] == 0xc2 && (b[end - 1] == 0x85 || b[end - 1] == 0xa0) {
        2
    } else if start + 3 <= end && is_wide_space(b[end - 3], b[end - 2], b[end - 1]) {
        3
    } else {
        0
    }
}

/// The first offset from `i` on at which no white space character stands.
pub open spec fn skip_space(b: Seq<u8>, i: int, end: int) -> int
    decreases end - i,
{
    let w = space_width(b, i, end);
    if w > 0 {
        skip_space(b, i + w, end)
    } else {
        i
    }
}

/// The last offset down from `end` at which no white space character ends.
pub open spec fn drop_space(b: Seq<u8>, start: int, end: int) -> int
    decreases end - start,
{
    let w = space_width_before(b, start, end);
    if w > 0 {
        drop_space(b, start, end - w)
    } else {
        end
    }
}

/// The range of `start..end` without the white space at its two ends. Where there is nothing but
/// white space, the range is the empty one at `start`.
pub open spec fn trimmed(b: Seq<u8>, start: int, end: int) -> (int, int) {
    let s = skip_space(b, start, end);
    if s >= end {
        (start, start)
    } else {
        (s, drop_space(b, s, end))
    }
}

/// The offset of the first `x` in `i..end`, or `end`.
pub open spec fn find_byte(b: Seq<u8>, x: u8, i: int, end: int) -> int
    decreases end - i,
{
    if i >= end {
        end
    } else if b[i] == x {
        i
    } else {
        find_byte(b, x, i + 1, end)
    }
}

/// The end of the run of name bytes that starts at `i`.
pub open spec fn skip_name(b: Seq<u8>, i: int, end: int) -> int
    decreases end - i,
{
    if i < end && is_name_byte(b[i]) {
        skip_name(b, i + 1, end)
    } else {
        i
    }
}

/// The end of the run of spaces and tabs that starts at `i`.
pub open spec fn skip_blank(b: Seq<u8>, i: int, end: int) -> int
    decreases end - i,
{
    if i < end && is_blank(b[i]) {
        skip_blank(b, i + 1, end)
    } else {
        i
    }
}

/// The offset behind the character that starts at `i`.
pub open spec fn char_end(b: Seq<u8>, i: int) -> int {
    let width = if b[i] <= 0x7f {
        1int
    } else if b[i] <= 0xdf {
        2
    } else if b[i] <= 0xef {
        3
    } else {
        4
    };
    if i + width <= b.len() {
        i + width
    } else {
        b.len() as int
    }
}

// ---------------------------------------------------------------------------------------------
// Character boundaries

/// `i` is the start of a character of the valid text `b`, or its end.
pub open spec fn cut_point(b: Seq<u8>, i: int) -> bool {
    valid_utf8(b) && 0 <= i <= b.len() && is_char_boundary(b, i)
}

/// The bytes of a string are valid UTF-8.
pub proof fn lemma_str_valid(s: Seq<char>)
    ensures
        valid_utf8(encode_utf8(s)),
        cut_point(encode_utf8(s), 0),
        cut_point(encode_utf8(s), encode_utf8(s).len() as int),
{
    encode_utf8_valid_utf8(s);
    is_char_boundary_start_end_of_seq(encode_utf8(s));
}

/// From a boundary, the width of the character there leads to the next boundary.
pub proof fn lemma_next_boundary(b: Seq<u8>, i: int)
    requires
        cut_point(b, i),
        i < b.len(),
    ensures
        b[i] <= 0x7f ==> cut_point(b, i + 1),
        0xc0 <= b[i] <= 0xdf ==> cut_point(b, i + 2),
        0xe0 <= b[i] <= 0xef ==> cut_point(b, i + 3),
    decreases b.len(),
{
    let w = length_of_first_scalar(b);
    let rest = pop_first_scalar(b);
    if i == 0 {
        reveal_with_fuel(is_char_boundary, 3);
    } else {
        is_char_boundary_iff_not_is_continuation_byte(b, i);
        reveal_with_fuel(is_char_boundary, 2);
        if i < w {
            assert(is_continuation_byte(b[i]));
        }
        assert(rest.len() == b.len() - w);
        assert(rest[i - w] == b[i]);
        lemma_next_boundary(rest, i - w);
    }
}

/// A byte below 0x80 is a character of its own.
pub proof fn lemma_ascii_boundary(b: Seq<u8>, i: int)
    requires
        valid_utf8(b),
        0 <= i < b.len(),
        b[i] <= 0x7f,
    ensures
        cut_point(b, i),
        cut_point(b, i + 1),
{
    is_char_boundary_iff_not_is_continuation_byte(b, i);
    lemma_next_boundary(b, i);
}

/// A byte that is no continuation byte starts a character.
pub proof fn lemma_lead_boundary(b: Seq<u8>, i: int)
    requires
        valid_utf8(b),
        0 <= i < b.len(),
        !(0x80 <= b[i] <= 0xbf),
    ensures
        cut_point(b, i),
{
    is_char_boundary_iff_not_is_continuation_byte(b, i);
}

/// A range between two boundaries of a text is a text, with the boundaries of the whole.
pub proof fn lemma_sub_text(b: Seq<u8>, i: int, j: int)
    requires
        cut_point(b, i),
        cut_point(b, j),
        i <= j,
    ensures
        valid_utf8(b.subrange(i, j)),
        forall|k: int|
            i <= k <= j ==> (cut_point(b, k) <==> #[trigger] cut_point(b.subrange(i, j), k - i)),
{
    let s = b.subrange(i, j);
    valid_utf8_split(b, j);
    let left = b.subrange(0, j);
    if i < j {
        is_char_boundary_iff_not_is_continuation_byte(b, i);
        is_char_boundary_iff_not_is_continuation_byte(left, i);
    } else {
        is_char_boundary_start_end_of_seq(left);
    }
    valid_utf8_split(left, i);
    assert(left.subrange(i, left.len() as int) =~= s);
    is_char_boundary_start_end_of_seq(s);
    assert forall|k: int| i <= k <= j implies (cut_point(b, k) <==> #[trigger] cut_point(s, k - i)) by {
        if k < j {
            is_char_boundary_iff_not_is_continuation_byte(b, k);
            is_char_boundary_iff_not_is_continuation_byte(s, k - i);
        }
    }
}

pub proof fn lemma_skip_space(b: Seq<u8>, i: int, end: int)
    requires
        0 <= i <= end <= b.len(),
    ensures
        i <= skip_space(b, i, end) <= end,
        space_width(b, skip_space(b, i, end), end) == 0,
        cut_point(b, i) ==> cut_point(b, skip_space(b, i, end)),
        skip_space(b, skip_space(b, i, end), end) == skip_space(b, i, end),
    decreases end - i,
{
    let w = space_width(b, i, end);
    if w > 0 {
        if cut_point(b, i) {
            lemma_next_boundary(b, i);
        }
        lemma_skip_space(b, i + w, end);
    }
}

pub proof fn lemma_drop_space(b: Seq<u8>, start: int, end: int)
    requires
        0 <= start <= end <= b.len(),
    ensures
        start <= drop_space(b, start, end) <= end,
        space_width_before(b, start, drop_space(b, start, end)) == 0,
        cut_point(b, end) ==> cut_point(b, drop_space(b, start, end)),
    decreases end - start,
{
    let w = space_width_before(b, start, end);
    if w > 0 {
        if cut_point(b, end) {
            lemma_lead_boundary(b, end - w);
        }
        lemma_drop_space(b, start, end - w);
    }
}

pub proof fn lemma_trimmed(b: Seq<u8>, start: int, end: int)
    requires
        0 <= start <= end <= b.len(),
    ensures
        start <= trimmed(b, start, end).0 <= trimmed(b, start, end).1 <= end,
        cut_point(b, start) && cut_point(b, end) ==> {
            &&& cut_point(b, trimmed(b, start, end).0)
            &&& cut_point(b, trimmed(b, start, end).1)
        },
{
    lemma_skip_space(b, start, end);
    let s = skip_space(b, start, end);
    lemma_drop_space(b, s, end);
}

pub proof fn lemma_find_byte(b: Seq<u8>, x: u8, i: int, end: int)
    requires
        0 <= i <= end <= b.len(),
    ensures
        i <= find_byte(b, x, i, end) <= end,
        find_byte(b, x, i, end) < end ==> b[find_byte(b, x, i, end)] == x,
        forall|k: int| i <= k < find_byte(b, x, i, end) ==> b[k] != x,
    decreases end - i,
{
    if i < end && b[i] != x {
        lemma_find_byte(b, x, i + 1, end);
    }
}

pub proof fn lemma_skip_name(b: Seq<u8>, i: int, end: int)
    requires
        0 <= i <= end <= b.len(),
    ensures
        i <= skip_name(b, i, end) <= end,
        skip_name(b, i, end) < end ==> !is_name_byte(b[skip_name(b, i, end)]),
        forall|k: int| i <= k < skip_name(b, i, end) ==> is_name_byte(b[k]),
        cut_point(b, i) ==> cut_point(b, skip_name(b, i, end)),
    decreases end - i,
{
    if i < end && is_name_byte(b[i]) {
        if cut_point(b, i) {
            lemma_next_boundary(b, i);
        }
        lemma_skip_name(b, i + 1, end);
    }
}

pub proof fn lemma_skip_blank(b: Seq<u8>, i: int, end: int)
    requires
        0 <= i <= end <= b.len(),
    ensures
        i <= skip_blank(b, i, end) <= end,
        skip_blank(b, i, end) < end ==> !is_blank(b[skip_blank(b, i, end)]),
        forall|k: int| i <= k < skip_blank(b, i, end) ==> is_blank(b[k]),
        cut_point(b, i) ==> cut_point(b, skip_blank(b, i, end)),
    decreases end - i,
{
    if i < end && is_blank(b[i]) {
        if cut_point(b, i) {
            lemma_next_boundary(b, i);
        }
        lemma_skip_blank(b, i + 1, end);
    }
}

// ---------------------------------------------------------------------------------------------
// Scanners

pub(crate) fn bytes_at(b: &[u8], i: usize, pat: &[u8]) -> (r: bool)
    requires
        i <= b@.len(),
    ensures
        r == has_at(b@, i as int, pat@),
{
    if b.len() - i < pat.len() {
        return false;
    }
    let mut k: usize = 0;
    while k < pat.len()
        invariant
            k <= pat@.len(),
            i + pat@.len() <= b@.len() <= usize::MAX,
            forall|m: int| 0 <= m < k ==> b@[i + m] == pat@[m],
        decreases pat@.len() - k,
    {
        if b[i + k] != pat[k] {
            assert(b@.subrange(i as int, i + pat@.len())[k as int] != pat@[k as int]);
            return false;
        }
        k += 1;
    }
    assert(b@.subrange(i as int, i + pat@.len()) =~= pat@);
    true
}

/// The two byte strings are equal.
pub(crate) fn bytes_eq(a: &[u8], b: &[u8]) -> (r: bool)
    ensures
        r == (a@ == b@),
{
    if a.len() != b.len() {
        return false;
    }
    let r = bytes_at(a, 0, b);
    assert(a@.subrange(0, a@.len() as int) =~= a@);
    r
}

pub(crate) fn space_width_at(b: &[u8], i: usize, end: usize) -> (w: usize)
    requires
        i <= end <= b@.len(),
    ensures
        w == space_width(b@, i as int, end as int),
{
    if i >= end {
        return 0;
    }
    let x: u8 = b[i];
    if (0x09 <= x && x <= 0x0d) || x == 0x20 {
        return 1;
    }
    if end - i > 1 && x == 0xc2 && (b[i + 1] == 0x85 || b[i + 1] == 0xa0) {
        return 2;
    }
    if end - i > 2 && wide_space(x, b[i + 1], b[i + 2]) {
        return 3;
    }
    0
}

fn wide_space(x: u8, y: u8, z: u8) -> (r: bool)
    ensures
        r == is_wide_space(x, y, z),
{
    (x == 0xe1 && y == 0x9a && z == 0x80) || (x == 0xe2 && y == 0x80 && ((0x80 <= z && z <= 0x8a)
        || z == 0xa8 || z == 0xa9 || z == 0xaf)) || (x == 0xe2 && y == 0x81 && z == 0x9f) || (x
        == 0xe3 && y == 0x80 && z == 0x80)
}

fn space_width_to(b: &[u8], start: usize, end: usize) -> (w: usize)
    requires
        start <= end <= b@.len(),
    ensures
        w == space_width_before(b@, start as int, end as int),
{
    if start >= end {
        return 0;
    }
    let z: u8 = b[end - 1];
    if (0x09 <= z && z <= 0x0d) || z == 0x20 {
        return 1;
    }
    if end - start >= 2 && b[end - 2] == 0xc2 && (z == 0x85 || z == 0xa0) {
        return 2;
    }
    if end - start >= 3 && wide_space(b[end - 3], b[end - 2], z) {
        return 3;
    }
    0
}

pub(crate) fn space_end(b: &[u8], i: usize, end: usize) -> (r: usize)
    requires
        i <= end <= b@.len(),
    ensures
        r == skip_space(b@, i as int, end as int),
        i <= r <= end,
{
    let mut k: usize = i;
    let mut w: usize = space_width_at(b, k, end);
    while w > 0
        invariant
            i <= k <= end <= b@.len(),
            w == space_width(b@, k as int, end as int),
            skip_space(b@, i as int, end as int) == skip_space(b@, k as int, end as int),
        decreases end - k,
    {
        k = k + w;
        w = space_width_at(b, k, end);
    }
    k
}

pub(crate) fn space_start(b: &[u8], start: usize, end: usize) -> (r: usize)
    requires
        start <= end <= b@.len(),
    ensures
        r == drop_space(b@, start as int, end as int),
        start <= r <= end,
{
    let mut k: usize = end;
    let mut w: usize = space_width_to(b, start, k);
    while w > 0
        invariant
            start <= k <= end <= b@.len(),
            w == space_width_before(b@, start as int, k as int),
            drop_space(b@, start as int, end as int) == drop_space(b@, start as int, k as int),
        decreases k,
    {
        k = k - w;
        w = space_width_to(b, start, k);
    }
    k
}

pub(crate) fn trim(b: &[u8], start: usize, end: usize) -> (r: (usize, usize))
    requires
        start <= end <= b@.len(),
    ensures
        (r.0 as int, r.1 as int) == trimmed(b@, start as int, end as int),
        start <= r.0 <= r.1 <= end,
{
    let s = space_end(b, start, end);
    if s >= end {
        (start, start)
    } else {
        (s, space_start(b, s, end))
    }
}

pub(crate) fn byte_position(b: &[u8], x: u8, i: usize, end: usize) -> (r: usize)
    requires
        i <= end <= b@.len(),
    ensures
        r == find_byte(b@, x, i as int, end as int),
        i <= r <= end,
{
    let mut k: usize = i;
    while k < end && b[k] != x
        invariant
            i <= k <= end <= b@.len(),
            find_byte(b@, x, i as int, end as int) == find_byte(b@, x, k as int, end as int),
        decreases end - k,
    {
        k += 1;
    }
    k
}

pub(crate) fn name_start(x: u8) -> (r: bool)
    ensures
        r == is_name_start(x),
{
    x == 0x5f || (0x41 <= x && x <= 0x5a) || (0x61 <= x && x <= 0x7a)
}

pub(crate) fn name_byte(x: u8) -> (r: bool)
    ensures
        r == is_name_byte(x),
{
    name_start(x) || (0x30 <= x && x <= 0x39)
}

pub(crate) fn name_end(b: &[u8], i: usize, end: usize) -> (r: usize)
    requires
        i <= end <= b@.len(),
    ensures
        r == skip_name(b@, i as int, end as int),
        i <= r <= end,
{
    let mut k: usize = i;
    while k < end && name_byte(b[k])
        invariant
            i <= k <= end <= b@.len(),
            skip_name(b@, i as int, end as int) == skip_name(b@, k as int, end as int),
        decreases end - k,
    {
        k += 1;
    }
    k
}

pub(crate) fn blank_end(b: &[u8], i: usize, end: usize) -> (r: usize)
    requires
        i <= end <= b@.len(),
    ensures
        r == skip_blank(b@, i as int, end as int),
        i <= r <= end,
{
    let mut k: usize = i;
    while k < end && (b[k] == 0x20 || b[k] == 0x09)
        invariant
            i <= k <= end <= b@.len(),
            skip_blank(b@, i as int, end as int) == skip_blank(b@, k as int, end as int),
        decreases end - k,
    {
        k += 1;
    }
    k
}

pub(crate) fn after_char(b: &[u8], i: usize) -> (r: usize)
    requires
        i < b@.len(),
    ensures
        r == char_end(b@, i as int),
        i < r <= b@.len(),
{
    let x: u8 = b[i];
    let width: usize = if x <= 0x7f {
        1
    } else if x <= 0xdf {
        2
    } else if x <= 0xef {
        3
    } else {
        4
    };
    if width <= b.len() - i {
        i + width
    } else {
        b.len()
    }
}

/// Cuts the bytes `i..j` out of a string.
pub(crate) fn slice(s: &str, i: usize, j: usize) -> (r: &str)
    requires
        i <= j,
        cut_point(s.spec_bytes(), i as int),
        cut_point(s.spec_bytes(), j as int),
    ensures
        r.spec_bytes() == s.spec_bytes().subrange(i as int, j as int),
{
    proof {
        lemma_sub_text(s.spec_bytes(), 0, j as int);
        assert(cut_point(s.spec_bytes().subrange(0, j as int), i - 0));
        assert(s.spec_bytes().subrange(0, j as int).subrange(i as int, j as int)
            =~= s.spec_bytes().subrange(i as int, j as int));
    }
    let (left, _) = s.split_at(j);
    let (_, r) = left.split_at(i);
    r
}

/// Owns the bytes `i..j` of a string.
pub(crate) fn cut(s: &str, i: usize, j: usize) -> (r: String)
    requires
        i <= j,
        cut_point(s.spec_bytes(), i as int),
        cut_point(s.spec_bytes(), j as int),
    ensures
        bytes_of(r) == s.spec_bytes().subrange(i as int, j as int),
{
    slice(s, i, j).to_owned()
}

/// The bytes of two texts one behind the other are the bytes of the joined text.
pub proof fn lemma_encode_concat(a: Seq<char>, b: Seq<char>)
    ensures
        encode_utf8(a + b) == encode_utf8(a) + encode_utf8(b),
    decreases a.len(),
{
    if a.len() == 0 {
        assert(a + b =~= b);
        assert(encode_utf8(a) + encode_utf8(b) =~= encode_utf8(b));
    } else {
        assert((a + b).drop_first() =~= a.drop_first() + b);
        lemma_encode_concat(a.drop_first(), b);
        assert(encode_utf8(a + b) =~= encode_utf8(a) + encode_utf8(b));
    }
}

/// Appends a text to a string.
pub(crate) fn append(s: &mut String, t: &str)
    ensures
        bytes_of(*final(s)) == bytes_of(*old(s)) + t.spec_bytes(),
{
    proof {
        lemma_encode_concat(old(s)@, t@);
    }
    s.append(t);
}

/// The bytes of a string and those of its view as a slice are the same.
pub(crate) fn own(s: &str) -> (r: String)
    ensures
        bytes_of(r) == s.spec_bytes(),
{
    s.to_owned()
}

/// A digit, in bases up to 16.
pub open spec fn digit_text(d: int) -> Seq<u8> {
    if d == 0 {
        "0".spec_bytes()
    } else if d == 1 {
        "1".spec_bytes()
    } else if d == 2 {
        "2".spec_bytes()
    } else if d == 3 {
        "3".spec_bytes()
    } else if d == 4 {
        "4".spec_bytes()
    } else if d == 5 {
        "5".spec_bytes()
    } else if d == 6 {
        "6".spec_bytes()
    } else if d == 7 {
        "7".spec_bytes()
    } else if d == 8 {
        "8".spec_bytes()
    } else if d == 9 {
        "9".spec_bytes()
    } else if d == 10 {
        "A".spec_bytes()
    } else if d == 11 {
        "B".spec_bytes()
    } else if d == 12 {
        "C".spec_bytes()
    } else if d == 13 {
        "D".spec_bytes()
    } else if d == 14 {
        "E".spec_bytes()
    } else {
        "F".spec_bytes()
    }
}

/// Appends a digit to a string.
pub(crate) fn append_digit(s: &mut String, d: u8)
    requires
        d < 16,
    ensures
        bytes_of(*final(s)) == bytes_of(*old(s)) + digit_text(d as int),
{
    let digit = if d == 0 {
        "0"
    } else if d == 1 {
        "1"
    } else if d == 2 {
        "2"
    } else if d == 3 {
        "3"
    } else if d == 4 {
        "4"
    } else if d == 5 {
        "5"
    } else if d == 6 {
        "6"
    } else if d == 7 {
        "7"
    } else if d == 8 {
        "8"
    } else if d == 9 {
        "9"
    } else if d == 10 {
        "A"
    } else if d == 11 {
        "B"
    } else if d == 12 {
        "C"
    } else if d == 13 {
        "D"
    } else if d == 14 {
        "E"
    } else {
        "F"
    };
    append(s, digit);
}

} // verus!
