//! The lines of a patch text file, taken together.

use crate::pchtxt;
use crate::pchtxt::{ItemModel, PatchesModel};
use crate::preprocessor::token;
use crate::text;
use vstd::prelude::*;
use vstd::string::*;

verus! {

// ---------------------------------------------------------------------------------------------
// The whole walk

/// How many line feeds stand from `i` on.
pub open spec fn feeds(b: Seq<u8>, i: int) -> nat
    decreases b.len() - i,
{
    if i < 0 || i >= b.len() {
        0
    } else {
        (if b[i] == 0x0a {
            1nat
        } else {
            0
        }) + feeds(b, i + 1)
    }
}

/// How many lines the text from `i` on has: each ends with a line feed, but for a last one that
/// the text itself ends.
pub open spec fn line_count(b: Seq<u8>, i: int) -> nat {
    feeds(b, i) + (if 0 <= i < b.len() && b.last() != 0x0a {
        1nat
    } else {
        0
    })
}

/// Where the line behind the line `k` of the walk starts.
pub open spec fn next_start(b: Seq<u8>, items: Seq<ItemModel>, k: int) -> int {
    if k + 1 < items.len() {
        items[k + 1].start
    } else {
        b.len() as int
    }
}

/// The line `k` of the walk holds no line feed, and a line feed, maybe behind a carriage return,
/// or the end of the text stands between it and the next one. What is left of it is its end.
pub open spec fn is_line(b: Seq<u8>, items: Seq<ItemModel>, k: int) -> bool {
    let (s, e) = (items[k].start, items[k].end);
    let next = next_start(b, items, k);
    let rest = items[k].line.rest;
    &&& 0 <= s <= e <= next <= b.len()
    &&& s < next
    &&& forall|n: int| s <= n < e ==> #[trigger] b[n] != 0x0a
    &&& {
        ||| e == b.len()
        ||| next == e + 1 && b[e] == 0x0a && (s < e ==> b[e - 1] != 0x0d)
        ||| next == e + 2 && b[e] == 0x0d && b[e + 1] == 0x0a
    }
    &&& s <= rest.0 <= rest.1 == e
}

/// One of the first `k` lines stops the reading.
pub open spec fn stopped(items: Seq<ItemModel>, k: int) -> bool {
    exists|j: int| 0 <= j < k && (#[trigger] items[j]).line.data is Stop
}

proof fn lemma_feeds(b: Seq<u8>, i: int, f: int)
    requires
        0 <= i <= f <= b.len(),
        forall|k: int| i <= k < f ==> b[k] != 0x0a,
    ensures
        feeds(b, i) == feeds(b, f),
    decreases f - i,
{
    if i < f {
        lemma_feeds(b, i + 1, f);
    }
}

proof fn lemma_rest(b: Seq<u8>, s: int, e: int, first: bool, finished: bool)
    requires
        0 <= s <= e <= b.len() <= usize::MAX,
        pchtxt::on_boundary(b, e),
    ensures
        s <= pchtxt::line_at(b, s, e, first, finished).rest.0 <= e,
        pchtxt::line_at(b, s, e, first, finished).rest.1 == e,
{
    if e - s >= 2 {
        let first_digit = s + "@nsobid-".spec_bytes().len();
        if pchtxt::names_build(b, s, e, first) {
            pchtxt::lemma_hex_end(b, first_digit, e);
        }
        if e - s >= 7 {
            pchtxt::lemma_value_end(b, s + 6, e);
            let p = pchtxt::value_end(b, s + 6, e);
            if p + 1 <= e {
                pchtxt::lemma_value_end(b, p + 1, e);
            }
        }
        if e - s >= 11 {
            pchtxt::lemma_closing_quote(b, s + 11, e);
            pchtxt::lemma_value_end(b, s + 9, e);
        }
    }
}

proof fn lemma_stopped_behind(item: ItemModel, rest: Seq<ItemModel>, k: int)
    requires
        1 <= k <= rest.len() + 1,
    ensures
        stopped(seq![item] + rest, k) == (item.line.data is Stop || stopped(rest, k - 1)),
{
    let items = seq![item] + rest;
    assert(items[0] == item);
    if stopped(items, k) {
        let j = choose|j: int| 0 <= j < k && (#[trigger] items[j]).line.data is Stop;
        if j > 0 {
            assert(items[j] == rest[j - 1]);
            assert(rest[j - 1].line.data is Stop);
        }
    }
    if stopped(rest, k - 1) {
        let j = choose|j: int| 0 <= j < k - 1 && (#[trigger] rest[j]).line.data is Stop;
        assert(items[j + 1] == rest[j]);
    }
}

proof fn lemma_line_behind(b: Seq<u8>, item: ItemModel, rest: Seq<ItemModel>, k: int)
    requires
        1 <= k <= rest.len(),
        is_line(b, rest, k - 1),
    ensures
        is_line(b, seq![item] + rest, k),
{
    let items = seq![item] + rest;
    assert(items[k] == rest[k - 1]);
    assert(next_start(b, items, k) == next_start(b, rest, k - 1)) by {
        if k + 1 < items.len() {
            assert(items[k + 1] == rest[k]);
        }
    }
}

proof fn lemma_first_line(b: Seq<u8>, item: ItemModel, rest: Seq<ItemModel>)
    requires
        0 <= item.start < b.len(),
        (item.end, if rest.len() > 0 {
            rest[0].start
        } else {
            b.len() as int
        }) == pchtxt::line_ends(b, item.start),
        item.start <= item.line.rest.0 <= item.line.rest.1 == item.end,
    ensures
        is_line(b, seq![item] + rest, 0),
{
    let items = seq![item] + rest;
    text::lemma_find_byte(b, 0x0a, item.start, b.len() as int);
    assert(items[0] == item);
    if rest.len() > 0 {
        assert(items[1] == rest[0]);
    }
}

/// The item `k` holds what is read from its line.
pub open spec fn is_read(
    b: Seq<u8>,
    items: Seq<ItemModel>,
    k: int,
    first: bool,
    finished: bool,
) -> bool {
    items[k].line == pchtxt::line_at(
        b,
        items[k].start,
        items[k].end,
        first && k == 0,
        finished || stopped(items, k),
    )
}

proof fn lemma_walk_step(b: Seq<u8>, i: int, first: bool, finished: bool) -> (r: (ItemModel, int))
    requires
        0 <= i < b.len() <= usize::MAX,
    ensures
        r.0.start == i,
        (r.0.end, r.1) == pchtxt::line_ends(b, i),
        i < r.1 <= b.len(),
        r.0.line == pchtxt::line_at(b, i, r.0.end, first, finished),
        i <= r.0.line.rest.0 <= r.0.line.rest.1 == r.0.end,
        pchtxt::walk(b, i, first, finished) == seq![r.0] + pchtxt::walk(
            b,
            r.1,
            false,
            finished || r.0.line.data is Stop,
        ),
        line_count(b, i) == 1 + line_count(b, r.1),
{
    let len = b.len() as int;
    pchtxt::lemma_line_ends(b, i);
    text::lemma_find_byte(b, 0x0a, i, len);
    let f = text::find_byte(b, 0x0a, i, len);
    let (e, next) = pchtxt::line_ends(b, i);
    lemma_feeds(b, i, f);
    lemma_rest(b, i, e, first, finished);
    let line = pchtxt::line_at(b, i, e, first, finished);
    if f < len {
        assert(feeds(b, f) == 1 + feeds(b, f + 1));
        if f + 1 == len {
            assert(b.last() == 0x0a);
        }
    } else {
        assert(b[len - 1] != 0x0a);
    }
    (ItemModel { line, start: i, end: e }, next)
}

proof fn lemma_walk(b: Seq<u8>, i: int, first: bool, finished: bool)
    requires
        0 <= i <= b.len() <= usize::MAX,
    ensures
        ({
            let items = pchtxt::walk(b, i, first, finished);
            &&& items.len() == line_count(b, i)
            &&& items.len() == 0 <==> i == b.len()
            &&& items.len() > 0 ==> items[0].start == i
            &&& forall|k: int|
                0 <= k < items.len() ==> #[trigger] is_line(b, items, k)
            &&& forall|k: int|
                0 <= k < items.len() ==> #[trigger] is_read(b, items, k, first, finished)
        }),
    decreases b.len() - i,
{
    let items = pchtxt::walk(b, i, first, finished);
    if i < b.len() {
        let (item, next) = lemma_walk_step(b, i, first, finished);
        let later = finished || item.line.data is Stop;
        let rest = pchtxt::walk(b, next, false, later);
        lemma_walk(b, next, false, later);
        assert(items == seq![item] + rest);
        assert(items[0] == item);
        lemma_first_line(b, item, rest);
        assert forall|k: int| 0 <= k < items.len() implies #[trigger] is_line(b, items, k) by {
            if k > 0 {
                assert(is_line(b, rest, k - 1));
                lemma_line_behind(b, item, rest, k);
            }
        }
        assert forall|k: int| 0 <= k < items.len() implies #[trigger] is_read(
            b,
            items,
            k,
            first,
            finished,
        ) by {
            if k > 0 {
                assert(items[k] == rest[k - 1]);
                assert(is_read(b, rest, k - 1, false, later));
                lemma_stopped_behind(item, rest, k);
            } else {
                assert(!stopped(items, 0));
            }
        }
    } else {
        assert(items =~= Seq::empty());
    }
}

/// The walk of a text gives one item for each of its lines, in order and at the offset of the
/// line, whatever stands on it: neither a line that is wrong nor one that stops the reading drops
/// an item.
pub proof fn law_walk_covers_lines(b: Seq<u8>)
    requires
        b.len() <= usize::MAX,
    ensures
        ({
            let items = pchtxt::walk(b, 0, true, false);
            &&& items.len() == line_count(b, 0)
            &&& items.len() == 0 <==> b.len() == 0
            &&& items.len() > 0 ==> items[0].start == 0
            &&& forall|k: int|
                0 <= k < items.len() ==> #[trigger] is_line(b, items, k)
            &&& forall|k: int|
                0 <= k < items.len() ==> #[trigger] is_read(b, items, k, true, false)
        }),
{
    lemma_walk(b, 0, true, false);
}

// ---------------------------------------------------------------------------------------------
// Behind the line that stops the reading

/// The two texts start with the same `n` bytes.
pub open spec fn same_start(x: Seq<u8>, y: Seq<u8>, n: int) -> bool {
    &&& n <= x.len()
    &&& n <= y.len()
    &&& forall|k: int| 0 <= k < n ==> #[trigger] x[k] == y[k]
}

proof fn lemma_same_value_end(x: Seq<u8>, y: Seq<u8>, n: int, i: int, end: int)
    requires
        same_start(x, y, n),
        0 <= i,
        end <= n,
    ensures
        pchtxt::value_end(x, i, end) == pchtxt::value_end(y, i, end),
    decreases end - i,
{
    if i < end {
        assert(x[i] == y[i]);
        lemma_same_value_end(x, y, n, i + 1, end);
    }
}

proof fn lemma_same_hex_end(x: Seq<u8>, y: Seq<u8>, n: int, i: int, end: int)
    requires
        same_start(x, y, n),
        0 <= i,
        end <= n,
    ensures
        pchtxt::hex_end(x, i, end) == pchtxt::hex_end(y, i, end),
    decreases end - i,
{
    if i < end {
        assert(x[i] == y[i]);
        lemma_same_hex_end(x, y, n, i + 1, end);
    }
}

proof fn lemma_same_quote(x: Seq<u8>, y: Seq<u8>, n: int, q: int, end: int)
    requires
        same_start(x, y, n),
        1 <= q,
        end <= n,
    ensures
        pchtxt::closing_quote(x, q, end) == pchtxt::closing_quote(y, q, end),
    decreases end - q,
{
    if q < end {
        assert(x[q] == y[q] && x[q - 1] == y[q - 1]);
        lemma_same_quote(x, y, n, q + 1, end);
    }
}

proof fn lemma_same_string(x: Seq<u8>, y: Seq<u8>, n: int, i: int, j: int)
    requires
        same_start(x, y, n),
        0 <= i,
        j < n,
    ensures
        pchtxt::string_bytes(x, i, j) == pchtxt::string_bytes(y, i, j),
    decreases j + 1 - i,
{
    if i < j {
        assert(x[i] == y[i] && x[i + 1] == y[i + 1]);
        lemma_same_string(x, y, n, i + 1, j);
        lemma_same_string(x, y, n, i + 2, j);
    }
}

proof fn lemma_same_pairs(x: Seq<u8>, y: Seq<u8>, n: int, i: int, j: int)
    requires
        same_start(x, y, n),
        0 <= i,
        j <= n,
    ensures
        pchtxt::pair_bytes(x, i, j) == pchtxt::pair_bytes(y, i, j),
    decreases j - i,
{
    if i + 2 <= j {
        assert(x[i] == y[i] && x[i + 1] == y[i + 1]);
        lemma_same_pairs(x, y, n, i + 2, j);
    }
}

proof fn lemma_same_digits(x: Seq<u8>, y: Seq<u8>, n: int, i: int, j: int)
    requires
        same_start(x, y, n),
        0 <= i,
        j <= n,
    ensures
        token::digits_value(x, i, j, 16) == token::digits_value(y, i, j, 16),
    decreases j - i,
{
    if i < j {
        assert(x[j - 1] == y[j - 1]);
        lemma_same_digits(x, y, n, i, j - 1);
    }
}

proof fn lemma_same_floor(x: Seq<u8>, y: Seq<u8>, n: int, i: int)
    requires
        same_start(x, y, n),
        i < n,
    ensures
        pchtxt::floor_boundary(x, i) == pchtxt::floor_boundary(y, i),
    decreases i,
{
    if i > 0 {
        assert(x[i] == y[i]);
        lemma_same_floor(x, y, n, i - 1);
    }
}

proof fn lemma_same_ceil(x: Seq<u8>, y: Seq<u8>, n: int, i: int, e: int)
    requires
        same_start(x, y, n),
        0 <= i <= e < n,
        x[e] == 0x0a || x[e] == 0x0d,
    ensures
        pchtxt::ceil_boundary(x, i) == pchtxt::ceil_boundary(y, i),
    decreases e - i,
{
    assert(x[i] == y[i]);
    if i < e {
        lemma_same_ceil(x, y, n, i + 1, e);
    }
}

proof fn lemma_same_words(x: Seq<u8>, y: Seq<u8>, n: int, i: int, pat: Seq<u8>)
    requires
        same_start(x, y, n),
        0 <= i,
        i + pat.len() <= n,
    ensures
        pchtxt::reads_as(x, i, pat) == pchtxt::reads_as(y, i, pat),
        text::has_at(x, i, pat) == text::has_at(y, i, pat),
{
    assert(x.subrange(i, i + pat.len()) =~= y.subrange(i, i + pat.len()));
    if pchtxt::reads_as(x, i, pat) {
        assert forall|k: int| 0 <= k < pat.len() implies pchtxt::lower(y[i + k]) == pchtxt::lower(
            #[trigger] pat[k],
        ) by {
            assert(x[i + k] == y[i + k]);
        }
    }
    if pchtxt::reads_as(y, i, pat) {
        assert forall|k: int| 0 <= k < pat.len() implies pchtxt::lower(x[i + k]) == pchtxt::lower(
            #[trigger] pat[k],
        ) by {
            assert(x[i + k] == y[i + k]);
        }
    }
}

proof fn lemma_same_prefix(x: Seq<u8>, y: Seq<u8>, n: int, i: int, end: int, prefix: Seq<u8>)
    requires
        same_start(x, y, n),
        0 <= i,
        end < n,
    ensures
        pchtxt::behind_prefix(x, i, end, prefix) == pchtxt::behind_prefix(y, i, end, prefix),
        pchtxt::prefix_fits(x, i, end, prefix) == pchtxt::prefix_fits(y, i, end, prefix),
{
    if prefix.len() <= end - i {
        lemma_same_words(x, y, n, i, prefix);
        assert(x[i + prefix.len()] == y[i + prefix.len()]);
    }
}

proof fn lemma_same_word(x: Seq<u8>, y: Seq<u8>, n: int, i: int, j: int, pat: Seq<u8>)
    requires
        same_start(x, y, n),
        0 <= i,
        j <= n,
    ensures
        pchtxt::is_word(x, i, j, pat) == pchtxt::is_word(y, i, j, pat),
{
    if j - i == pat.len() {
        lemma_same_words(x, y, n, i, pat);
    }
}

/// What is asked of the end of a line: the byte behind it, which breaks the line, belongs to what
/// is the same.
spec fn ends_within(x: Seq<u8>, y: Seq<u8>, n: int, s: int, e: int) -> bool {
    &&& same_start(x, y, n)
    &&& 0 <= s <= e < n
    &&& x[e] == 0x0a || x[e] == 0x0d
}

proof fn lemma_same_flag(x: Seq<u8>, y: Seq<u8>, n: int, s: int, e: int)
    requires
        ends_within(x, y, n, s, e),
    ensures
        pchtxt::flag_line(x, s, e) == pchtxt::flag_line(y, s, e),
        pchtxt::is_shift_flag(x, s, e) == pchtxt::is_shift_flag(y, s, e),
        pchtxt::is_shift_flag(x, s, e) ==> x.subrange(
            pchtxt::value_end(x, s + 6, e) + 1,
            pchtxt::value_end(x, pchtxt::value_end(x, s + 6, e) + 1, e),
        ) == y.subrange(
            pchtxt::value_end(y, s + 6, e) + 1,
            pchtxt::value_end(y, pchtxt::value_end(y, s + 6, e) + 1, e),
        ),
{
    if e - s >= 7 {
        lemma_same_value_end(x, y, n, s + 6, e);
        pchtxt::lemma_value_end(x, s + 6, e);
        let p = pchtxt::value_end(x, s + 6, e);
        lemma_same_value_end(x, y, n, p + 1, e);
        let q = pchtxt::value_end(x, p + 1, e);
        assert(x[s + 6] == y[s + 6]);
        lemma_same_floor(x, y, n, s + 6);
        lemma_same_word(x, y, n, s + 6, p, "print_values".spec_bytes());
        lemma_same_word(x, y, n, s + 6, p, "offset_shift".spec_bytes());
        if e - s >= p - (s + 6) + 8 {
            pchtxt::lemma_value_end(x, p + 1, e);
            assert(x[p + 1] == y[p + 1]);
            lemma_same_floor(x, y, n, p + 1);
            assert(x.subrange(p + 1, q) =~= y.subrange(p + 1, q));
        }
    }
}

proof fn lemma_same_at(x: Seq<u8>, y: Seq<u8>, n: int, s: int, e: int)
    requires
        ends_within(x, y, n, s, e),
        e - s >= 2,
    ensures
        pchtxt::at_line(x, s, e) == pchtxt::at_line(y, s, e),
{
    assert(x[s + 1] == y[s + 1]);
    lemma_same_flag(x, y, n, s, e);
    lemma_same_prefix(x, y, n, s + 2, e, "ig-endian".spec_bytes());
    lemma_same_prefix(x, y, n, s + 2, e, "ittle-endian".spec_bytes());
    lemma_same_prefix(x, y, n, s + 2, e, "nabled".spec_bytes());
    lemma_same_prefix(x, y, n, s + 2, e, "top".spec_bytes());
    lemma_same_prefix(x, y, n, s + 1, e, "disabled".spec_bytes());
}

proof fn lemma_same_patch(x: Seq<u8>, y: Seq<u8>, n: int, s: int, e: int)
    requires
        ends_within(x, y, n, s, e),
    ensures
        pchtxt::patch_line(x, s, e) == pchtxt::patch_line(y, s, e),
{
    if e - s >= 11 {
        let v = s + 9;
        assert(x[s] == y[s] && x[v] == y[v]);
        let first = if x[s] == 0x2b {
            s + 1
        } else {
            s
        };
        lemma_same_hex_end(x, y, n, first, s + 8);
        lemma_same_digits(x, y, n, first, s + 8);
        assert(pchtxt::patch_offset(x, s) == pchtxt::patch_offset(y, s));
        lemma_same_floor(x, y, n, v);
        lemma_same_ceil(x, y, n, v, e);
        lemma_same_quote(x, y, n, v + 2, e);
        let q = pchtxt::closing_quote(x, v + 2, e);
        if q < e {
            lemma_same_string(x, y, n, v + 1, q);
        }
        pchtxt::lemma_value_end(x, v, e);
        lemma_same_value_end(x, y, n, v, e);
        let p = pchtxt::value_end(x, v, e);
        lemma_same_hex_end(x, y, n, v, p);
        lemma_same_pairs(x, y, n, v, p);
    }
}

proof fn lemma_same_build(x: Seq<u8>, y: Seq<u8>, n: int, s: int, e: int, first: bool)
    requires
        ends_within(x, y, n, s, e),
    ensures
        pchtxt::names_build(x, s, e, first) == pchtxt::names_build(y, s, e, first),
        pchtxt::names_build(x, s, e, first) ==> pchtxt::build_id_line(x, s, e)
            == pchtxt::build_id_line(y, s, e),
{
    let prefix = "@nsobid-".spec_bytes();
    if s + prefix.len() <= e {
        lemma_same_words(x, y, n, s, prefix);
        lemma_same_hex_end(x, y, n, s + prefix.len(), e);
        pchtxt::lemma_hex_end(x, s + prefix.len(), e);
        lemma_same_digits(
            x,
            y,
            n,
            s + prefix.len(),
            pchtxt::hex_end(x, s + prefix.len(), e),
        );
    }
}

/// A line is read alike in two texts that are the same up to the byte behind it.
proof fn lemma_same_line(
    x: Seq<u8>,
    y: Seq<u8>,
    n: int,
    s: int,
    e: int,
    first: bool,
    finished: bool,
)
    requires
        ends_within(x, y, n, s, e),
    ensures
        pchtxt::line_at(x, s, e, first, finished) == pchtxt::line_at(y, s, e, first, finished),
        pchtxt::line_readable(x, s, e, first, finished) == pchtxt::line_readable(
            y,
            s,
            e,
            first,
            finished,
        ),
        pchtxt::line_stops(x, s, e, first) == pchtxt::line_stops(y, s, e, first),
{
    if e - s >= 2 {
        assert(x[s] == y[s] && x[s + 1] == y[s + 1]);
        lemma_same_build(x, y, n, s, e, first);
        lemma_same_at(x, y, n, s, e);
        lemma_same_flag(x, y, n, s, e);
        lemma_same_patch(x, y, n, s, e);
        lemma_same_prefix(x, y, n, s + 2, e, "ig-endian".spec_bytes());
        lemma_same_prefix(x, y, n, s + 2, e, "ittle-endian".spec_bytes());
        lemma_same_prefix(x, y, n, s + 2, e, "nabled".spec_bytes());
        lemma_same_prefix(x, y, n, s + 2, e, "top".spec_bytes());
        lemma_same_prefix(x, y, n, s + 1, e, "disabled".spec_bytes());
        if e - s >= 11 {
            assert(x[s + 8] == y[s + 8]);
        }
    }
}

/// The line that starts at `i` ends alike in two texts that are the same up to a line feed.
proof fn lemma_same_ends(x: Seq<u8>, y: Seq<u8>, n: int, i: int)
    requires
        same_start(x, y, n),
        0 <= i < n,
        x[n - 1] == 0x0a,
    ensures
        pchtxt::line_ends(x, i) == pchtxt::line_ends(y, i),
        i <= pchtxt::line_ends(x, i).0 < pchtxt::line_ends(x, i).1 <= n,
        x[pchtxt::line_ends(x, i).1 - 1] == 0x0a,
        pchtxt::line_ends(x, i).0 + 1 == pchtxt::line_ends(x, i).1 || (pchtxt::line_ends(x, i).0 + 2
            == pchtxt::line_ends(x, i).1 && x[pchtxt::line_ends(x, i).0] == 0x0d),
{
    text::lemma_find_byte(x, 0x0a, i, x.len() as int);
    text::lemma_find_byte(y, 0x0a, i, y.len() as int);
    let f = text::find_byte(x, 0x0a, i, x.len() as int);
    let g = text::find_byte(y, 0x0a, i, y.len() as int);
    assert(x[n - 1] == y[n - 1]);
    if f < g {
        assert(x[f] == y[f]);
    }
    if g < f {
        assert(x[g] == y[g]);
    }
    if f > i {
        assert(x[f - 1] == y[f - 1]);
    }
}

proof fn lemma_stop_line(x: Seq<u8>, n: int, first: bool)
    requires
        0 <= n,
        n + 6 <= x.len(),
        x.subrange(n, n + 6) == "@stop\n".spec_bytes(),
    ensures
        pchtxt::line_ends(x, n) == (n + 5, n + 6),
        pchtxt::line_at(x, n, n + 5, first, false).data is Stop,
        pchtxt::line_at(x, n, n + 5, first, false).diag is None,
        pchtxt::line_readable(x, n, n + 5, first, false),
        pchtxt::line_stops(x, n, n + 5, first),
{
    let word = "@stop\n".spec_bytes();
    reveal_strlit("@stop\n");
    is_ascii_spec_bytes("@stop\n");
    reveal_strlit("@nsobid-");
    is_ascii_spec_bytes("@nsobid-");
    reveal_strlit("top");
    is_ascii_spec_bytes("top");
    assert("top".spec_bytes().len() == 3 && "@nsobid-".spec_bytes().len() == 8);
    assert forall|k: int| n <= k < n + 6 implies #[trigger] x[k] == word[k - n] by {
        assert(x.subrange(n, n + 6)[k - n] == x[k]);
    }
    assert(x[n] == 0x40 && x[n + 1] == 0x73 && x[n + 4] == 0x70 && x[n + 5] == 0x0a);
    assert(x[n + 2] == 0x74 && x[n + 3] == 0x6f);
    text::lemma_find_byte(x, 0x0a, n, x.len() as int);
    assert(text::find_byte(x, 0x0a, n, x.len() as int) == n + 5);
    assert(!pchtxt::names_build(x, n, n + 5, first));
}

/// All lines from `i` on can be read when the reading has stopped.
proof fn lemma_finished_readable(x: Seq<u8>, i: int, first: bool)
    requires
        0 <= i <= x.len(),
    ensures
        pchtxt::readable_from(x, i, first, true),
    decreases x.len() - i,
{
    if i < x.len() {
        pchtxt::lemma_line_ends(x, i);
        lemma_finished_readable(x, pchtxt::line_ends(x, i).1, false);
    }
}

proof fn lemma_readable_alike(
    x: Seq<u8>,
    y: Seq<u8>,
    n: int,
    i: int,
    first: bool,
    finished: bool,
)
    requires
        same_start(x, y, n + 6),
        0 <= i <= n,
        i < n ==> x[n - 1] == 0x0a,
        x.subrange(n, n + 6) == "@stop\n".spec_bytes(),
        y.subrange(n, n + 6) == "@stop\n".spec_bytes(),
    ensures
        pchtxt::readable_from(x, i, first, finished) == pchtxt::readable_from(
            y,
            i,
            first,
            finished,
        ),
    decreases n - i,
{
    if i < n {
        assert(same_start(x, y, n));
        lemma_same_ends(x, y, n, i);
        let (e, next) = pchtxt::line_ends(x, i);
        lemma_same_line(x, y, n + 6, i, e, first, finished);
        lemma_readable_alike(
            x,
            y,
            n,
            next,
            false,
            finished || pchtxt::line_stops(x, i, e, first),
        );
    } else {
        lemma_stop_line(x, n, first);
        lemma_stop_line(y, n, first);
        lemma_finished_readable(x, n + 6, false);
        lemma_finished_readable(y, n + 6, false);
    }
}

proof fn lemma_patches_alike(
    x: Seq<u8>,
    y: Seq<u8>,
    n: int,
    i: int,
    first: bool,
    st: PatchesModel,
)
    requires
        same_start(x, y, n + 6),
        0 <= i <= n,
        i < n ==> x[n - 1] == 0x0a,
        x.subrange(n, n + 6) == "@stop\n".spec_bytes(),
        y.subrange(n, n + 6) == "@stop\n".spec_bytes(),
    ensures
        pchtxt::patches_from(x, i, first, st) == pchtxt::patches_from(y, i, first, st),
    decreases n - i,
{
    if i < n {
        assert(same_start(x, y, n));
        lemma_same_ends(x, y, n, i);
        let (e, next) = pchtxt::line_ends(x, i);
        lemma_same_line(x, y, n + 6, i, e, first, false);
        let line = pchtxt::line_at(x, i, e, first, false);
        assert(x.subrange(i, e) =~= y.subrange(i, e));
        lemma_patches_alike(
            x,
            y,
            n,
            next,
            false,
            st.with_line(line, x.subrange(i, e), i as usize),
        );
    } else {
        lemma_stop_line(x, n, first);
        lemma_stop_line(y, n, first);
    }
}

/// Nothing behind the line `@stop` counts: with it and without it the patches, the build and what
/// is said about the file are the same, and one can be read just when the other can.
pub proof fn law_nothing_counts_behind_stop(a: Seq<u8>, b: Seq<u8>)
    requires
        a.len() > 0 ==> a.last() == 0x0a,
    ensures
        pchtxt::pchtxt_patches(a + "@stop\n".spec_bytes() + b) == pchtxt::pchtxt_patches(
            a + "@stop\n".spec_bytes(),
        ),
        pchtxt::readable(a + "@stop\n".spec_bytes() + b) == pchtxt::readable(
            a + "@stop\n".spec_bytes(),
        ),
{
    let word = "@stop\n".spec_bytes();
    reveal_strlit("@stop\n");
    is_ascii_spec_bytes("@stop\n");
    assert(word.len() == 6);
    let n = a.len() as int;
    let x = a + word + b;
    let y = a + word;
    assert(x.subrange(n, n + 6) =~= word);
    assert(y.subrange(n, n + 6) =~= word);
    assert(same_start(x, y, n + 6));
    if n > 0 {
        assert(x[n - 1] == a[n - 1]);
    }
    lemma_patches_alike(x, y, n, 0, true, PatchesModel::start());
    lemma_readable_alike(x, y, n, 0, true, false);
}

} // verus!
