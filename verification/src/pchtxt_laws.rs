//! What is written to a patch text file and what is read from it, taken together.

use crate::option::BuildId;
use crate::patches;
use crate::pchtxt;
use crate::pchtxt::{PatchesModel, PchtxtDianostic, PchtxtLineData};
use crate::pchtxt_writer;
use crate::pchtxt_writer::{Part, PCHTXT_MAX_HUNK_SIZE};
use crate::preprocessor::token;
use crate::text;
use vstd::prelude::*;
use vstd::string::*;

verus! {

/// The smallest number that takes more than `d` hexadecimal digits.
pub open spec fn pow16(d: nat) -> int
    decreases d,
{
    if d == 0 {
        1
    } else {
        16 * pow16((d - 1) as nat)
    }
}

proof fn lemma_same_digits(a: Seq<u8>, b: Seq<u8>, i: int, j: int)
    requires
        forall|k: int| i <= k < j ==> a[k] == b[k],
    ensures
        token::digits_value(a, i, j, 16) == token::digits_value(b, i, j, 16),
    decreases j - i,
{
    if i < j {
        lemma_same_digits(a, b, i, j - 1);
    }
}

proof fn lemma_hex_text(n: int, d: nat)
    requires
        0 <= n < pow16(d),
    ensures
        pchtxt_writer::hex_text(n, d).len() == d,
        forall|k: int|
            0 <= k < d ==> token::digit_value(#[trigger] pchtxt_writer::hex_text(n, d)[k]) < 16,
        token::digits_value(pchtxt_writer::hex_text(n, d), 0, d as int, 16) == n,
    decreases d,
{
    if d > 0 {
        let p = (d - 1) as nat;
        lemma_hex_text(n / 16, p);
        let init = pchtxt_writer::hex_text(n / 16, p);
        let all = pchtxt_writer::hex_text(n, d);
        lemma_same_digits(init, all, 0, d - 1);
        assert(token::digit_value(all[d - 1]) == n % 16);
        assert forall|k: int| 0 <= k < d implies token::digit_value(#[trigger] all[k]) < 16 by {
            if k < d - 1 {
                assert(all[k] == init[k]);
            }
        }
    }
}

/// Digits have the same value wherever they stand.
proof fn lemma_shifted_digits(b: Seq<u8>, s: int, digits: Seq<u8>, n: int)
    requires
        0 <= n <= digits.len(),
        0 <= s,
        s + n <= b.len(),
        b.subrange(s, s + n) == digits.subrange(0, n),
    ensures
        token::digits_value(b, s, s + n, 16) == token::digits_value(digits, 0, n, 16),
    decreases n,
{
    if n > 0 {
        assert(b.subrange(s, s + n)[n - 1] == digits.subrange(0, n)[n - 1]);
        assert(b.subrange(s, s + (n - 1)) =~= b.subrange(s, s + n).drop_last());
        assert(digits.subrange(0, n - 1) =~= digits.subrange(0, n).drop_last());
        lemma_shifted_digits(b, s, digits, n - 1);
        assert(b.subrange(s, s + n)[n - 1] == b[s + n - 1]);
        assert(digits.subrange(0, n)[n - 1] == digits[n - 1]);
    }
}

proof fn lemma_hex_run(b: Seq<u8>, i: int, end: int)
    requires
        i <= end,
        forall|k: int| i <= k < end ==> token::digit_value(#[trigger] b[k]) < 16,
    ensures
        pchtxt::hex_end(b, i, end) == end,
        pchtxt::value_end(b, i, end) == end,
    decreases end - i,
{
    if i < end {
        assert(token::digit_value(b[i]) < 16);
        lemma_hex_run(b, i + 1, end);
    }
}

proof fn lemma_hex_bytes_len(h: Seq<u8>, i: int, j: int)
    requires
        i <= j,
    ensures
        pchtxt_writer::hex_bytes(h, i, j).len() == 2 * (j - i),
    decreases j - i,
{
    if i < j {
        lemma_hex_bytes_len(h, i + 1, j);
        reveal_with_fuel(pchtxt_writer::hex_text, 3);
    }
}

proof fn lemma_pairs(b: Seq<u8>, at: int, h: Seq<u8>, i: int, j: int)
    requires
        0 <= i <= j <= h.len(),
        0 <= at,
        at + pchtxt_writer::hex_bytes(h, i, j).len() <= b.len(),
        b.subrange(at, at + pchtxt_writer::hex_bytes(h, i, j).len()) == pchtxt_writer::hex_bytes(
            h,
            i,
            j,
        ),
    ensures
        pchtxt_writer::hex_bytes(h, i, j).len() == 2 * (j - i),
        pchtxt::pair_bytes(b, at, at + 2 * (j - i)) == h.subrange(i, j),
        forall|k: int| at <= k < at + 2 * (j - i) ==> token::digit_value(#[trigger] b[k]) < 16,
    decreases j - i,
{
    let all = pchtxt_writer::hex_bytes(h, i, j);
    if i < j {
        let rest = pchtxt_writer::hex_bytes(h, i + 1, j);
        let two = pchtxt_writer::hex_text(h[i] as int, 2);
        reveal_with_fuel(pow16, 3);
        lemma_hex_text(h[i] as int, 2);
        reveal_with_fuel(pchtxt_writer::hex_text, 3);
        assert(all == two + rest);
        assert(b[at] == all[0] && b[at + 1] == all[1]) by {
            assert(b.subrange(at, at + all.len())[0] == b[at]);
            assert(b.subrange(at, at + all.len())[1] == b[at + 1]);
        }
        assert(two[0] == pchtxt_writer::hex_digit(h[i] as int / 16 % 16));
        assert(two[1] == pchtxt_writer::hex_digit(h[i] as int % 16));
        assert(b.subrange(at + 2, at + 2 + rest.len()) =~= rest) by {
            assert forall|k: int| 0 <= k < rest.len() implies b[at + 2 + k] == rest[k] by {
                assert(b.subrange(at, at + all.len())[k + 2] == all[k + 2]);
            }
        }
        lemma_pairs(b, at + 2, h, i + 1, j);
        assert(h.subrange(i, j) =~= seq![h[i]] + h.subrange(i + 1, j));
    } else {
        assert(h.subrange(i, j) =~= Seq::empty());
    }
}

/// In an escaped text each quote stands behind a backslash, and the last byte is no backslash
/// unless the text ends with one.
proof fn lemma_escaped(h: Seq<u8>, i: int, j: int)
    requires
        0 <= i <= j <= h.len(),
    ensures
        ({
            let s = pchtxt_writer::escaped(h, i, j);
            &&& s.len() >= j - i
            &&& s.len() > 0 ==> s[0] != 0x22
            &&& forall|k: int| 1 <= k < s.len() && #[trigger] s[k] == 0x22 ==> s[k - 1] == 0x5c
            &&& i < j && h[j - 1] != 0x5c ==> s.last() != 0x5c
        }),
    decreases j - i,
{
    if i < j {
        lemma_escaped(h, i + 1, j);
        let rest = pchtxt_writer::escaped(h, i + 1, j);
        let first = match pchtxt_writer::escape_letter(h[i]) {
            Some(letter) => seq![0x5cu8, letter],
            None => seq![h[i]],
        };
        let s = pchtxt_writer::escaped(h, i, j);
        assert(s == first + rest);
        assert forall|k: int| 1 <= k < s.len() && #[trigger] s[k] == 0x22 implies s[k - 1]
            == 0x5c by {
            if k >= first.len() {
                assert(s[k] == rest[k - first.len()]);
                if k > first.len() {
                    assert(s[k - 1] == rest[k - first.len() - 1]);
                }
            }
        }
    }
}

proof fn lemma_string(b: Seq<u8>, at: int, h: Seq<u8>, i: int, j: int)
    requires
        0 <= i <= j <= h.len(),
        0 <= at,
        at + pchtxt_writer::escaped(h, i, j).len() <= b.len(),
        b.subrange(at, at + pchtxt_writer::escaped(h, i, j).len()) == pchtxt_writer::escaped(
            h,
            i,
            j,
        ),
        forall|k: int| i <= k < j ==> #[trigger] h[k] != 0x0b,
    ensures
        pchtxt::string_bytes(b, at, at + pchtxt_writer::escaped(h, i, j).len()) == h.subrange(i, j),
    decreases j - i,
{
    let s = pchtxt_writer::escaped(h, i, j);
    if i < j {
        let rest = pchtxt_writer::escaped(h, i + 1, j);
        let first = match pchtxt_writer::escape_letter(h[i]) {
            Some(letter) => seq![0x5cu8, letter],
            None => seq![h[i]],
        };
        assert(s == first + rest);
        let n = first.len() as int;
        assert forall|k: int| 0 <= k < s.len() implies b[at + k] == s[k] by {
            assert(b.subrange(at, at + s.len())[k] == b[at + k]);
        }
        assert(b.subrange(at + n, at + n + rest.len()) =~= rest) by {
            assert forall|k: int| 0 <= k < rest.len() implies b[at + n + k] == rest[k] by {
                assert(b[at + (n + k)] == s[n + k]);
            }
        }
        lemma_string(b, at + n, h, i + 1, j);
        assert(b[at + 0] == s[0]);
        if n == 2 {
            assert(b[at + 1] == s[1]);
        }
        assert(h.subrange(i, j) =~= seq![h[i]] + h.subrange(i + 1, j));
    } else {
        assert(h.subrange(i, j) =~= Seq::empty());
    }
}

proof fn lemma_quote_found(b: Seq<u8>, from: int, q: int, end: int)
    requires
        from <= q < end,
        b[q] == 0x22 && b[q - 1] != 0x5c,
        forall|k: int| from <= k < q ==> !(#[trigger] b[k] == 0x22 && b[k - 1] != 0x5c),
    ensures
        pchtxt::closing_quote(b, from, end) == q,
    decreases q - from,
{
    if from < q {
        assert(!(b[from] == 0x22 && b[from - 1] != 0x5c));
        lemma_quote_found(b, from + 1, q, end);
    }
}

/// A part can be read as it is written. A part that is written as a quoted string has to hold a
/// byte before its zero, must not hold a vertical tab and must not end with a backslash.
pub open spec fn part_reads_back(h: Seq<u8>, p: Part) -> bool {
    p.text is Some ==> {
        &&& p.end - p.start >= 2
        &&& h[p.end - 2] != 0x5c
        &&& forall|k: int| p.start <= k < p.end ==> #[trigger] h[k] != 0x0b
    }
}

/// The line for a part, without its line feed.
spec fn bare_line(base: u32, h: Seq<u8>, p: Part) -> Seq<u8> {
    pchtxt_writer::part_line(base, h, p).drop_last()
}

/// The line for a part, wherever it stands in a file.
#[verifier::spinoff_prover]
#[verifier::rlimit(40)]
proof fn lemma_line(b: Seq<u8>, s: int, base: u32, h: Seq<u8>, p: Part)
    requires
        p.start < p.end <= h.len() <= PCHTXT_MAX_HUNK_SIZE,
        base + h.len() <= patches::TOP + 1,
        p.text is Some ==> pchtxt_writer::is_text(h, p.start as int, p.end as int),
        part_reads_back(h, p),
        0 <= s,
        s + bare_line(base, h, p).len() <= b.len(),
        b.subrange(s, s + bare_line(base, h, p).len()) == bare_line(base, h, p),
    ensures
        ({
            let e = s + bare_line(base, h, p).len();
            let line = pchtxt::line_at(b, s, e, false, false);
            &&& line.data == (PchtxtLineData::Patch {
                offset: (base + p.start) as u32,
                patch: h.subrange(p.start as int, p.end as int),
                is_string: p.text is Some,
            })
            &&& line.diag is None
            &&& pchtxt::line_readable(b, s, e, false, false)
        }),
{
    let i = p.start as int;
    let j = p.end as int;
    let address = pchtxt_writer::hex_text(base + i, 8);
    let body = pchtxt_writer::part_body(h, p);
    let line = bare_line(base, h, p);
    reveal_with_fuel(pow16, 9);
    lemma_hex_text(base + i, 8);
    assert(line =~= address + seq![0x20u8] + body);
    let e = s + line.len();
    assert forall|k: int| 0 <= k < line.len() implies b[s + k] == line[k] by {
        assert(b.subrange(s, e)[k] == b[s + k]);
    }
    assert forall|k: int| s <= k < s + 8 implies token::digit_value(#[trigger] b[k]) < 16 by {
        assert(b[s + (k - s)] == line[k - s]);
        assert(line[k - s] == address[k - s]);
    }
    lemma_hex_run(b, s, s + 8);
    assert(b.subrange(s, s + 8) =~= address) by {
        assert forall|k: int| 0 <= k < 8 implies b[s + k] == address[k] by {
            assert(line[k] == address[k]);
        }
    }
    assert(address.subrange(0, 8) =~= address);
    lemma_shifted_digits(b, s, address, 8);
    assert(token::digit_value(b[s]) < 16);
    assert(pchtxt::patch_offset(b, s) == Some((base + i) as u32));
    assert(b[s + 8] == line[8]);
    assert(b.subrange(s + 9, e) =~= body) by {
        assert forall|k: int| 0 <= k < body.len() implies b[s + 9 + k] == body[k] by {
            assert(b[s + (9 + k)] == line[9 + k]);
        }
    }
    if p.text is Some {
        let inside = pchtxt_writer::escaped(h, i, j - 1);
        lemma_escaped(h, i, j - 1);
        assert(body == seq![0x22u8] + inside + seq![0x22u8]);
        let q = s + 10 + inside.len() as int;
        assert(e == q + 1);
        assert forall|k: int| s + 9 <= k < e implies b[k] == body[k - s - 9] by {
            assert(b.subrange(s + 9, e)[k - s - 9] == b[k]);
        }
        assert(b[s + 9] == 0x22);
        assert(b.subrange(s + 10, q) =~= inside);
        assert forall|k: int| s + 10 <= k < q implies b[k] == inside[k - s - 10] by {
            assert(b.subrange(s + 10, q)[k - s - 10] == b[k]);
        }
        assert(b[q] == 0x22);
        assert(b[q - 1] == inside.last());
        assert forall|k: int| s + 11 <= k < q implies !(#[trigger] b[k] == 0x22 && b[k - 1]
            != 0x5c) by {
            assert(b[k] == inside[k - s - 10]);
            assert(b[k - 1] == inside[k - 1 - s - 10]);
        }
        lemma_quote_found(b, s + 11, q, e);
        lemma_string(b, s + 10, h, i, j - 1);
        assert(h.subrange(i, j - 1).push(0) =~= h.subrange(i, j));
    } else {
        lemma_hex_bytes_len(h, i, j);
        lemma_pairs(b, s + 9, h, i, j);
        assert(token::digit_value(b[s + 9]) < 16);
        lemma_hex_run(b, s + 9, e);
    }
}

/// A line that was written for a part of a hunk is read as the same bytes at the same address,
/// unless the part is a string that is not read as it is written.
pub proof fn law_pchtxt_line_reads_back(base: u32, h: Seq<u8>, p: Part)
    requires
        p.start < p.end <= h.len() <= PCHTXT_MAX_HUNK_SIZE,
        base + h.len() <= patches::TOP + 1,
        p.text is Some ==> pchtxt_writer::is_text(h, p.start as int, p.end as int),
        part_reads_back(h, p),
    ensures
        ({
            let line = pchtxt_writer::part_line(base, h, p).drop_last();
            pchtxt::line_at(line, 0, line.len() as int, false, false).data == (
            PchtxtLineData::Patch {
                offset: (base + p.start) as u32,
                patch: h.subrange(p.start as int, p.end as int),
                is_string: p.text is Some,
            })
        }),
{
    let line = bare_line(base, h, p);
    assert(line.subrange(0, line.len() as int) =~= line);
    lemma_line(line, 0, base, h, p);
}

/// All parts of a hunk can be read as they are written.
pub open spec fn hunk_reads_back(h: Seq<u8>) -> bool {
    let ps = pchtxt_writer::joined(pchtxt_writer::parts_from(h, 0), 0);
    forall|k: int| 0 <= k < ps.len() ==> part_reads_back(h, #[trigger] ps[k])
}

/// Nothing that is written breaks a line.
proof fn lemma_escaped_in_line(h: Seq<u8>, i: int, j: int)
    ensures
        forall|k: int|
            0 <= k < pchtxt_writer::escaped(h, i, j).len() ==> #[trigger] pchtxt_writer::escaped(
                h,
                i,
                j,
            )[k] != 0x0a,
    decreases j - i,
{
    if i < j {
        lemma_escaped_in_line(h, i + 1, j);
        let rest = pchtxt_writer::escaped(h, i + 1, j);
        let first = match pchtxt_writer::escape_letter(h[i]) {
            Some(letter) => seq![0x5cu8, letter],
            None => seq![h[i]],
        };
        let s = pchtxt_writer::escaped(h, i, j);
        assert(s == first + rest);
        assert forall|k: int| 0 <= k < s.len() implies #[trigger] s[k] != 0x0a by {
            if k >= first.len() {
                assert(s[k] == rest[k - first.len()]);
            }
        }
    }
}

proof fn lemma_line_in_line(base: u32, h: Seq<u8>, p: Part)
    requires
        p.start < p.end <= h.len() <= PCHTXT_MAX_HUNK_SIZE,
        base + h.len() <= patches::TOP + 1,
    ensures
        bare_line(base, h, p).len() >= 11,
        bare_line(base, h, p).last() != 0x0d,
        forall|k: int|
            0 <= k < bare_line(base, h, p).len() ==> #[trigger] bare_line(base, h, p)[k] != 0x0a,
{
    let i = p.start as int;
    let j = p.end as int;
    let address = pchtxt_writer::hex_text(base + i, 8);
    let body = pchtxt_writer::part_body(h, p);
    let line = bare_line(base, h, p);
    reveal_with_fuel(pow16, 9);
    lemma_hex_text(base + i, 8);
    assert(line =~= address + seq![0x20u8] + body);
    if p.text is Some {
        let inside = pchtxt_writer::escaped(h, i, j - 1);
        lemma_escaped_in_line(h, i, j - 1);
        assert(body == seq![0x22u8] + inside + seq![0x22u8]);
        assert forall|k: int| 0 <= k < line.len() implies #[trigger] line[k] != 0x0a by {
            if k < 8 {
                assert(line[k] == address[k]);
            } else if 10 <= k < 10 + inside.len() {
                assert(line[k] == inside[k - 10]);
            }
        }
    } else {
        lemma_hex_bytes_len(h, i, j);
        assert(body.subrange(0, body.len() as int) =~= body);
        lemma_pairs(body, 0, h, i, j);
        assert forall|k: int| 0 <= k < line.len() implies #[trigger] line[k] != 0x0a by {
            if k < 8 {
                assert(line[k] == address[k]);
            } else if 9 <= k {
                assert(line[k] == body[k - 9]);
            }
        }
        assert(line.last() == body.last());
        assert(token::digit_value(body[body.len() - 1]) < 16);
    }
}

/// A line ends at the line feed behind it.
proof fn lemma_line_found(b: Seq<u8>, s: int, e: int)
    requires
        0 <= s < e < b.len(),
        b[e] == 0x0a,
        b[e - 1] != 0x0d,
        forall|k: int| s <= k < e ==> #[trigger] b[k] != 0x0a,
    ensures
        pchtxt::line_ends(b, s) == (e, e + 1),
{
    text::lemma_find_byte(b, 0x0a, s, b.len() as int);
}

/// Where the part `k` of a hunk starts, or where the hunk ends.
spec fn part_start(h: Seq<u8>, ps: Seq<Part>, k: int) -> int {
    if 0 <= k < ps.len() {
        ps[k].start as int
    } else {
        h.len() as int
    }
}

/// What has been read when the bytes of a hunk from `i` on have been read too.
spec fn with_bytes(st: PatchesModel, base: u32, h: Seq<u8>, i: int) -> PatchesModel {
    PatchesModel {
        patches: patches::put_all(
            st.patches,
            (base + i) as u32,
            h.subrange(i, h.len() as int),
        ),
        ..st
    }
}

#[verifier::spinoff_prover]
#[verifier::rlimit(40)]
proof fn lemma_part_read(b: Seq<u8>, s: int, base: u32, h: Seq<u8>, p: Part, st: PatchesModel)
    requires
        p.start < p.end <= h.len() <= PCHTXT_MAX_HUNK_SIZE,
        base + h.len() <= patches::TOP + 1,
        p.text is Some ==> pchtxt_writer::is_text(h, p.start as int, p.end as int),
        part_reads_back(h, p),
        0 <= s,
        s + pchtxt_writer::part_line(base, h, p).len() <= b.len(),
        b.subrange(s, s + pchtxt_writer::part_line(base, h, p).len()) == pchtxt_writer::part_line(
            base,
            h,
            p,
        ),
        st.enabled,
        st.shift == 0,
    ensures
        ({
            let next = s + pchtxt_writer::part_line(base, h, p).len();
            let after = PatchesModel {
                patches: patches::put_all(
                    st.patches,
                    (base + p.start) as u32,
                    h.subrange(p.start as int, p.end as int),
                ),
                ..st
            };
            &&& s < next
            &&& pchtxt::patches_from(b, s, false, st) == pchtxt::patches_from(
                b,
                next,
                false,
                after,
            )
            &&& pchtxt::readable_from(b, s, false, false) == pchtxt::readable_from(
                b,
                next,
                false,
                false,
            )
        }),
{
    let full = pchtxt_writer::part_line(base, h, p);
    let line = bare_line(base, h, p);
    let e = s + line.len();
    assert(full.last() == 0x0a);
    assert(full =~= line.push(0x0a));
    lemma_line_in_line(base, h, p);
    assert forall|k: int| 0 <= k < full.len() implies b[s + k] == full[k] by {
        assert(b.subrange(s, s + full.len())[k] == b[s + k]);
    }
    assert(b.subrange(s, e) =~= line);
    assert forall|k: int| s <= k < e implies #[trigger] b[k] != 0x0a by {
        assert(b[s + (k - s)] == full[k - s]);
        assert(full[k - s] == line[k - s]);
    }
    assert(b[e] == 0x0a) by {
        assert(b[s + line.len()] == full[line.len() as int]);
    }
    assert(b[e - 1] == line.last()) by {
        assert(b[s + (line.len() - 1)] == full[line.len() - 1]);
    }
    lemma_line_found(b, s, e);
    lemma_line(b, s, base, h, p);
    let offset = (base + p.start) as u32;
    assert(offset.checked_add_signed(0i32) == Some(offset));
    assert(offset.wrapping_add_signed(0i32) == offset);
}

/// Reading the lines for the parts of a hunk from `k` on puts in the bytes of these parts.
#[verifier::spinoff_prover]
#[verifier::rlimit(40)]
proof fn lemma_parts_read(
    b: Seq<u8>,
    s: int,
    base: u32,
    h: Seq<u8>,
    ps: Seq<Part>,
    k: int,
    st: PatchesModel,
)
    requires
        0 <= k <= ps.len(),
        h.len() <= PCHTXT_MAX_HUNK_SIZE,
        base + h.len() <= patches::TOP + 1,
        pchtxt_writer::tiles(h, ps, 0, h.len() as int),
        forall|n: int| 0 <= n < ps.len() ==> part_reads_back(h, #[trigger] ps[n]),
        0 <= s,
        s + pchtxt_writer::part_lines(base, h, ps, k).len() <= b.len(),
        b.subrange(s, s + pchtxt_writer::part_lines(base, h, ps, k).len())
            == pchtxt_writer::part_lines(base, h, ps, k),
        st.enabled,
        st.shift == 0,
    ensures
        ({
            let next = s + pchtxt_writer::part_lines(base, h, ps, k).len();
            &&& pchtxt::patches_from(b, s, false, st) == pchtxt::patches_from(
                b,
                next,
                false,
                with_bytes(st, base, h, part_start(h, ps, k)),
            )
            &&& pchtxt::readable_from(b, s, false, false) == pchtxt::readable_from(
                b,
                next,
                false,
                false,
            )
        }),
    decreases ps.len() - k,
{
    let len = h.len() as int;
    let all = pchtxt_writer::part_lines(base, h, ps, k);
    if k < ps.len() {
        let p = ps[k];
        let line = pchtxt_writer::part_line(base, h, p);
        let rest = pchtxt_writer::part_lines(base, h, ps, k + 1);
        assert(all == line + rest);
        assert(b.subrange(s, s + line.len()) =~= line) by {
            assert(b.subrange(s, s + line.len()) =~= b.subrange(s, s + all.len()).subrange(
                0,
                line.len() as int,
            ));
        }
        lemma_part_read(b, s, base, h, p, st);
        let mid = s + line.len();
        let there = patches::put_all(
            st.patches,
            (base + p.start) as u32,
            h.subrange(p.start as int, p.end as int),
        );
        let after = PatchesModel { patches: there, ..st };
        assert(b.subrange(mid, mid + rest.len()) =~= rest) by {
            assert(b.subrange(mid, mid + rest.len()) =~= b.subrange(s, s + all.len()).subrange(
                line.len() as int,
                all.len() as int,
            ));
        }
        lemma_parts_read(b, mid, base, h, ps, k + 1, after);
        assert(part_start(h, ps, k + 1) == p.end) by {
            if k + 1 < ps.len() {
                assert(ps[k].end == ps[k + 1].start);
            }
        }
        let here = h.subrange(p.start as int, p.end as int);
        let then_on = h.subrange(p.end as int, len);
        assert(here + then_on =~= h.subrange(p.start as int, len));
        if p.end < len {
            patches::lemma_put_join(st.patches, (base + p.start) as u32, here, then_on);
        } else {
            assert(then_on =~= Seq::empty());
            assert(here =~= h.subrange(p.start as int, len));
        }
        assert(with_bytes(after, base, h, p.end as int) == with_bytes(
            st,
            base,
            h,
            p.start as int,
        ));
        assert(mid + rest.len() == s + all.len());
    } else {
        assert(h.subrange(len, len) =~= Seq::empty());
        assert(with_bytes(st, base, h, len) == st);
    }
}

/// Reading the lines for a list of hunks puts in the hunks.
#[verifier::spinoff_prover]
#[verifier::rlimit(40)]
proof fn lemma_hunks_read(b: Seq<u8>, s: int, hs: Seq<(u32, Seq<u8>)>, st: PatchesModel)
    requires
        patches::hunks_sound(hs, PCHTXT_MAX_HUNK_SIZE as int),
        forall|i: int| 0 <= i < hs.len() ==> hunk_reads_back((#[trigger] hs[i]).1),
        0 <= s,
        s + pchtxt_writer::all_lines(hs).len() <= b.len(),
        b.subrange(s, s + pchtxt_writer::all_lines(hs).len()) == pchtxt_writer::all_lines(hs),
        st.enabled,
        st.shift == 0,
    ensures
        ({
            let next = s + pchtxt_writer::all_lines(hs).len();
            let after = PatchesModel { patches: patches::put_hunks(st.patches, hs), ..st };
            &&& pchtxt::patches_from(b, s, false, st) == pchtxt::patches_from(
                b,
                next,
                false,
                after,
            )
            &&& pchtxt::readable_from(b, s, false, false) == pchtxt::readable_from(
                b,
                next,
                false,
                false,
            )
        }),
    decreases hs.len(),
{
    let all = pchtxt_writer::all_lines(hs);
    if hs.len() > 0 {
        let before = hs.drop_last();
        let (base, h) = hs.last();
        let lines = pchtxt_writer::all_lines(before);
        let own = pchtxt_writer::hunk_lines(base, h);
        assert(all == lines + own);
        assert forall|i: int| 0 <= i < before.len() implies hunk_reads_back(
            (#[trigger] before[i]).1,
        ) by {
            assert(before[i] == hs[i]);
        }
        assert(patches::hunks_sound(before, PCHTXT_MAX_HUNK_SIZE as int)) by {
            assert forall|i: int| 0 <= i < before.len() implies {
                let g = #[trigger] before[i];
                1 <= g.1.len() <= PCHTXT_MAX_HUNK_SIZE && g.0 + g.1.len() <= patches::TOP + 1
            } by {
                assert(before[i] == hs[i]);
            }
        }
        assert(b.subrange(s, s + lines.len()) =~= lines) by {
            assert(b.subrange(s, s + lines.len()) =~= b.subrange(s, s + all.len()).subrange(
                0,
                lines.len() as int,
            ));
        }
        lemma_hunks_read(b, s, before, st);
        let mid = s + lines.len();
        assert(b.subrange(mid, mid + own.len()) =~= own) by {
            assert(b.subrange(mid, mid + own.len()) =~= b.subrange(s, s + all.len()).subrange(
                lines.len() as int,
                all.len() as int,
            ));
        }
        let last = hs[hs.len() - 1];
        assert(last == (base, h));
        assert(hunk_reads_back(last.1));
        let ps = pchtxt_writer::joined(pchtxt_writer::parts_from(h, 0), 0);
        pchtxt_writer::law_pchtxt_parts_tile(h);
        let after = PatchesModel { patches: patches::put_hunks(st.patches, before), ..st };
        lemma_parts_read(b, mid, base, h, ps, 0, after);
        assert(part_start(h, ps, 0) == 0);
        assert(h.subrange(0, h.len() as int) =~= h);
        assert(mid + own.len() == s + all.len());
    }
}

proof fn lemma_header_len(build_id: BuildId)
    ensures
        ("@nsobid-".spec_bytes() + pchtxt_writer::hex_text(build_id as int, 32)
            + "\n@enabled\n".spec_bytes()).len() == 50,
{
    reveal_strlit("@nsobid-");
    is_ascii_spec_bytes("@nsobid-");
    reveal_strlit("\n@enabled\n");
    is_ascii_spec_bytes("\n@enabled\n");
    reveal_with_fuel(pow16, 33);
    lemma_hex_text(build_id as int, 32);
}

/// The first line names the build.
#[verifier::spinoff_prover]
#[verifier::rlimit(40)]
proof fn lemma_build_line_read(b: Seq<u8>, build_id: BuildId)
    requires
        b.len() > 40,
        b.subrange(0, 8) == "@nsobid-".spec_bytes(),
        b.subrange(8, 40) == pchtxt_writer::hex_text(build_id as int, 32),
        b[40] == 0x0a,
    ensures
        pchtxt::patches_from(b, 0, true, PatchesModel::start()) == pchtxt::patches_from(
            b,
            41,
            false,
            (PatchesModel { build_id: Some(build_id), ..PatchesModel::start() }),
        ),
        pchtxt::readable(b) == pchtxt::readable_from(b, 41, false, false),
{
    let tag = "@nsobid-".spec_bytes();
    let digits = pchtxt_writer::hex_text(build_id as int, 32);
    reveal_strlit("@nsobid-");
    is_ascii_spec_bytes("@nsobid-");
    assert(tag.len() == 8);
    assert(pow16(32) == 0x1_0000_0000_0000_0000_0000_0000_0000_0000int) by {
        reveal_with_fuel(pow16, 33);
    }
    lemma_hex_text(build_id as int, 32);
    assert(digits.subrange(0, 32) =~= digits);
    assert forall|k: int| 8 <= k < 40 implies token::digit_value(#[trigger] b[k]) < 16 by {
        assert(b.subrange(8, 40)[k - 8] == b[k]);
    }
    lemma_hex_run(b, 8, 40);
    lemma_shifted_digits(b, 8, digits, 32);
    assert forall|k: int| 0 <= k < 40 implies #[trigger] b[k] != 0x0a by {
        if k < 8 {
            assert(b.subrange(0, 8)[k] == b[k]);
        } else {
            assert(token::digit_value(b[k]) < 16);
        }
    }
    assert(token::digit_value(b[39]) < 16);
    lemma_line_found(b, 0, 40);
    assert(pchtxt::names_build(b, 0, 40, true));
    assert(pchtxt::line_readable(b, 0, 40, true, false));
    assert(!pchtxt::line_stops(b, 0, 40, true));
}

/// The second line enables what follows.
#[verifier::spinoff_prover]
#[verifier::rlimit(40)]
proof fn lemma_mark_line_read(b: Seq<u8>, st: PatchesModel)
    requires
        b.len() >= 50,
        b.subrange(40, 50) == "\n@enabled\n".spec_bytes(),
    ensures
        pchtxt::patches_from(b, 41, false, st) == pchtxt::patches_from(
            b,
            50,
            false,
            (PatchesModel {
                enabled: true,
                diags: st.diags.push(
                    PchtxtDianostic::PatchEnabled { message: st.comment, at: (41, 8) },
                ),
                ..st
            }),
        ),
        pchtxt::readable_from(b, 41, false, false) == pchtxt::readable_from(b, 50, false, false),
{
    let mark = "\n@enabled\n".spec_bytes();
    reveal_strlit("\n@enabled\n");
    is_ascii_spec_bytes("\n@enabled\n");
    reveal_strlit("nabled");
    is_ascii_spec_bytes("nabled");
    assert("nabled".spec_bytes().len() == 6);
    assert forall|k: int| 40 <= k < 50 implies #[trigger] b[k] == mark[k - 40] by {
        assert(b.subrange(40, 50)[k - 40] == b[k]);
    }
    assert(b[41] == 0x40 && b[42] == 0x65 && b[48] == 0x64 && b[49] == 0x0a);
    lemma_line_found(b, 41, 49);
    let line = pchtxt::line_at(b, 41, 49, false, false);
    assert(line.data is Enable && line.diag is None);
    assert(pchtxt::prefix_fits(b, 43, 49, "nabled".spec_bytes()));
    assert(pchtxt::line_readable(b, 41, 49, false, false));
    assert(!pchtxt::line_stops(b, 41, 49, false));
}

/// The parts of the two lines in front of the hunks.
#[verifier::spinoff_prover]
proof fn lemma_header_parts(b: Seq<u8>, build_id: BuildId)
    requires
        b.len() >= 50,
        b.subrange(0, 50) == "@nsobid-".spec_bytes() + pchtxt_writer::hex_text(
            build_id as int,
            32,
        ) + "\n@enabled\n".spec_bytes(),
    ensures
        b.subrange(0, 8) == "@nsobid-".spec_bytes(),
        b.subrange(8, 40) == pchtxt_writer::hex_text(build_id as int, 32),
        b.subrange(40, 50) == "\n@enabled\n".spec_bytes(),
        b[40] == 0x0a,
{
    let tag = "@nsobid-".spec_bytes();
    let digits = pchtxt_writer::hex_text(build_id as int, 32);
    let mark = "\n@enabled\n".spec_bytes();
    lemma_header_len(build_id);
    assert(tag.len() == 8 && digits.len() == 32 && mark[0] == 0x0a) by {
        reveal_strlit("@nsobid-");
        is_ascii_spec_bytes("@nsobid-");
        reveal_strlit("\n@enabled\n");
        is_ascii_spec_bytes("\n@enabled\n");
        reveal_with_fuel(pow16, 33);
        lemma_hex_text(build_id as int, 32);
    }
    let head = tag + digits + mark;
    assert(b.subrange(0, 8) =~= b.subrange(0, 50).subrange(0, 8));
    assert(head.subrange(0, 8) =~= tag);
    assert(b.subrange(8, 40) =~= b.subrange(0, 50).subrange(8, 40));
    assert(head.subrange(8, 40) =~= digits);
    assert(b.subrange(40, 50) =~= b.subrange(0, 50).subrange(40, 50));
    assert(head.subrange(40, 50) =~= mark);
    assert(b[40] == b.subrange(40, 50)[0]);
}

/// The two lines in front of the hunks: they name the build and enable what follows.
#[verifier::spinoff_prover]
#[verifier::rlimit(100)]
proof fn lemma_header_read(b: Seq<u8>, build_id: BuildId)
    requires
        b.len() >= 50,
        b.subrange(0, 50) == "@nsobid-".spec_bytes() + pchtxt_writer::hex_text(
            build_id as int,
            32,
        ) + "\n@enabled\n".spec_bytes(),
    ensures
        pchtxt::patches_from(b, 0, true, PatchesModel::start()) == pchtxt::patches_from(
            b,
            50,
            false,
            enabled_start(build_id),
        ),
        pchtxt::readable(b) == pchtxt::readable_from(b, 50, false, false),
{
    lemma_header_parts(b, build_id);
    lemma_build_line_read(b, build_id);
    let named = PatchesModel { build_id: Some(build_id), ..PatchesModel::start() };
    lemma_mark_line_read(b, named);
    assert(named.diags.push(
        PchtxtDianostic::PatchEnabled { message: named.comment, at: (41, 8) },
    ) =~= enabled_start(build_id).diags);
}

/// What has been read when the two lines in front of the hunks have been read.
pub open spec fn enabled_start(build_id: BuildId) -> PatchesModel {
    PatchesModel {
        build_id: Some(build_id),
        enabled: true,
        diags: seq![PchtxtDianostic::PatchEnabled { message: Seq::empty(), at: (41, 8) }],
        ..PatchesModel::start()
    }
}

/// A file that was written for a patch and a build can be read, and gives back the patch and the
/// build; all that is said about it is that a patch without a name is enabled. The strings of the
/// patch have to be ones that are read as they are written.
#[verifier::spinoff_prover]
#[verifier::rlimit(40)]
pub proof fn law_pchtxt_file_reads_back(m: Map<u32, u8>, build_id: BuildId)
    requires
        forall|i: int|
            0 <= i < patches::hunks(m, PCHTXT_MAX_HUNK_SIZE as int).len() ==> hunk_reads_back(
                (#[trigger] patches::hunks(m, PCHTXT_MAX_HUNK_SIZE as int)[i]).1,
            ),
    ensures
        pchtxt::readable(pchtxt_writer::pchtxt_file(m, build_id)),
        pchtxt::pchtxt_patches(pchtxt_writer::pchtxt_file(m, build_id)) == (
            (m, build_id),
            seq![PchtxtDianostic::PatchEnabled { message: Seq::<u8>::empty(), at: (41, 8) }],
        ),
{
    let max = PCHTXT_MAX_HUNK_SIZE as int;
    let b = pchtxt_writer::pchtxt_file(m, build_id);
    let hs = patches::hunks(m, max);
    let lines = pchtxt_writer::all_lines(hs);
    let head = "@nsobid-".spec_bytes() + pchtxt_writer::hex_text(build_id as int, 32)
        + "\n@enabled\n".spec_bytes();
    patches::law_hunks_rebuild(m, max);
    lemma_header_len(build_id);
    assert(b == head + lines);
    assert(b.subrange(0, 50) =~= head);
    lemma_header_read(b, build_id);
    assert(b.subrange(50, 50 + lines.len() as int) =~= lines);
    lemma_hunks_read(b, 50, hs, enabled_start(build_id));
}

} // verus!
