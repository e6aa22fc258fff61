//! How the parts of a hunk stand on the lines of a patch text file.

use crate::pchtxt_writer;
use crate::pchtxt_writer::Part;
use crate::zip_laws;
use vstd::prelude::*;

verus! {

proof fn lemma_escaped_len(h: Seq<u8>, i: int, j: int)
    requires
        0 <= i <= j <= h.len(),
    ensures
        pchtxt_writer::escaped(h, i, j).len() == (j - i) + pchtxt_writer::escapes(h, i, j),
    decreases j - i,
{
    if i < j {
        lemma_escaped_len(h, i + 1, j);
    }
}

proof fn lemma_hex_len(n: int, d: nat)
    ensures
        pchtxt_writer::hex_text(n, d).len() == d,
    decreases d,
{
    if d > 0 {
        lemma_hex_len(n / 16, (d - 1) as nat);
    }
}

proof fn lemma_hex_bytes_len(h: Seq<u8>, i: int, j: int)
    requires
        0 <= i <= j <= h.len(),
    ensures
        pchtxt_writer::hex_bytes(h, i, j).len() == 2 * (j - i),
    decreases j - i,
{
    if i < j {
        lemma_hex_bytes_len(h, i + 1, j);
        lemma_hex_len(h[i] as int, 2);
    }
}

/// A part of a hunk that is measured as it is written.
pub open spec fn is_part(h: Seq<u8>, p: Part) -> bool {
    &&& p.start < p.end <= h.len()
    &&& 2 * h.len() + 2 <= usize::MAX
    &&& p.text is Some ==> p.text == pchtxt_writer::text_len(h, p.start as int, p.end as int)
}

/// A part is as long as what is written for it, and its line has ten bytes more: eight digits of
/// the address, a space and a line feed.
pub proof fn law_part_size(base: u32, h: Seq<u8>, p: Part)
    requires
        is_part(h, p),
    ensures
        pchtxt_writer::part_body(h, p).len() == pchtxt_writer::part_size(p),
        pchtxt_writer::part_line(base, h, p).len() == pchtxt_writer::part_size(p) + 10,
        pchtxt_writer::part_line(base, h, p)[8] == 0x20,
        pchtxt_writer::part_line(base, h, p).last() == 0x0a,
{
    lemma_hex_bytes_len(h, p.start as int, p.end as int);
    lemma_hex_len(base + p.start, 8);
    if p.text is Some {
        lemma_escaped_len(h, p.start as int, p.end - 1);
        lemma_escapes_bound(h, p.start as int, p.end - 1);
    }
}

proof fn lemma_escapes_bound(h: Seq<u8>, i: int, j: int)
    requires
        0 <= i <= j <= h.len(),
    ensures
        0 <= pchtxt_writer::escapes(h, i, j) <= j - i,
    decreases j - i,
{
    if i < j {
        lemma_escapes_bound(h, i + 1, j);
    }
}

/// Two neighbouring parts are joined exactly where one line of digits for both is shorter than
/// their two lines.
pub proof fn law_join(base: u32, h: Seq<u8>, a: Part, b: Part)
    requires
        is_part(h, a),
        is_part(h, b),
        a.end == b.start,
    ensures
        ({
            let both = Part { start: a.start, end: b.end, text: None };
            pchtxt_writer::shorter_joined(a, b) <==> pchtxt_writer::part_line(base, h, both).len()
                < pchtxt_writer::part_line(base, h, a).len() + pchtxt_writer::part_line(
                base,
                h,
                b,
            ).len()
        }),
{
    let both = Part { start: a.start, end: b.end, text: None };
    law_part_size(base, h, a);
    law_part_size(base, h, b);
    law_part_size(base, h, both);
}

/// Digits are written in upper case.
pub proof fn law_upper_case(n: int, d: nat)
    requires
        n >= 0,
    ensures
        zip_laws::is_hex(pchtxt_writer::hex_text(n, d)),
        pchtxt_writer::hex_text(n, d).len() == d,
    decreases d,
{
    if d > 0 {
        law_upper_case(n / 16, (d - 1) as nat);
        let t = pchtxt_writer::hex_text(n, d);
        let init = pchtxt_writer::hex_text(n / 16, (d - 1) as nat);
        assert forall|k: int| 0 <= k < t.len() implies 0x30 <= #[trigger] t[k] <= 0x39 || 0x41
            <= t[k] <= 0x46 by {
            if k < init.len() {
                assert(t[k] == init[k]);
            }
        }
    }
}

/// The part of a hunk behind a zero ends with the next zero, or with the hunk. Where it can be
/// written as text, it is measured so.
pub proof fn law_parts_end_with_zero(h: Seq<u8>, i: int, e: int)
    requires
        0 <= i < e <= h.len(),
        forall|k: int| i <= k < e - 1 ==> #[trigger] h[k] != 0,
        h[e - 1] == 0 || e == h.len(),
    ensures
        pchtxt_writer::zero_end(h, i) == e,
        pchtxt_writer::is_text(h, i, e) ==> pchtxt_writer::parts_from(h, i) == seq![
            Part {
                start: i as usize,
                end: e as usize,
                text: pchtxt_writer::text_len(h, i, e),
            },
        ] + pchtxt_writer::parts_from(h, e),
{
    crate::text::lemma_find_byte(h, 0, i, h.len() as int);
    let f = crate::text::find_byte(h, 0, i, h.len() as int);
    if f < e - 1 {
        assert(h[f] != 0);
    }
}

/// The escapes of a string are those of C, each with the letter that it is read back by; only the
/// vertical tab has a letter that is not read back.
pub proof fn law_escape_letters(x: u8)
    ensures
        pchtxt_writer::escape_letter(0x0b) == Some(0x76u8),
        match pchtxt_writer::escape_letter(x) {
            Some(l) => x != 0x0b ==> crate::pchtxt_words::is_escape(l, x),
            None => x != 0x5c && x != 0x07 && x != 0x08 && x != 0x0c && x != 0x0a && x != 0x0d && x
                != 0x09 && x != 0x22,
        },
{
}

} // verus!
