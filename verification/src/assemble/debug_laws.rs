//! What stands in a patch text file that carries its source.

use crate::assemble;
use crate::assemble::debug;
use crate::assemble::debug::ReplyModel;
use crate::assemble::AssembleDiagnostic;
use crate::numbers;
use crate::option::BuildId;
use crate::parse::types::CodeModel;
use crate::pchtxt;
use crate::pchtxt::{PchtxtFlag, PchtxtLineData};
use crate::pchtxt_words;
use crate::pchtxt_writer;
use crate::preprocessor::token;
use crate::text;
use vstd::prelude::*;
use vstd::string::*;

verus! {

// ---------------------------------------------------------------------------------------------
// Digits

proof fn lemma_digit_written(n: int)
    requires
        0 <= n < 16,
    ensures
        pchtxt_words::nibble(pchtxt_writer::hex_digit(n)) == Some(n),
{
}

proof fn lemma_hex_text(n: int, d: nat)
    requires
        0 <= n < pchtxt_words::hex_range(d),
    ensures
        ({
            let t = pchtxt_writer::hex_text(n, d);
            &&& t.len() == d
            &&& pchtxt_words::all_hex(t, 0, d as int)
            &&& pchtxt_words::hex_number(t, 0, d as int) == n
        }),
    decreases d,
{
    if d > 0 {
        let t = pchtxt_writer::hex_text(n, d);
        let init = pchtxt_writer::hex_text(n / 16, (d - 1) as nat);
        lemma_hex_text(n / 16, (d - 1) as nat);
        lemma_digit_written(n % 16);
        assert forall|k: int| 0 <= k < d implies (#[trigger] pchtxt_words::nibble(t[k])) is Some by {
            if k < d - 1 {
                assert(t[k] == init[k]);
                assert(pchtxt_words::nibble(init[k]) is Some);
            }
        }
        lemma_same_number(t, init, 0, 0, d - 1);
    }
}

proof fn lemma_same_number(a: Seq<u8>, b: Seq<u8>, i: int, j: int, n: int)
    requires
        0 <= n,
        0 <= i,
        0 <= j,
        i + n <= a.len(),
        j + n <= b.len(),
        forall|k: int| 0 <= k < n ==> #[trigger] a[i + k] == b[j + k],
    ensures
        pchtxt_words::hex_number(a, i, i + n) == pchtxt_words::hex_number(b, j, j + n),
    decreases n,
{
    if n > 0 {
        lemma_same_number(a, b, i, j, n - 1);
        assert(a[i + (n - 1)] == b[j + (n - 1)]);
    }
}

proof fn lemma_hex_bytes(h: Seq<u8>, i: int, j: int)
    requires
        0 <= i <= j <= h.len(),
    ensures
        ({
            let t = pchtxt_writer::hex_bytes(h, i, j);
            &&& t.len() == 2 * (j - i)
            &&& pchtxt_words::all_hex(t, 0, t.len() as int)
            &&& forall|k: int|
                0 <= k < j - i ==> #[trigger] h[i + k] == 16 * pchtxt_words::nibble(t[2 * k])->0
                    + pchtxt_words::nibble(t[2 * k + 1])->0
        }),
    decreases j - i,
{
    let t = pchtxt_writer::hex_bytes(h, i, j);
    if i < j {
        lemma_hex_bytes(h, i + 1, j);
        let rest = pchtxt_writer::hex_bytes(h, i + 1, j);
        let x = h[i] as int;
        reveal_with_fuel(pchtxt_writer::hex_text, 3);
        lemma_digit_written(x % 16);
        lemma_digit_written(x / 16);
        let two = pchtxt_writer::hex_text(x, 2);
        assert(x / 16 % 16 == x / 16);
        assert(two =~= seq![pchtxt_writer::hex_digit(x / 16), pchtxt_writer::hex_digit(x % 16)]);
        assert(t == two + rest);
        assert forall|k: int| 0 <= k < t.len() implies (#[trigger] pchtxt_words::nibble(
            t[k],
        )) is Some by {
            if k >= 2 {
                assert(t[k] == rest[k - 2]);
                assert(pchtxt_words::nibble(rest[k - 2]) is Some);
            }
        }
        assert forall|k: int| 0 <= k < j - i implies #[trigger] h[i + k] == 16
            * pchtxt_words::nibble(t[2 * k])->0 + pchtxt_words::nibble(t[2 * k + 1])->0 by {
            if k > 0 {
                assert(h[i + 1 + (k - 1)] == h[i + k]);
                assert(t[2 * k] == rest[2 * (k - 1)]);
                assert(t[2 * k + 1] == rest[2 * (k - 1) + 1]);
            }
        }
    }
}

// ---------------------------------------------------------------------------------------------
// Lines

/// The line for code: its address, its bytes, and its source.
pub open spec fn written_line(address: u32, bytes: Seq<u8>, source: Seq<u8>) -> Seq<u8> {
    pchtxt_writer::hex_text(address as int, 8) + " ".spec_bytes() + pchtxt_writer::hex_bytes(
        bytes,
        0,
        bytes.len() as int,
    ) + " // ".spec_bytes() + source
}

/// A line for bytes is read as these bytes at the address, with the source as a comment behind
/// them.
#[verifier::spinoff_prover]
#[verifier::rlimit(60)]
pub proof fn law_line_reads_back(address: u32, bytes: Seq<u8>, source: Seq<u8>)
    requires
        bytes.len() > 0,
        written_line(address, bytes, source).len() <= usize::MAX,
    ensures
        ({
            let b = written_line(address, bytes, source);
            let e = b.len() as int;
            let m = pchtxt::line_at(b, 0, e, false, false);
            let p = 9 + 2 * bytes.len();
            &&& m.diag is None
            &&& m.data == (PchtxtLineData::Patch { offset: address, patch: bytes, is_string: false })
            &&& m.rest == (p as usize, e as usize)
            &&& b.subrange(p as int, e) == seq![0x20u8, 0x2f, 0x2f, 0x20] + source
        }),
{
    reveal_strlit(" ");
    is_ascii_spec_bytes(" ");
    assert(" ".spec_bytes() =~= seq![0x20u8]);
    reveal_strlit(" // ");
    is_ascii_spec_bytes(" // ");
    assert(" // ".spec_bytes() =~= seq![0x20u8, 0x2f, 0x2f, 0x20]);
    reveal_with_fuel(pchtxt_words::hex_range, 9);
    let head = pchtxt_writer::hex_text(address as int, 8);
    lemma_hex_text(address as int, 8);
    let n = bytes.len() as int;
    let digits = pchtxt_writer::hex_bytes(bytes, 0, n);
    lemma_hex_bytes(bytes, 0, n);
    let b = written_line(address, bytes, source);
    let e = b.len() as int;
    let p = 9 + 2 * n;
    assert forall|k: int| 0 <= k < 8 implies (#[trigger] pchtxt_words::nibble(b[k])) is Some by {
        assert(b[k] == head[k]);
        assert(pchtxt_words::nibble(head[k]) is Some);
    }
    assert forall|k: int| 9 <= k < p implies (#[trigger] pchtxt_words::nibble(b[k])) is Some by {
        assert(b[k] == digits[k - 9]);
        assert(pchtxt_words::nibble(digits[k - 9]) is Some);
    }
    assert(pchtxt_words::nibble(b[9]) is Some);
    lemma_same_number(b, head, 0, 0, 8);
    assert(b[p] == 0x20);
    assert forall|k: int| 9 <= k < p implies !pchtxt_words::ends_value(#[trigger] b[k]) by {
        assert(pchtxt_words::nibble(b[k]) is Some);
    }
    pchtxt_words::law_digit_patch(b, 0, p, e, p, false);
    let m = pchtxt::line_at(b, 0, e, false, false);
    assert(m.data is Patch);
    let patch = m.data->patch;
    assert forall|k: int| 0 <= k < n implies #[trigger] patch[k] == bytes[k] by {
        assert(bytes[0 + k] == 16 * pchtxt_words::nibble(digits[2 * k])->0 + pchtxt_words::nibble(
            digits[2 * k + 1],
        )->0);
        assert(b[9 + 2 * k] == digits[2 * k]);
        assert(b[9 + 2 * k + 1] == digits[2 * k + 1]);
    }
    assert(patch =~= bytes);
    assert(b.subrange(p, e) =~= seq![0x20u8, 0x2f, 0x2f, 0x20] + source);
}

/// What an instruction puts into the file: the source before its line as comments, and its line
/// with the bytes that it stands for. These are the bytes of data, or those that came for the
/// instruction: the reply with as many replies before it as there are instructions.
pub proof fn law_debug_lines(b: Seq<u8>, code: Seq<CodeModel>, replies: Seq<ReplyModel>, n: int)
    requires
        0 < n <= code.len(),
        0 <= code[n - 1].line_span.offset,
        !(code[n - 1].instruction is String),
    ensures
        ({
            let c = code[n - 1];
            let from = c.line_span.offset as int;
            let source = b.subrange(from, from + c.line_span.len);
            let before = debug::debug_lines(b, code, replies, n - 1);
            let gap = debug::comments(b, debug::line_end(code, n - 1), from);
            let after = debug::debug_lines(b, code, replies, n);
            &&& !(c.instruction is Asm) ==> after == before + gap + written_line(
                c.address,
                assemble::data_bytes(c.instruction),
                source,
            )
            &&& c.instruction is Asm ==> (replies[debug::asm_count(code, n - 1)] matches Ok(bytes)
                ==> after == before + gap + written_line(c.address, bytes, source))
        }),
{
    let c = code[n - 1];
    let from = c.line_span.offset as int;
    let source = b.subrange(from, from + c.line_span.len);
    let before = debug::debug_lines(b, code, replies, n - 1);
    let gap = debug::comments(b, debug::line_end(code, n - 1), from);
    let after = debug::debug_lines(b, code, replies, n);
    if c.instruction is Asm {
        if replies[debug::asm_count(code, n - 1)] is Ok {
            let bytes = replies[debug::asm_count(code, n - 1)]->Ok_0;
            assert(after =~= before + gap + written_line(c.address, bytes, source));
        }
    } else {
        let bytes = assemble::data_bytes(c.instruction);
        assert(after =~= before + gap + written_line(c.address, bytes, source));
    }
}

/// The source between two lines of code becomes comments line by line: two slashes and a space
/// before a line, a line break behind it, and no carriage return; an empty line stays empty.
pub proof fn law_comments(b: Seq<u8>, i: int, n: int, end: int)
    requires
        0 <= i <= n < end <= b.len(),
        b[n] == 0x0a,
        forall|k: int| i <= k < n ==> #[trigger] b[k] != 0x0a,
    ensures
        ({
            let e = if i < n && b[n - 1] == 0x0d {
                n - 1
            } else {
                n
            };
            let rest = debug::comments(b, n + 1, end);
            &&& e == i ==> debug::comments(b, i, end) == seq![0x0au8] + rest
            &&& e > i ==> debug::comments(b, i, end) == seq![0x2fu8, 0x2f, 0x20] + b.subrange(i, e)
                + seq![0x0au8] + rest
        }),
{
    text::lemma_find_byte(b, 0x0a, i, end);
    let f = text::find_byte(b, 0x0a, i, end);
    if f < n {
        assert(b[f] != 0x0a);
    }
    reveal_strlit("\n");
    is_ascii_spec_bytes("\n");
    assert("\n".spec_bytes() =~= seq![0x0au8]);
    reveal_strlit("// ");
    is_ascii_spec_bytes("// ");
    assert("// ".spec_bytes() =~= seq![0x2fu8, 0x2f, 0x20]);
}

spec fn head_tail() -> Seq<u8> {
    seq![
        0x0au8, 0x40, 0x66, 0x6c, 0x61, 0x67, 0x20, 0x6f, 0x66, 0x66, 0x73, 0x65, 0x74, 0x5f, 0x73,
        0x68, 0x69, 0x66, 0x74, 0x20, 0x30, 0x78, 0x31, 0x30, 0x30, 0x0a, 0x40, 0x65, 0x6e, 0x61,
        0x62, 0x6c, 0x65, 0x64, 0x0a, 0x0a,
    ]
}

proof fn lemma_head(build_id: BuildId)
    ensures
        ({
            let b = debug::debug_head(build_id);
            let hex = pchtxt_writer::hex_text(build_id as int, 32);
            &&& hex.len() == 32
            &&& b == seq![0x40u8, 0x6e, 0x73, 0x6f, 0x62, 0x69, 0x64, 0x2d] + hex + head_tail()
        }),
{
    reveal_strlit("@nsobid-");
    is_ascii_spec_bytes("@nsobid-");
    let word = seq![0x40u8, 0x6e, 0x73, 0x6f, 0x62, 0x69, 0x64, 0x2d];
    assert("@nsobid-".spec_bytes() =~= word);
    reveal_strlit("\n@flag offset_shift 0x100\n@enabled\n\n");
    is_ascii_spec_bytes("\n@flag offset_shift 0x100\n@enabled\n\n");
    assert("\n@flag offset_shift 0x100\n@enabled\n\n".spec_bytes() =~= head_tail());
    lemma_range32();
    lemma_hex_text(build_id as int, 32);
}

proof fn lemma_head_build(b: Seq<u8>, hex: Seq<u8>, build_id: BuildId)
    requires
        hex == pchtxt_writer::hex_text(build_id as int, 32),
        b == seq![0x40u8, 0x6e, 0x73, 0x6f, 0x62, 0x69, 0x64, 0x2d] + hex + head_tail(),
    ensures
        pchtxt::line_at(b, 0, 40, true, false).data == PchtxtLineData::<Seq<u8>>::BuildId(build_id),
{
    let word = seq![0x40u8, 0x6e, 0x73, 0x6f, 0x62, 0x69, 0x64, 0x2d];
    lemma_range32();
    lemma_hex_text(build_id as int, 32);
    assert(b.subrange(0, 8) =~= word);
    assert forall|k: int| 8 <= k < 40 implies (#[trigger] pchtxt_words::nibble(b[k])) is Some by {
        assert(b[k] == hex[k - 8]);
        assert(pchtxt_words::nibble(hex[k - 8]) is Some);
    }
    assert forall|k: int| 0 <= k < 32 implies #[trigger] b[8 + k] == hex[0 + k] by {}
    lemma_same_number(b, hex, 8, 0, 32);
    pchtxt_words::law_build_line(b, 40, 40);
}

proof fn lemma_head_shift(b: Seq<u8>)
    requires
        b.len() == 76,
        b.subrange(40, 76) == head_tail(),
    ensures
        pchtxt::line_at(b, 41, 65, false, false).data == PchtxtLineData::<Seq<u8>>::Flag(
            PchtxtFlag::OffsetShift(0x100),
        ),
{
    let tail = head_tail();
    assert forall|k: int| 40 <= k < 76 implies #[trigger] b[k] == tail[k - 40] by {
        assert(b.subrange(40, 76)[k - 40] == b[k]);
    }
    let w = pchtxt_words::shift_word();
    assert forall|k: int| 0 <= k < w.len() implies pchtxt_words::is_letter(
        #[trigger] b[47 + k],
        w[k],
    ) by {
        assert(b[47 + k] == tail[7 + k]);
        assert(tail[7 + k] == w[k]);
    }
    let value = seq![0x30u8, 0x78, 0x31, 0x30, 0x30];
    assert(b.subrange(60, 65) =~= value);
    lemma_shift_value(value);
    assert forall|k: int| 60 <= k < 65 implies !pchtxt_words::ends_value(#[trigger] b[k]) by {
        assert(b.subrange(60, 65)[k - 60] == b[k]);
    }
    pchtxt_words::law_shift_line(b, 41, 65, 65, false);
}

/// The head of the file names the build, shifts the addresses by the length of the header of a
/// program, and enables the patches.
pub proof fn law_head(build_id: BuildId)
    ensures
        ({
            let b = debug::debug_head(build_id);
            &&& b.len() == 76
            &&& b[40] == 0x0a && b[65] == 0x0a && b[74] == 0x0a && b[75] == 0x0a
            &&& pchtxt::line_at(b, 0, 40, true, false).data == PchtxtLineData::<Seq<u8>>::BuildId(
                build_id,
            )
            &&& pchtxt::line_at(b, 41, 65, false, false).data == PchtxtLineData::<Seq<u8>>::Flag(
                PchtxtFlag::OffsetShift(0x100),
            )
            &&& pchtxt::line_at(b, 66, 74, false, false).data is Enable
        }),
{
    let b = debug::debug_head(build_id);
    let hex = pchtxt_writer::hex_text(build_id as int, 32);
    lemma_head(build_id);
    let tail = head_tail();
    assert(b.subrange(40, 76) =~= tail);
    assert forall|k: int| 40 <= k < 76 implies #[trigger] b[k] == tail[k - 40] by {}
    lemma_head_build(b, hex, build_id);
    lemma_head_shift(b);
    assert(!pchtxt::names_build(b, 66, 74, false));
    pchtxt_words::law_line_kinds(b, 66, 74, false, false);
}

proof fn lemma_shift_value(t: Seq<u8>)
    requires
        t == seq![0x30u8, 0x78, 0x31, 0x30, 0x30],
    ensures
        numbers::plain_value(t) == Some(0x100int),
{
    reveal_with_fuel(numbers::grouped_value, 5);
    assert(t[2] != 0x5f);
    assert(numbers::prefix_of(t) == (2int, 16int));
    assert(token::digit_value(t[2]) == 1);
}

proof fn lemma_range32()
    ensures
        pchtxt_words::hex_range(32) == 0x1_0000_0000_0000_0000_0000_0000_0000_0000int,
{
    reveal_with_fuel(pchtxt_words::hex_range, 33);
}

/// The file is its head, what the lines of code put into it, and the rest of the source as
/// comments. The source before each line of code starts where the line before it ends.
pub proof fn law_debug_file(
    b: Seq<u8>,
    build_id: BuildId,
    code: Seq<CodeModel>,
    replies: Seq<ReplyModel>,
)
    ensures
        ({
            let n = code.len() as int;
            let end = if n == 0 {
                0
            } else {
                code[n - 1].line_span.offset + code[n - 1].line_span.len
            };
            debug::debug_file(b, build_id, code, replies) == debug::debug_head(build_id)
                + debug::debug_lines(b, code, replies, n) + debug::comments(b, end, b.len() as int)
        }),
        debug::debug_lines(b, code, replies, 0).len() == 0,
{
}

// ---------------------------------------------------------------------------------------------
// Requests

/// What is asked for an instruction: its line behind the definitions of the labels, for its
/// address.
pub open spec fn is_request(r: (Seq<u8>, u32), c: CodeModel, prefix: Seq<u8>) -> bool {
    c.instruction is Asm && r.0 == prefix + (c.instruction->Asm_0) && r.1 == c.address
}

/// The instructions among the first `n` are asked for in their order, each with the definitions of
/// the labels before it and for its own address.
pub proof fn law_requests_in_order(
    code: Seq<CodeModel>,
    prefix: Seq<u8>,
    n: int,
) -> (at: Seq<int>)
    requires
        0 <= n <= code.len(),
    ensures
        ({
            let asked = debug::debug_requests(code, prefix, n);
            &&& asked.len() == at.len()
            &&& at.len() == debug::asm_count(code, n)
            &&& forall|k: int| 0 <= k < at.len() ==> 0 <= #[trigger] at[k] < n
            &&& forall|j: int, k: int|
                0 <= j < k < at.len() ==> #[trigger] at[j] < #[trigger] at[k]
            &&& forall|k: int|
                0 <= k < at.len() ==> is_request(#[trigger] asked[k], code[at[k]], prefix)
            &&& forall|i: int|
                0 <= i < n && (#[trigger] code[i]).instruction is Asm ==> at.contains(i)
        }),
    decreases n,
{
    if n == 0 {
        Seq::empty()
    } else {
        let before = law_requests_in_order(code, prefix, n - 1);
        if code[n - 1].instruction is Asm {
            let at = before.push(n - 1);
            assert forall|i: int|
                0 <= i < n && (#[trigger] code[i]).instruction is Asm implies at.contains(i) by {
                if i == n - 1 {
                    assert(at[before.len() as int] == i);
                } else {
                    assert(before.contains(i));
                    let k = choose|k: int| 0 <= k < before.len() && before[k] == i;
                    assert(at[k] == i);
                }
            }
            let asked = debug::debug_requests(code, prefix, n);
            let early = debug::debug_requests(code, prefix, n - 1);
            assert forall|k: int| 0 <= k < at.len() implies is_request(
                #[trigger] asked[k],
                code[at[k]],
                prefix,
            ) by {
                if k < before.len() {
                    assert(asked[k] == early[k]);
                    assert(at[k] == before[k]);
                }
            }
            at
        } else {
            before
        }
    }
}

/// One more line of code adds a diagnostic exactly where it is an instruction whose reply is an
/// error: with the message of that reply, at the place of the instruction.
pub proof fn law_debug_diagnostics(code: Seq<CodeModel>, replies: Seq<ReplyModel>, n: int)
    requires
        0 < n <= code.len(),
    ensures
        ({
            let c = code[n - 1];
            let before = debug::debug_diagnostics(code, replies, n - 1);
            let after = debug::debug_diagnostics(code, replies, n);
            let reply = replies[debug::asm_count(code, n - 1)];
            &&& c.instruction is Asm && reply is Err ==> after.len() == before.len() + 1
                && after.drop_last() == before && after.last() == (AssembleDiagnostic::InvalidAsm {
                message: reply->Err_0,
                at: c.instruction_span,
            })
            &&& !(c.instruction is Asm) || reply is Ok ==> after == before
        }),
{
    let before = debug::debug_diagnostics(code, replies, n - 1);
    let after = debug::debug_diagnostics(code, replies, n);
    if after.len() > before.len() {
        assert(after.drop_last() =~= before);
    }
}

} // verus!
