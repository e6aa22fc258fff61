//! What an assembler asks for, and what stands in the patch that it makes.

use crate::assemble;
use crate::assemble::{AssembleDiagnostic, AssemblerModel, Wait};
use crate::numbers;
use crate::parse::types::CodeModel;
use crate::patches;
use crate::source_laws;
use crate::text;
use vstd::prelude::*;
use vstd::string::*;

verus! {

// ---------------------------------------------------------------------------------------------
// Requests

/// Lines, each with a line break behind it.
pub open spec fn ended_lines(lines: Seq<Seq<u8>>) -> Seq<u8>
    decreases lines.len(),
{
    if lines.len() == 0 {
        Seq::empty()
    } else {
        ended_lines(lines.drop_last()) + lines.last() + seq![0x0au8]
    }
}

/// A line gives a name a value: the name, an equals sign, and a number in decimal without leading
/// zeros.
pub open spec fn is_definition(line: Seq<u8>, name: Seq<u8>, value: int) -> bool {
    let n = name.len() as int;
    let digits = line.subrange(n + 1, line.len() as int);
    &&& line.len() > n + 1
    &&& line.subrange(0, n) == name
    &&& line[n] == 0x3d
    &&& forall|k: int| 0 <= k < digits.len() ==> 0x30 <= #[trigger] digits[k] <= 0x39
    &&& digits.len() > 1 ==> digits[0] != 0x30
    &&& numbers::plain_value(digits) == Some(value)
}

proof fn lemma_digit_text(d: int)
    requires
        0 <= d < 10,
    ensures
        text::digit_text(d) == seq![(0x30 + d) as u8],
{
    reveal_strlit("0");
    is_ascii_spec_bytes("0");
    reveal_strlit("1");
    is_ascii_spec_bytes("1");
    reveal_strlit("2");
    is_ascii_spec_bytes("2");
    reveal_strlit("3");
    is_ascii_spec_bytes("3");
    reveal_strlit("4");
    is_ascii_spec_bytes("4");
    reveal_strlit("5");
    is_ascii_spec_bytes("5");
    reveal_strlit("6");
    is_ascii_spec_bytes("6");
    reveal_strlit("7");
    is_ascii_spec_bytes("7");
    reveal_strlit("8");
    is_ascii_spec_bytes("8");
    reveal_strlit("9");
    is_ascii_spec_bytes("9");
    assert(text::digit_text(d) =~= seq![(0x30 + d) as u8]);
}

proof fn lemma_decimal(n: nat)
    ensures
        ({
            let s = assemble::decimal(n);
            &&& s.len() > 0
            &&& s.len() >= 2 ==> s[0] != 0x30
            &&& n > 0 ==> s[0] != 0x30
            &&& forall|k: int| 0 <= k < s.len() ==> 0x30 <= #[trigger] s[k] <= 0x39
            &&& numbers::grouped_value(s, 0, s.len() as int, 10) == Some(n as int)
            &&& numbers::plain_value(s) == Some(n as int)
        }),
    decreases n,
{
    let s = assemble::decimal(n);
    if n < 10 {
        lemma_digit_text(n as int);
        reveal_with_fuel(numbers::grouped_value, 2);
        assert(s[0] != 0x5f);
    } else {
        lemma_decimal(n / 10);
        lemma_digit_text((n % 10) as int);
        let init = assemble::decimal(n / 10);
        assert(s =~= init.push((0x30 + n % 10) as u8));
        source_laws::lemma_same_grouped(s, init, 0, init.len() as int, 10);
        assert(s[0] == init[0]);
        assert forall|k: int| 0 <= k < s.len() implies 0x30 <= #[trigger] s[k] <= 0x39 by {
            if k < init.len() {
                assert(s[k] == init[k]);
            }
        }
        assert(s[0] != 0x5f);
    }
}

/// The text before the instructions of every request defines the labels, each on a line of its
/// own and in their order, with the address that the label has in the code.
pub proof fn law_labels_are_defined(labels: Seq<(Seq<u8>, u32)>, n: int) -> (lines: Seq<Seq<u8>>)
    requires
        0 <= n <= labels.len(),
    ensures
        lines.len() == n,
        assemble::label_lines(labels, n) == ended_lines(lines),
        forall|k: int|
            0 <= k < n ==> is_definition(
                #[trigger] lines[k],
                labels[k].0,
                labels[k].1 as int,
            ),
    decreases n,
{
    if n == 0 {
        Seq::empty()
    } else {
        let before = law_labels_are_defined(labels, n - 1);
        let name = labels[n - 1].0;
        let digits = assemble::decimal(labels[n - 1].1 as nat);
        let line = name + seq![0x3du8] + digits;
        let lines = before.push(line);
        lemma_decimal(labels[n - 1].1 as nat);
        reveal_strlit("=");
        is_ascii_spec_bytes("=");
        reveal_strlit("\n");
        is_ascii_spec_bytes("\n");
        assert("=".spec_bytes() =~= seq![0x3du8]);
        assert("\n".spec_bytes() =~= seq![0x0au8]);
        assert(lines.drop_last() =~= before);
        assert(assemble::label_lines(labels, n) =~= ended_lines(lines));
        assert(line.subrange(0, name.len() as int) =~= name);
        assert(line.subrange(name.len() as int + 1, line.len() as int) =~= digits);
        lines
    }
}

/// The texts of the instructions `i..j`.
pub open spec fn instruction_texts(code: Seq<CodeModel>, i: int, j: int) -> Seq<Seq<u8>> {
    Seq::new((j - i) as nat, |k: int| code[i + k].instruction->Asm_0)
}

proof fn lemma_joined(code: Seq<CodeModel>, i: int, j: int)
    requires
        0 <= i < j <= code.len(),
    ensures
        assemble::joined_lines(code, i, j) + seq![0x0au8] == ended_lines(
            instruction_texts(code, i, j),
        ),
    decreases j - i,
{
    let lines = instruction_texts(code, i, j);
    reveal_strlit("\n");
    is_ascii_spec_bytes("\n");
    assert("\n".spec_bytes() =~= seq![0x0au8]);
    if i + 1 == j {
        assert(lines.drop_last() =~= Seq::empty());
        assert(ended_lines(lines.drop_last()) =~= Seq::<u8>::empty());
    } else {
        lemma_joined(code, i, j - 1);
        assert(lines.drop_last() =~= instruction_texts(code, i, j - 1));
    }
    assert(assemble::joined_lines(code, i, j) + seq![0x0au8] =~= ended_lines(lines));
}

/// What an assembler waits for is the definitions of the labels and the lines of a run of
/// instructions, for the address of the first of them, or one line of such a run, for its own
/// address.
pub proof fn law_request(m: AssemblerModel)
    requires
        m.sound(),
    ensures
        match m.wait {
            Wait::Done => m.request() is None,
            Wait::Group { len } => m.request() matches Some((source, address)) && source
                + seq![0x0au8] == m.prefix + ended_lines(
                instruction_texts(m.code, m.at, m.at + len),
            ) && address == m.code[m.at].address,
            Wait::Line { len, line } => m.request() matches Some((source, address)) && source
                == m.prefix + (m.code[m.at + line].instruction->Asm_0) && address == m.code[m.at
                + line].address,
        },
{
    match m.wait {
        Wait::Group { len } => {
            lemma_joined(m.code, m.at, m.at + len);
            let j = assemble::joined_lines(m.code, m.at, m.at + len);
            assert(m.prefix + j + seq![0x0au8] =~= m.prefix + (j + seq![0x0au8]));
        },
        _ => {},
    }
}

/// The first request for some code defines its labels with the addresses that they have, on the
/// lines before the instructions.
pub proof fn law_first_request(code: Seq<CodeModel>, labels: Seq<(Seq<u8>, u32)>) -> (lines: Seq<
    Seq<u8>,
>)
    requires
        code.len() <= usize::MAX,
    ensures
        lines.len() == labels.len(),
        forall|k: int|
            0 <= k < labels.len() ==> is_definition(
                #[trigger] lines[k],
                labels[k].0,
                labels[k].1 as int,
            ),
        ({
            let m = assemble::started(code, labels);
            &&& m.request() matches Some((source, address)) ==> {
                let end = assemble::group_end(code, m.at, m.at + 1);
                &&& 0 <= m.at < end <= code.len()
                &&& source + seq![0x0au8] == ended_lines(lines) + ended_lines(
                    instruction_texts(code, m.at, end),
                )
                &&& address == code[m.at].address
            }
            &&& m.request() is None <==> forall|i: int|
                0 <= i < code.len() ==> !((#[trigger] code[i]).instruction is Asm)
        }),
{
    let start = AssemblerModel {
        code,
        prefix: assemble::label_lines(labels, labels.len() as int),
        at: 0,
        wait: Wait::Done,
        patch: Map::empty(),
        diags: Seq::empty(),
    };
    let m = assemble::started(code, labels);
    assemble::law_settle_is_sound(start, 0, Map::empty());
    law_request(m);
    lemma_settled_before(code, 0, Map::empty());
    law_labels_are_defined(labels, labels.len() as int)
}

proof fn lemma_settled_before(code: Seq<CodeModel>, at: int, patch: Map<u32, u8>)
    requires
        0 <= at <= code.len(),
    ensures
        ({
            let n = assemble::settled(code, at, patch).0;
            &&& at <= n <= code.len()
            &&& forall|i: int| at <= i < n ==> !((#[trigger] code[i]).instruction is Asm)
            &&& n < code.len() ==> code[n].instruction is Asm
        }),
    decreases code.len() - at,
{
    if at < code.len() && !(code[at].instruction is Asm) {
        lemma_settled_before(code, at + 1, assemble::with_data(patch, code[at]));
    }
}

/// A run of instructions is as long as it can be: behind it there is no code, or no instruction, or
/// one that does not stand four bytes behind the last of the run.
pub proof fn law_run_is_longest(code: Seq<CodeModel>, at: int, len: int)
    requires
        assemble::is_group(code, at, len),
        0 <= at,
    ensures
        at + len < code.len() ==> !(code[at + len].instruction is Asm && code[at + len].address
            == code[at + len - 1].address + 4),
{
    lemma_group_stops(code, at, at + 1);
    assert(code[at + len - 1].address == code[at].address + 4 * (len - 1));
}

proof fn lemma_group_stops(code: Seq<CodeModel>, at: int, j: int)
    requires
        0 <= at < j,
    ensures
        ({
            let e = assemble::group_end(code, at, j);
            j <= e && (e < code.len() ==> !(code[e].instruction is Asm && code[e].address
                == code[at].address + 4 * (e - at)))
        }),
    decreases code.len() - j,
{
    if j < code.len() && code[j].instruction is Asm && code[j].address == code[at].address + 4 * (j
        - at) {
        lemma_group_stops(code, at, j + 1);
    }
}

// ---------------------------------------------------------------------------------------------
// Patches

/// Where an address of the patch lies behind the start of some code. The patch counts from 0x100
/// bytes before the code.
pub open spec fn depth(c: CodeModel, a: u32) -> int {
    a - c.address - 0x100
}

/// Data sets an address of the patch. A string also sets the one behind its text.
pub open spec fn covers(c: CodeModel, a: u32) -> bool {
    let n = assemble::data_bytes(c.instruction).len();
    0 <= depth(c, a) < n || (c.instruction is String && depth(c, a) == n)
}

/// What data sets an address to: a byte of its own, or the zero behind a string.
pub open spec fn covered_with(c: CodeModel, a: u32) -> u8 {
    if depth(c, a) < assemble::data_bytes(c.instruction).len() {
        assemble::data_bytes(c.instruction)[depth(c, a)]
    } else {
        0
    }
}

/// All that data sets has an address.
pub open spec fn reaches(c: CodeModel) -> bool {
    c.address + 0x100 + assemble::data_bytes(c.instruction).len() + (if c.instruction is String {
        1int
    } else {
        0
    }) <= 0x1_0000_0000
}

proof fn lemma_with_data(patch: Map<u32, u8>, c: CodeModel, a: u32)
    requires
        reaches(c),
    ensures
        covers(c, a) ==> assemble::with_data(patch, c).contains_key(a) && assemble::with_data(
            patch,
            c,
        )[a] == covered_with(c, a),
        !covers(c, a) ==> assemble::with_data(patch, c).contains_key(a) == patch.contains_key(a)
            && (patch.contains_key(a) ==> assemble::with_data(patch, c)[a] == patch[a]),
{
    let b = assemble::data_bytes(c.instruction);
    patches::law_put_keeps(patch, assemble::file_address(c.address), b, a);
}

/// What no data between two runs of instructions sets stays in the patch as it was.
pub proof fn law_settled_keeps(code: Seq<CodeModel>, at: int, patch: Map<u32, u8>, a: u32)
    requires
        0 <= at <= code.len(),
        forall|i: int| at <= i < code.len() ==> reaches(#[trigger] code[i]),
        forall|i: int|
            at <= i < assemble::settled(code, at, patch).0 ==> !covers(#[trigger] code[i], a),
    ensures
        assemble::settled(code, at, patch).1.contains_key(a) == patch.contains_key(a),
        patch.contains_key(a) ==> assemble::settled(code, at, patch).1[a] == patch[a],
    decreases code.len() - at,
{
    if at < code.len() && !(code[at].instruction is Asm) {
        let put = assemble::with_data(patch, code[at]);
        lemma_settled_before(code, at + 1, put);
        lemma_with_data(patch, code[at], a);
        law_settled_keeps(code, at + 1, put, a);
    }
}

/// Between two runs of instructions, an address has the byte of the last data there that sets it.
pub proof fn law_settled_puts(code: Seq<CodeModel>, at: int, patch: Map<u32, u8>, a: u32, i: int)
    requires
        0 <= at <= code.len(),
        forall|k: int| at <= k < code.len() ==> reaches(#[trigger] code[k]),
        at <= i < assemble::settled(code, at, patch).0,
        covers(code[i], a),
        forall|k: int|
            i < k < assemble::settled(code, at, patch).0 ==> !covers(#[trigger] code[k], a),
    ensures
        assemble::settled(code, at, patch).1.contains_key(a),
        assemble::settled(code, at, patch).1[a] == covered_with(code[i], a),
    decreases code.len() - at,
{
    lemma_settled_before(code, at, patch);
    let put = assemble::with_data(patch, code[at]);
    if i == at {
        lemma_with_data(patch, code[at], a);
        law_settled_keeps(code, at + 1, put, a);
    } else {
        law_settled_puts(code, at + 1, put, a, i);
    }
}

/// The bytes that come for instructions are put at the addresses that these have in the file, four
/// for each, and nothing else changes before the data behind them.
pub proof fn law_reply_patch(m: AssemblerModel, bytes: Seq<u8>, a: u32)
    requires
        m.sound(),
        !(m.wait is Done),
        bytes.len() == 4 * (match m.wait {
            Wait::Group { len } => len as int,
            _ => 1,
        }),
        ({
            let first = match m.wait {
                Wait::Line { len, line } => m.at + line,
                _ => m.at,
            };
            m.code[first].address + 0x100 + bytes.len() <= 0x1_0000_0000
        }),
    ensures
        ({
            let first = match m.wait {
                Wait::Line { len, line } => m.at + line,
                _ => m.at,
            };
            let put = m.put(first, bytes);
            let k = depth(m.code[first], a);
            &&& 0 <= k < bytes.len() ==> put.contains_key(a) && put[a] == bytes[k]
            &&& !(0 <= k < bytes.len()) ==> put.contains_key(a) == m.patch.contains_key(a) && (
            m.patch.contains_key(a) ==> put[a] == m.patch[a])
            &&& m.replied(Ok::<Seq<u8>, Seq<u8>>(bytes)) matches Some(n) && n.diags == m.diags && (
            match m.wait {
                Wait::Line { len, line } => if line + 1 < len {
                    n.patch == put && n.at == m.at && n.wait == (Wait::Line {
                        len,
                        line: (line + 1) as usize,
                    })
                } else {
                    (n.at, n.patch) == assemble::settled(m.code, m.at + len, put)
                },
                Wait::Group { len } => (n.at, n.patch) == assemble::settled(
                    m.code,
                    m.at + len,
                    put,
                ),
                Wait::Done => false,
            })
        }),
{
    let first = match m.wait {
        Wait::Line { len, line } => m.at + line,
        _ => m.at,
    };
    patches::law_put_keeps(
        m.patch,
        assemble::file_address(m.code[first].address),
        bytes,
        a,
    );
}

/// An error for a single instruction is told at the place of that instruction and leaves the patch
/// alone. One for a longer run leads to its lines, one by one.
pub proof fn law_reply_error(m: AssemblerModel, message: Seq<u8>)
    requires
        m.sound(),
        !(m.wait is Done),
    ensures
        ({
            let told = |i: int|
                m.diags.push(
                    AssembleDiagnostic::InvalidAsm { message, at: m.code[i].instruction_span },
                );
            &&& m.replied(Err::<Seq<u8>, Seq<u8>>(message)) matches Some(n) && match m.wait {
                Wait::Group { len } => if len == 1 {
                    &&& n.diags == told(m.at)
                    &&& (n.at, n.patch) == assemble::settled(m.code, m.at + 1, m.patch)
                } else {
                    &&& n.diags == m.diags
                    &&& n.patch == m.patch
                    &&& n.at == m.at
                    &&& n.wait == (Wait::Line { len, line: 0 })
                },
                Wait::Line { len, line } => {
                    &&& n.diags == told(m.at + line)
                    &&& line + 1 < len ==> n.patch == m.patch && n.at == m.at && n.wait == (
                    Wait::Line { len, line: (line + 1) as usize })
                    &&& line + 1 == len ==> (n.at, n.patch) == assemble::settled(
                        m.code,
                        m.at + len,
                        m.patch,
                    )
                },
                Wait::Done => false,
            }
        }),
{
}

/// Code fits where the zero behind every string has an address of the file.
pub proof fn law_zeros_fit(code: Seq<CodeModel>)
    requires
        forall|i: int|
            0 <= i < code.len() && (#[trigger] code[i]).instruction is String ==> code[i].address
                <= 0xffff_feff && (code[i].instruction->String_0).len() <= u32::MAX,
    ensures
        assemble::zeros_fit(code) <==> forall|i: int|
            0 <= i < code.len() && (#[trigger] code[i]).instruction is String ==> code[i].address
                + 0x100 + (code[i].instruction->String_0).len() <= u32::MAX,
{
    assert forall|i: int|
        0 <= i < code.len() && (#[trigger] code[i]).instruction is String implies (
    assemble::zero_address(code[i]) == code[i].address + 0x100 + (
    code[i].instruction->String_0).len()) by {}
    if assemble::zeros_fit(code) {
        assert forall|i: int|
            0 <= i < code.len() && (#[trigger] code[i]).instruction is String implies (
        code[i].address + 0x100 + (code[i].instruction->String_0).len() <= u32::MAX) by {
            assert(assemble::zero_address(code[i]) <= u32::MAX);
        }
    }
}

} // verus!
