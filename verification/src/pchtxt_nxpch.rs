//! Patch text files written anew as patch source.

use crate::pchtxt;
use crate::pchtxt::{
    DiagModel, LineModel, PchtxtDianostic, PchtxtFlag, PchtxtLineData, PchtxtParseIter,
};
use crate::pchtxt_writer;
use crate::text;
use capstone::arch::arm64::ArchMode;
use capstone::prelude::{BuildsCapstone, Capstone};
use vstd::prelude::*;
use vstd::string::*;
use vstd::utf8::*;

verus! {

// ---------------------------------------------------------------------------------------------
// The disassembler and the escaper

/// The mnemonic and the operands of the instruction that `Capstone::disasm_count` finds at the
/// start of 64-bit ARM code at an address; `None` where it finds none.
pub uninterp spec fn disassembled(code: Seq<u8>, address: u64) -> Option<(Seq<u8>, Seq<u8>)>;

pub open spec fn pair_view(r: Option<(String, String)>) -> Option<(Seq<u8>, Seq<u8>)> {
    match r {
        None => None,
        Some((a, b)) => Some((text::bytes_of(a), text::bytes_of(b))),
    }
}

/// `Capstone::disasm_count` for one instruction of 64-bit ARM code. The mnemonic and the operands
/// of the instruction are a function of the code and its address; there are none where the code
/// does not start with an instruction.
#[verifier::external_body]
fn disassemble(code: &[u8], address: u64) -> (r: Option<(String, String)>)
    ensures
        pair_view(r) == disassembled(code@, address),
{
    let engine = Capstone::new().arm64().mode(ArchMode::Arm).build().ok()?;
    let found = engine.disasm_count(code, address, 1).ok()?;
    let first = found.first()?;
    Some((first.mnemonic()?.to_string(), first.op_str()?.to_string()))
}

/// What `str::escape_debug` makes of a text.
pub uninterp spec fn debug_escaped(text: Seq<u8>) -> Seq<u8>;

/// `str::escape_debug`: its result is a function of the text.
#[verifier::external_body]
fn escape_debug(s: &str) -> (r: String)
    ensures
        text::bytes_of(r) == debug_escaped(s.spec_bytes()),
{
    s.escape_debug().to_string()
}

// ---------------------------------------------------------------------------------------------
// Model

/// Whether the patches that follow count.
#[derive(Clone, Copy, Debug, PartialEq, Eq, Structural)]
pub enum Status {
    PreEnabled,
    Enabled,
    Disabled,
}

/// What has been written, what has been said, and whether patches count.
#[verifier::ext_equal]
pub struct NxpchModel {
    pub out: Seq<u8>,
    pub diags: Seq<DiagModel>,
    pub status: Status,
}

/// A number in hexadecimal, without leading zeros.
pub open spec fn short_hex(n: int) -> Seq<u8>
    decreases n,
{
    if n < 16 {
        seq![pchtxt_writer::hex_digit(n)]
    } else {
        short_hex(n / 16).push(pchtxt_writer::hex_digit(n % 16))
    }
}

/// A number in decimal.
pub open spec fn decimal(n: int) -> Seq<u8>
    decreases n,
{
    if n < 10 {
        seq![(0x30 + n) as u8]
    } else {
        decimal(n / 10).push((0x30 + n % 10) as u8)
    }
}

/// `n` bytes from `i` on as a number, the lowest one first.
pub open spec fn little_endian(b: Seq<u8>, i: int, n: int) -> int
    decreases n,
{
    if n <= 0 {
        0
    } else {
        b[i] + 256 * little_endian(b, i + 1, n - 1)
    }
}

/// The comment for what stands behind the part of a line that counts.
pub open spec fn with_comment(out: Seq<u8>, x: Seq<u8>) -> Seq<u8> {
    let i = text::skip_space(x, 0, x.len() as int);
    if i >= x.len() {
        out
    } else if x[i] == 0x2f && i + 1 < x.len() && x[i + 1] == 0x2f {
        out + x
    } else if x[i] == 0x2f {
        out + x.subrange(0, i) + seq![0x2fu8] + x.subrange(i, x.len() as int)
    } else {
        out + (if out.len() > 0 && out.last() != 0x0a {
            seq![0x20u8]
        } else {
            Seq::empty()
        }) + seq![0x2fu8, 0x2f] + x
    }
}

/// `0x`, an address and an equals sign.
pub open spec fn target(offset: u32) -> Seq<u8> {
    "0x".spec_bytes() + pchtxt_writer::hex_text(offset as int, 8) + " = ".spec_bytes()
}

/// A byte of a string that is no text: control characters and bytes above 0x7f in hexadecimal.
pub open spec fn escaped_raw(b: Seq<u8>, i: int) -> Seq<u8>
    decreases b.len() - i,
{
    if i >= b.len() {
        Seq::empty()
    } else {
        let x = b[i];
        (if x > 0x7f || pchtxt_writer::is_control(x) {
            "\\x".spec_bytes() + pchtxt_writer::hex_text(x as int, 2)
        } else if x == 0x5c || x == 0x22 {
            seq![0x5cu8, x]
        } else {
            seq![x]
        }) + escaped_raw(b, i + 1)
    }
}

/// A string patch as a quoted string.
pub open spec fn quoted(b: Seq<u8>) -> Seq<u8> {
    seq![0x22u8] + (if valid_utf8(b) {
        debug_escaped(b)
    } else {
        escaped_raw(b, 0)
    }) + seq![0x22u8]
}

/// An instruction as text, or the number that stands in its place.
pub open spec fn instruction_text(found: Option<(Seq<u8>, Seq<u8>)>, word: int) -> Seq<u8> {
    match found {
        Some((mnemonic, operands)) => mnemonic + (if operands.len() > 0 {
            seq![0x20u8] + operands
        } else {
            Seq::empty()
        }),
        None => ".int ".spec_bytes() + decimal(word),
    }
}

/// The bytes of a patch from `i` on, which lie at `offset`, as instructions.
pub open spec fn code_lines(b: Seq<u8>, i: int, offset: u32) -> Seq<u8>
    decreases b.len() - i,
{
    if i + 4 > b.len() {
        Seq::empty()
    } else {
        target(offset) + instruction_text(
            disassembled(b.subrange(i, b.len() as int), offset as u64),
            little_endian(b, i, 4),
        ) + (if i + 4 < b.len() {
            seq![0x0au8] + code_lines(b, i + 4, offset.wrapping_add(4))
        } else {
            Seq::empty()
        })
    }
}

/// The size and the directive of the largest number that `left` bytes hold.
pub open spec fn data_size(left: int) -> int {
    if left >= 8 {
        8
    } else if left >= 4 {
        4
    } else if left >= 2 {
        2
    } else {
        1
    }
}

pub open spec fn data_directive(size: int) -> Seq<u8> {
    if size == 8 {
        ".long ".spec_bytes()
    } else if size == 4 {
        ".int ".spec_bytes()
    } else if size == 2 {
        ".short ".spec_bytes()
    } else {
        ".byte ".spec_bytes()
    }
}

/// The bytes of a patch from `i` on, which lie at `offset`, as numbers.
pub open spec fn data_lines(b: Seq<u8>, i: int, offset: u32) -> Seq<u8>
    decreases b.len() - i,
{
    if i >= b.len() {
        Seq::empty()
    } else {
        let n = data_size(b.len() - i);
        target(offset) + data_directive(n) + decimal(little_endian(b, i, n)) + (if i + n
            < b.len() {
            seq![0x0au8] + data_lines(b, i + n, offset.wrapping_add(n as u32))
        } else {
            Seq::empty()
        })
    }
}

/// A patch as source.
pub open spec fn patch_text(offset: u32, patch: Seq<u8>, is_string: bool) -> Seq<u8> {
    if patch.len() == 0 {
        "// ".spec_bytes() + target(offset)
    } else if is_string {
        target(offset) + quoted(patch.drop_last())
    } else if offset % 4 == 0 && patch.len() % 4 == 0 {
        code_lines(patch, 0, offset)
    } else {
        data_lines(patch, 0, offset)
    }
}

impl NxpchModel {
    pub open spec fn start() -> NxpchModel {
        NxpchModel { out: Seq::empty(), diags: Seq::empty(), status: Status::PreEnabled }
    }

    pub open spec fn writing(self, s: Seq<u8>) -> NxpchModel {
        NxpchModel { out: self.out + s, ..self }
    }

    /// A line that is kept as a comment.
    pub open spec fn commented(self, words: Seq<u8>) -> NxpchModel {
        self.writing("// ".spec_bytes() + words + seq![0x0au8])
    }

    /// The end of a line whose rest is still to be written.
    pub open spec fn ended(self, rest: Seq<u8>) -> NxpchModel {
        NxpchModel { out: with_comment(self.out, rest).push(0x0a), ..self }
    }

    /// A line `words` at `at` has been written anew.
    pub open spec fn with_line(
        self,
        line: LineModel,
        words: Seq<u8>,
        rest: Seq<u8>,
        at: usize,
    ) -> NxpchModel {
        let st = match line.diag {
            None => self,
            Some(d) => NxpchModel { diags: self.diags.push(d), ..self },
        };
        match line.data {
            PchtxtLineData::Ignored => st.ended(rest),
            PchtxtLineData::BuildId(id) => st.writing(
                "target_build = 0x".spec_bytes() + short_hex(id as int),
            ).ended(rest),
            PchtxtLineData::Information => st.writing(
                "#warning \"".spec_bytes() + debug_escaped(words.subrange(1, words.len() as int))
                    + "\"\n".spec_bytes(),
            ),
            PchtxtLineData::BigEndian | PchtxtLineData::LittleEndian
            | PchtxtLineData::Flag(PchtxtFlag::PrintValues) | PchtxtLineData::Stop => st.commented(
                words,
            ),
            PchtxtLineData::Comment => st.writing(
                (if words.len() >= 2 && words[0] == 0x2f && words[1] == 0x2f {
                    Seq::empty()
                } else {
                    seq![0x2fu8]
                }) + words,
            ).ended(rest),
            PchtxtLineData::Enable => {
                let on = NxpchModel { status: Status::Enabled, ..st };
                if st.status == Status::Disabled {
                    on.writing("#endif".spec_bytes()).ended(rest)
                } else {
                    on.commented(words)
                }
            },
            PchtxtLineData::Flag(PchtxtFlag::OffsetShift(shift)) => {
                let said = if st.status == Status::Disabled {
                    NxpchModel {
                        diags: st.diags.push(
                            PchtxtDianostic::DisabledPointerOffset {
                                at: (at, words.len() as usize),
                            },
                        ),
                        ..st
                    }
                } else {
                    st
                };
                said.writing(
                    "pointer_offset = 0x".spec_bytes() + short_hex(shift as u32 as int),
                ).ended(rest)
            },
            PchtxtLineData::Disable => if st.status != Status::Disabled {
                NxpchModel { status: Status::Disabled, ..st }.writing("#if 0".spec_bytes()).ended(
                    rest,
                )
            } else {
                st.commented(words)
            },
            PchtxtLineData::Patch { offset, patch, is_string } => {
                let opened = if st.status == Status::PreEnabled {
                    NxpchModel { status: Status::Disabled, ..st }.writing(
                        "#if 0\n".spec_bytes(),
                    )
                } else {
                    st
                };
                opened.writing(patch_text(offset, patch, is_string)).ended(rest)
            },
        }
    }
}

/// What has been written when the lines from `i` on have been written too.
pub open spec fn nxpch_from(
    b: Seq<u8>,
    i: int,
    first: bool,
    finished: bool,
    st: NxpchModel,
) -> NxpchModel
    decreases b.len() - i,
{
    if i < 0 || i >= b.len() {
        st
    } else {
        let (e, next) = pchtxt::line_ends(b, i);
        let line = pchtxt::line_at(b, i, e, first, finished);
        if next <= i || next > b.len() {
            st
        } else {
            nxpch_from(
                b,
                next,
                false,
                finished || line.data is Stop,
                st.with_line(
                    line,
                    b.subrange(i, e),
                    b.subrange(line.rest.0 as int, line.rest.1 as int),
                    i as usize,
                ),
            )
        }
    }
}

/// A whole file written anew. Patches that do not count stand between `#if 0` and `#endif`.
pub open spec fn pchtxt_nxpch(b: Seq<u8>) -> (Seq<u8>, Seq<DiagModel>) {
    let st = nxpch_from(b, 0, true, false, NxpchModel::start());
    (
        if st.status == Status::Disabled {
            st.out + "#endif\n".spec_bytes()
        } else {
            st.out
        },
        st.diags,
    )
}

// ---------------------------------------------------------------------------------------------
// Writing

proof fn lemma_push_ascii(b: Seq<u8>, x: u8)
    requires
        valid_utf8(b),
        x <= 0x7f,
    ensures
        valid_utf8(b.push(x)),
{
    let one = seq![x];
    assert(valid_utf8(one)) by {
        reveal_with_fuel(valid_utf8, 2);
        assert(pop_first_scalar(one) =~= Seq::empty());
    }
    valid_utf8_concat(b, one);
    assert(b + one =~= b.push(x));
}

fn push_byte(out: &mut Vec<u8>, x: u8)
    requires
        valid_utf8(old(out)@),
        x <= 0x7f,
    ensures
        valid_utf8(final(out)@),
        final(out)@ == old(out)@.push(x),
{
    proof {
        lemma_push_ascii(out@, x);
    }
    out.push(x);
}

fn push_text(out: &mut Vec<u8>, s: &str)
    requires
        valid_utf8(old(out)@),
    ensures
        valid_utf8(final(out)@),
        final(out)@ == old(out)@ + s.spec_bytes(),
{
    proof {
        text::lemma_str_valid(s@);
        valid_utf8_concat(out@, s.spec_bytes());
    }
    out.extend_from_slice(s.as_bytes());
    assert(out@ =~= old(out)@ + s.spec_bytes());
}

proof fn lemma_hex_text_ascii(b: Seq<u8>, n: int, digits: nat)
    requires
        valid_utf8(b),
        n >= 0,
    ensures
        valid_utf8(b + pchtxt_writer::hex_text(n, digits)),
    decreases digits,
{
    if digits == 0 {
        assert(b + pchtxt_writer::hex_text(n, digits) =~= b);
    } else {
        lemma_hex_text_ascii(b, n / 16, (digits - 1) as nat);
        let start = b + pchtxt_writer::hex_text(n / 16, (digits - 1) as nat);
        lemma_push_ascii(start, pchtxt_writer::hex_digit(n % 16));
        assert(start.push(pchtxt_writer::hex_digit(n % 16)) =~= b + pchtxt_writer::hex_text(
            n,
            digits,
        ));
    }
}

fn push_padded_hex(out: &mut Vec<u8>, n: u32, digits: usize)
    requires
        valid_utf8(old(out)@),
    ensures
        valid_utf8(final(out)@),
        final(out)@ == old(out)@ + pchtxt_writer::hex_text(n as int, digits as nat),
{
    proof {
        lemma_hex_text_ascii(out@, n as int, digits as nat);
    }
    pchtxt_writer::push_hex(out, n as u128, digits);
}

fn push_short_hex(out: &mut Vec<u8>, n: u128)
    requires
        valid_utf8(old(out)@),
    ensures
        valid_utf8(final(out)@),
        final(out)@ == old(out)@ + short_hex(n as int),
    decreases n,
{
    if n >= 16 {
        push_short_hex(out, n / 16);
    }
    let d: u8 = (n % 16) as u8;
    push_byte(out, if d < 10 { 0x30 + d } else { 0x41 + (d - 10) });
    assert(out@ =~= old(out)@ + short_hex(n as int));
}

fn push_decimal(out: &mut Vec<u8>, n: u64)
    requires
        valid_utf8(old(out)@),
    ensures
        valid_utf8(final(out)@),
        final(out)@ == old(out)@ + decimal(n as int),
    decreases n,
{
    if n >= 10 {
        push_decimal(out, n / 10);
    }
    push_byte(out, 0x30 + (n % 10) as u8);
    assert(out@ =~= old(out)@ + decimal(n as int));
}

fn push_target(out: &mut Vec<u8>, offset: u32)
    requires
        valid_utf8(old(out)@),
    ensures
        valid_utf8(final(out)@),
        final(out)@ == old(out)@ + target(offset),
{
    push_text(out, "0x");
    push_padded_hex(out, offset, 8);
    push_text(out, " = ");
    assert(out@ =~= old(out)@ + target(offset));
}

fn push_comment(out: &mut Vec<u8>, x: &str)
    requires
        valid_utf8(old(out)@),
    ensures
        valid_utf8(final(out)@),
        final(out)@ == with_comment(old(out)@, x.spec_bytes()),
{
    let b = x.as_bytes();
    let i = text::space_end(b, 0, b.len());
    proof {
        text::lemma_str_valid(x@);
        text::lemma_skip_space(b@, 0, b@.len() as int);
    }
    if i >= b.len() {
        return;
    }
    if b[i] == 0x2f {
        if b.len() - i > 1 && b[i + 1] == 0x2f {
            push_text(out, x);
            return;
        }
        push_text(out, text::slice(x, 0, i));
        push_byte(out, 0x2f);
        push_text(out, text::slice(x, i, b.len()));
        assert(out@ =~= with_comment(old(out)@, x.spec_bytes()));
        return;
    }
    if out.len() > 0 && out[out.len() - 1] != 0x0a {
        push_byte(out, 0x20);
    }
    push_byte(out, 0x2f);
    push_byte(out, 0x2f);
    push_text(out, x);
    assert(out@ =~= with_comment(old(out)@, x.spec_bytes()));
}

fn push_raw(out: &mut Vec<u8>, b: &[u8])
    requires
        valid_utf8(old(out)@),
    ensures
        valid_utf8(final(out)@),
        final(out)@ == old(out)@ + escaped_raw(b@, 0),
{
    let mut i: usize = 0;
    while i < b.len()
        invariant
            i <= b@.len(),
            valid_utf8(out@),
            out@ + escaped_raw(b@, i as int) == old(out)@ + escaped_raw(b@, 0),
        decreases b@.len() - i,
    {
        let ghost before = out@;
        let x: u8 = b[i];
        if x > 0x7f || x <= 0x1f || x == 0x7f {
            push_text(out, "\\x");
            push_padded_hex(out, x as u32, 2);
        } else {
            if x == 0x5c || x == 0x22 {
                push_byte(out, 0x5c);
            }
            push_byte(out, x);
        }
        i += 1;
        assert(out@ + escaped_raw(b@, i as int) =~= before + escaped_raw(b@, i - 1));
    }
    assert(out@ + escaped_raw(b@, i as int) =~= out@);
}

fn push_quoted(out: &mut Vec<u8>, b: &[u8])
    requires
        valid_utf8(old(out)@),
    ensures
        valid_utf8(final(out)@),
        final(out)@ == old(out)@ + quoted(b@),
{
    push_byte(out, 0x22);
    match pchtxt_writer::utf8_text(b) {
        Some(s) => {
            push_text(out, escape_debug(s).as_str());
        },
        None => {
            push_raw(out, b);
        },
    }
    push_byte(out, 0x22);
    assert(out@ =~= old(out)@ + quoted(b@));
}

/// An instruction as text, or, where none was found, the number that stands in its place.
pub fn instruction_line(found: &Option<(String, String)>, word: u32) -> (r: Vec<u8>)
    ensures
        r@ == instruction_text(pair_view(*found), word as int),
        valid_utf8(r@),
{
    let mut r: Vec<u8> = Vec::new();
    match found {
        Some((mnemonic, operands)) => {
            push_text(&mut r, mnemonic.as_str());
            if operands.as_str().as_bytes().len() > 0 {
                push_byte(&mut r, 0x20);
                push_text(&mut r, operands.as_str());
            }
        },
        None => {
            push_text(&mut r, ".int ");
            push_decimal(&mut r, word as u64);
        },
    }
    assert(r@ =~= instruction_text(pair_view(*found), word as int));
    r
}

fn read_little_endian(b: &[u8], i: usize, n: usize) -> (r: u64)
    requires
        i + n <= b@.len(),
        n <= 8,
    ensures
        r == little_endian(b@, i as int, n as int),
        n <= 7 ==> r < 0x100_0000_0000_0000,
        n <= 6 ==> r < 0x1_0000_0000_0000,
        n <= 5 ==> r < 0x100_0000_0000,
        n <= 4 ==> r < 0x1_0000_0000,
        n <= 3 ==> r < 0x100_0000,
        n <= 2 ==> r < 0x1_0000,
        n <= 1 ==> r < 0x100,
        n == 0 ==> r == 0,
    decreases n,
{
    if n == 0 {
        return 0;
    }
    assert(b.len() == b@.len());
    let rest = read_little_endian(b, i + 1, n - 1);
    b[i] as u64 + 256 * rest
}

fn push_code(out: &mut Vec<u8>, patch: &[u8], start: u32)
    requires
        valid_utf8(old(out)@),
        patch@.len() > 0,
        patch@.len() % 4 == 0,
    ensures
        valid_utf8(final(out)@),
        final(out)@ == old(out)@ + code_lines(patch@, 0, start),
{
    let mut i: usize = 0;
    let mut offset: u32 = start;
    let ghost whole = code_lines(patch@, 0, start);
    loop
        invariant
            i < patch@.len(),
            (patch@.len() - i) % 4 == 0,
            valid_utf8(out@),
            whole == code_lines(patch@, 0, start),
            out@ + code_lines(patch@, i as int, offset) == old(out)@ + whole,
        decreases patch@.len() - i,
    {
        let ghost before = out@;
        push_target(out, offset);
        let found = disassemble(
            vstd::slice::slice_subrange(patch, i, patch.len()),
            offset as u64,
        );
        let word = read_little_endian(patch, i, 4);
        let line = instruction_line(&found, word as u32);
        proof {
            valid_utf8_concat(out@, line@);
        }
        out.extend_from_slice(line.as_slice());
        let ghost now = out@;
        proof {
            let text = instruction_text(
                disassembled(patch@.subrange(i as int, patch@.len() as int), offset as u64),
                little_endian(patch@, i as int, 4),
            );
            assert(now =~= before + target(offset) + text);
        }
        if patch.len() - i <= 4 {
            assert(out@ =~= before + code_lines(patch@, i as int, offset));
            return;
        }
        push_byte(out, 0x0a);
        assert(out@ + code_lines(patch@, i + 4, offset.wrapping_add(4)) =~= before + code_lines(
            patch@,
            i as int,
            offset,
        ));
        i += 4;
        offset = offset.wrapping_add(4);
    }
}

fn push_data(out: &mut Vec<u8>, patch: &[u8], start: u32)
    requires
        valid_utf8(old(out)@),
        patch@.len() > 0,
    ensures
        valid_utf8(final(out)@),
        final(out)@ == old(out)@ + data_lines(patch@, 0, start),
{
    let mut i: usize = 0;
    let mut offset: u32 = start;
    let ghost whole = data_lines(patch@, 0, start);
    loop
        invariant
            i < patch@.len(),
            valid_utf8(out@),
            whole == data_lines(patch@, 0, start),
            out@ + data_lines(patch@, i as int, offset) == old(out)@ + whole,
        decreases patch@.len() - i,
    {
        let ghost before = out@;
        push_target(out, offset);
        let left: usize = patch.len() - i;
        let n: usize = if left >= 8 {
            8
        } else if left >= 4 {
            4
        } else if left >= 2 {
            2
        } else {
            1
        };
        push_text(
            out,
            match n {
                8 => ".long ",
                4 => ".int ",
                2 => ".short ",
                _ => ".byte ",
            },
        );
        push_decimal(out, read_little_endian(patch, i, n));
        if left == n {
            assert(out@ =~= before + data_lines(patch@, i as int, offset));
            return;
        }
        push_byte(out, 0x0a);
        assert(out@ + data_lines(patch@, i + n, offset.wrapping_add(n as u32)) =~= before
            + data_lines(patch@, i as int, offset));
        i += n;
        offset = offset.wrapping_add(n as u32);
    }
}

fn push_patch(out: &mut Vec<u8>, offset: u32, patch: &[u8], is_string: bool)
    requires
        valid_utf8(old(out)@),
    ensures
        valid_utf8(final(out)@),
        final(out)@ == old(out)@ + patch_text(offset, patch@, is_string),
{
    if patch.len() == 0 {
        push_text(out, "// ");
        push_target(out, offset);
        assert(out@ =~= old(out)@ + patch_text(offset, patch@, is_string));
    } else if is_string {
        push_target(out, offset);
        let inner = vstd::slice::slice_subrange(patch, 0, patch.len() - 1);
        assert(inner@ =~= patch@.drop_last());
        push_quoted(out, inner);
        assert(out@ =~= old(out)@ + patch_text(offset, patch@, is_string));
    } else if offset % 4 == 0 && patch.len() % 4 == 0 {
        push_code(out, patch, offset);
    } else {
        push_data(out, patch, offset);
    }
}

fn push_kept(out: &mut Vec<u8>, line: &str)
    requires
        valid_utf8(old(out)@),
    ensures
        valid_utf8(final(out)@),
        final(out)@ == old(out)@ + ("// ".spec_bytes() + line.spec_bytes() + seq![0x0au8]),
{
    push_text(out, "// ");
    push_text(out, line);
    push_byte(out, 0x0a);
    assert(out@ =~= old(out)@ + ("// ".spec_bytes() + line.spec_bytes() + seq![0x0au8]));
}

/// The file as it is written anew, line by line.
struct Rewriter {
    out: Vec<u8>,
    diags: Vec<PchtxtDianostic>,
    status: Status,
}

impl Rewriter {
    spec fn model(&self) -> NxpchModel {
        NxpchModel {
            out: self.out@,
            diags: pchtxt::diagnostics(self.diags@),
            status: self.status,
        }
    }

    fn say(&mut self, d: PchtxtDianostic)
        ensures
            final(self).model() == (NxpchModel {
                diags: old(self).model().diags.push(d@),
                ..old(self).model()
            }),
            final(self).out@ == old(self).out@,
            final(self).status == old(self).status,
    {
        self.diags.push(d);
        assert(pchtxt::diagnostics(self.diags@) =~= pchtxt::diagnostics(old(self).diags@).push(
            d@,
        ));
    }

    fn write_line(&mut self, line: pchtxt::PchtxtLine, words: &str, rest: &str, at: usize)
        requires
            valid_utf8(old(self).out@),
            line.data is Information ==> words.spec_bytes().len() > 0 && words.spec_bytes()[0]
                <= 0x7f,
        ensures
            valid_utf8(final(self).out@),
            final(self).model() == old(self).model().with_line(
                line@,
                words.spec_bytes(),
                rest.spec_bytes(),
                at,
            ),
    {
        let ghost model = line@;
        let ghost start = self.model();
        let ghost after = start.with_line(model, words.spec_bytes(), rest.spec_bytes(), at);
        if let Some(d) = line.diag {
            self.say(d);
        }
        let ghost st = self.model();
        match line.data {
            PchtxtLineData::Ignored => {},
            PchtxtLineData::BuildId(id) => {
                push_text(&mut self.out, "target_build = 0x");
                push_short_hex(&mut self.out, id);
                assert(self.out@ =~= st.out + ("target_build = 0x".spec_bytes() + short_hex(
                    id as int,
                )));
            },
            PchtxtLineData::Information => {
                push_text(&mut self.out, "#warning \"");
                let b = words.as_bytes();
                proof {
                    text::lemma_str_valid(words@);
                    text::lemma_ascii_boundary(b@, 0);
                }
                let message = escape_debug(text::slice(words, 1, b.len()));
                push_text(&mut self.out, message.as_str());
                push_text(&mut self.out, "\"\n");
                assert(self.model() =~= after);
                return;
            },
            PchtxtLineData::BigEndian | PchtxtLineData::LittleEndian | PchtxtLineData::Stop => {
                push_kept(&mut self.out, words);
                assert(self.model() =~= after);
                return;
            },
            PchtxtLineData::Flag(PchtxtFlag::PrintValues) => {
                push_kept(&mut self.out, words);
                assert(self.model() =~= after);
                return;
            },
            PchtxtLineData::Comment => {
                let b = words.as_bytes();
                if !(b.len() >= 2 && b[0] == 0x2f && b[1] == 0x2f) {
                    push_byte(&mut self.out, 0x2f);
                }
                push_text(&mut self.out, words);
                assert(self.out@ =~= st.out + ((if b@.len() >= 2 && b@[0] == 0x2f && b@[1]
                    == 0x2f {
                    Seq::empty()
                } else {
                    seq![0x2fu8]
                }) + b@));
            },
            PchtxtLineData::Enable => {
                let was = self.status;
                self.status = Status::Enabled;
                if was == Status::Disabled {
                    push_text(&mut self.out, "#endif");
                } else {
                    push_kept(&mut self.out, words);
                    assert(self.model() =~= after);
                    return;
                }
            },
            PchtxtLineData::Flag(PchtxtFlag::OffsetShift(shift)) => {
                if self.status == Status::Disabled {
                    self.say(
                        PchtxtDianostic::DisabledPointerOffset {
                            at: (at, words.as_bytes().len()),
                        },
                    );
                }
                push_text(&mut self.out, "pointer_offset = 0x");
                push_short_hex(&mut self.out, shift as u32 as u128);
                assert(self.out@ =~= st.out + ("pointer_offset = 0x".spec_bytes() + short_hex(
                    shift as u32 as int,
                )));
            },
            PchtxtLineData::Disable => {
                if self.status != Status::Disabled {
                    push_text(&mut self.out, "#if 0");
                    self.status = Status::Disabled;
                } else {
                    push_kept(&mut self.out, words);
                    assert(self.model() =~= after);
                    return;
                }
            },
            PchtxtLineData::Patch { offset, patch, is_string } => {
                if self.status == Status::PreEnabled {
                    push_text(&mut self.out, "#if 0\n");
                    self.status = Status::Disabled;
                }
                push_patch(&mut self.out, offset, patch.as_slice(), is_string);
            },
        }
        push_comment(&mut self.out, rest);
        push_byte(&mut self.out, 0x0a);
        assert(self.model() =~= after);
    }
}

/// Writes a patch text file anew as patch source, and says what there is to say about it.
pub fn pchtxt_to_nxpch(pchtxt: &str) -> (r: (String, Vec<PchtxtDianostic>))
    requires
        pchtxt::readable(pchtxt.spec_bytes()),
    ensures
        (text::bytes_of(r.0), pchtxt::diagnostics(r.1@)) == pchtxt_nxpch(pchtxt.spec_bytes()),
{
    let ghost b = pchtxt.spec_bytes();
    let ghost whole = nxpch_from(b, 0, true, false, NxpchModel::start());
    let mut rewriter = Rewriter {
        out: Vec::new(),
        diags: Vec::new(),
        status: Status::PreEnabled,
    };
    let mut lines = PchtxtParseIter::new(pchtxt);
    proof {
        assert(rewriter.model() =~= NxpchModel::start());
        text::lemma_str_valid(pchtxt@);
    }
    loop
        invariant
            lines.wf(),
            lines.pchtxt == pchtxt,
            b == pchtxt.spec_bytes(),
            valid_utf8(b),
            valid_utf8(rewriter.out@),
            whole == nxpch_from(
                b,
                lines.position as int,
                lines.first,
                lines.finished,
                rewriter.model(),
            ),
        ensures
            valid_utf8(rewriter.out@),
            whole == rewriter.model(),
        decreases b.len() - lines.position,
    {
        let (line, s, e) = match lines.next() {
            None => {
                break;
            },
            Some(found) => found,
        };
        let words = text::slice(pchtxt, s, e);
        let rest = text::slice(pchtxt, line.rest.0, line.rest.1);
        rewriter.write_line(line, words, rest, s);
    }
    if rewriter.status == Status::Disabled {
        push_text(&mut rewriter.out, "#endif\n");
    }
    let out = match pchtxt_writer::utf8_text(rewriter.out.as_slice()) {
        Some(s) => text::own(s),
        None => String::new(),
    };
    (out, rewriter.diags)
}

} // verus!
