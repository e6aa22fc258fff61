//! What the lines of a patch text file become in the source that is written for it.

use crate::numbers;
use crate::pchtxt::{LineModel, PchtxtDianostic, PchtxtFlag, PchtxtLineData};
use crate::pchtxt_nxpch;
use crate::pchtxt_nxpch::{NxpchModel, Status};
use crate::pchtxt_words;
use crate::source_laws;
use crate::text;
use vstd::prelude::*;
use vstd::string::*;
use vstd::utf8::*;

verus! {

// ---------------------------------------------------------------------------------------------
// Comments

/// What stands behind the part of a line that counts stays as a comment: nothing for white space,
/// the text as it is where it is a comment already, with one more slash where it starts with one,
/// and behind two slashes otherwise, with a space before them unless they start a line.
pub proof fn law_comment_kept(out: Seq<u8>, x: Seq<u8>, i: int)
    requires
        i == text::skip_space(x, 0, x.len() as int),
    ensures
        ({
            let r = pchtxt_nxpch::with_comment(out, x);
            let n = x.len() as int;
            &&& i >= n ==> r == out
            &&& i + 1 < n && x[i] == 0x2f && x[i + 1] == 0x2f ==> r == out + x
            &&& i < n && x[i] == 0x2f && !(i + 1 < n && x[i + 1] == 0x2f) ==> r == out
                + x.subrange(0, i) + seq![0x2fu8] + x.subrange(i, n)
            &&& i < n && x[i] != 0x2f && (out.len() == 0 || out.last() == 0x0a) ==> r == out + seq![
                0x2fu8,
                0x2f,
            ] + x
            &&& i < n && x[i] != 0x2f && out.len() > 0 && out.last() != 0x0a ==> r == out + seq![
                0x20u8,
                0x2f,
                0x2f,
            ] + x
        }),
{
    let r = pchtxt_nxpch::with_comment(out, x);
    if i < x.len() && x[i] != 0x2f {
        if out.len() == 0 || out.last() == 0x0a {
            assert(r =~= out + seq![0x2fu8, 0x2f] + x);
        } else {
            assert(r =~= out + seq![0x20u8, 0x2f, 0x2f] + x);
        }
    }
}

// ---------------------------------------------------------------------------------------------
// Lines

/// A text follows what was written.
pub open spec fn follows(out: Seq<u8>, before: Seq<u8>, head: Seq<u8>) -> bool {
    &&& before.len() + head.len() <= out.len()
    &&& out.subrange(0, before.len() as int) == before
    &&& out.subrange(before.len() as int, (before.len() + head.len()) as int) == head
}

proof fn lemma_follows(st: NxpchModel, head: Seq<u8>, rest: Seq<u8>)
    ensures
        follows(st.writing(head).ended(rest).out, st.out, head),
{
    let out = st.out + head;
    let all = pchtxt_nxpch::with_comment(out, rest).push(0x0a);
    let i = text::skip_space(rest, 0, rest.len() as int);
    law_comment_kept(out, rest, i);
    text::lemma_skip_space(rest, 0, rest.len() as int);
    assert(all.subrange(0, st.out.len() as int) =~= st.out);
    assert(all.subrange(st.out.len() as int, (st.out.len() + head.len()) as int) =~= head);
}

/// The build and the shift of a file are set by options of the source, with the number of the
/// line; a line that is shown becomes a warning; and what has no counterpart stays as a comment.
/// Each line ends with a line break.
#[verifier::spinoff_prover]
#[verifier::rlimit(60)]
pub proof fn law_rewritten_line(
    st: NxpchModel,
    line: LineModel,
    words: Seq<u8>,
    rest: Seq<u8>,
    at: usize,
) -> (number: Seq<u8>)
    ensures
        ({
            let out = st.with_line(line, words, rest, at).out;
            &&& out.len() > 0 && out.last() == 0x0a
            &&& line.data matches PchtxtLineData::BuildId(id) ==> numbers::plain_value(number)
                == Some(id as int) && follows(
                out,
                st.out,
                "target_build = ".spec_bytes() + number,
            )
            &&& line.data matches PchtxtLineData::Flag(PchtxtFlag::OffsetShift(shift))
                ==> numbers::plain_value(number) == Some(shift as u32 as int) && follows(
                out,
                st.out,
                "pointer_offset = ".spec_bytes() + number,
            )
            &&& line.data is Information ==> out == st.out + "#warning \"".spec_bytes()
                + pchtxt_nxpch::debug_escaped(words.subrange(1, words.len() as int)) + seq![
                0x22u8,
                0x0a,
            ]
            &&& line.data is BigEndian || line.data is LittleEndian || line.data is Stop || (
            line.data == PchtxtLineData::<Seq<u8>>::Flag(PchtxtFlag::PrintValues)) ==> out == st.out
                + seq![0x2fu8, 0x2f, 0x20] + words + seq![0x0au8]
            &&& line.data is Comment && words.len() >= 2 && words[0] == 0x2f && words[1] == 0x2f
                ==> follows(out, st.out, words)
            &&& line.data is Comment && words.len() >= 2 && words[0] == 0x2f && words[1] != 0x2f
                ==> follows(out, st.out, seq![0x2fu8] + words)
        }),
{
    lemma_words();
    let said = match line.diag {
        None => st,
        Some(m) => NxpchModel { diags: st.diags.push(m), ..st },
    };
    let after = st.with_line(line, words, rest, at);
    match line.data {
        PchtxtLineData::BuildId(id) => {
            let digits = pchtxt_nxpch::short_hex(id as int);
            let head = "target_build = 0x".spec_bytes() + digits;
            lemma_follows(said, head, rest);
            source_laws::law_short_hex_is_plain(id as int);
            let number = "0x".spec_bytes() + digits;
            assert(head =~= "target_build = ".spec_bytes() + number);
            number
        },
        PchtxtLineData::Flag(PchtxtFlag::OffsetShift(shift)) => {
            let digits = pchtxt_nxpch::short_hex(shift as u32 as int);
            let head = "pointer_offset = 0x".spec_bytes() + digits;
            let told = if said.status == Status::Disabled {
                NxpchModel {
                    diags: said.diags.push(
                        PchtxtDianostic::DisabledPointerOffset {
                            at: (at, words.len() as usize),
                        },
                    ),
                    ..said
                }
            } else {
                said
            };
            lemma_follows(told, head, rest);
            source_laws::law_short_hex_is_plain(shift as u32 as int);
            let number = "0x".spec_bytes() + digits;
            assert(head =~= "pointer_offset = ".spec_bytes() + number);
            number
        },
        PchtxtLineData::Information => {
            let t = pchtxt_nxpch::debug_escaped(words.subrange(1, words.len() as int));
            assert(after.out =~= st.out + "#warning \"".spec_bytes() + t + seq![0x22u8, 0x0a]);
            Seq::empty()
        },
        PchtxtLineData::Comment => {
            let head = (if words.len() >= 2 && words[0] == 0x2f && words[1] == 0x2f {
                Seq::empty()
            } else {
                seq![0x2fu8]
            }) + words;
            lemma_follows(said, head, rest);
            if words.len() >= 2 && words[0] == 0x2f && words[1] == 0x2f {
                assert(head =~= words);
            }
            Seq::empty()
        },
        PchtxtLineData::BigEndian
        | PchtxtLineData::LittleEndian
        | PchtxtLineData::Stop
        | PchtxtLineData::Flag(PchtxtFlag::PrintValues) => {
            assert(after.out =~= st.out + seq![0x2fu8, 0x2f, 0x20] + words + seq![0x0au8]);
            Seq::empty()
        },
        _ => { Seq::empty() },
    }
}

proof fn lemma_words()
    ensures
        "target_build = 0x".spec_bytes() == "target_build = ".spec_bytes() + "0x".spec_bytes(),
        "pointer_offset = 0x".spec_bytes() == "pointer_offset = ".spec_bytes()
            + "0x".spec_bytes(),
        "// ".spec_bytes() == seq![0x2fu8, 0x2f, 0x20],
        "\"\n".spec_bytes() == seq![0x22u8, 0x0a],
{
    reveal_strlit("target_build = 0x");
    is_ascii_spec_bytes("target_build = 0x");
    reveal_strlit("target_build = ");
    is_ascii_spec_bytes("target_build = ");
    reveal_strlit("0x");
    is_ascii_spec_bytes("0x");
    assert("target_build = 0x".spec_bytes() =~= "target_build = ".spec_bytes()
        + "0x".spec_bytes());
    reveal_strlit("pointer_offset = 0x");
    is_ascii_spec_bytes("pointer_offset = 0x");
    reveal_strlit("pointer_offset = ");
    is_ascii_spec_bytes("pointer_offset = ");
    assert("pointer_offset = 0x".spec_bytes() =~= "pointer_offset = ".spec_bytes()
        + "0x".spec_bytes());
    reveal_strlit("// ");
    is_ascii_spec_bytes("// ");
    assert("// ".spec_bytes() =~= seq![0x2fu8, 0x2f, 0x20]);
    reveal_strlit("\"\n");
    is_ascii_spec_bytes("\"\n");
    assert("\"\n".spec_bytes() =~= seq![0x22u8, 0x0a]);
}

/// What is wrong with a line is told first, and then a shift in a block that does not count.
/// Nothing else is said.
pub proof fn law_rewritten_diagnostics(
    st: NxpchModel,
    line: LineModel,
    words: Seq<u8>,
    rest: Seq<u8>,
    at: usize,
)
    ensures
        ({
            let said = st.with_line(line, words, rest, at).diags;
            let n = st.diags.len() as int;
            let own: int = if line.diag is Some {
                1
            } else {
                0
            };
            let is_shift = line.data matches PchtxtLineData::Flag(PchtxtFlag::OffsetShift(_));
            let lost: int = if is_shift && st.status == Status::Disabled {
                1
            } else {
                0
            };
            &&& said.len() == n + own + lost
            &&& said.subrange(0, n) == st.diags
            &&& line.diag matches Some(d) ==> said[n] == d
            &&& lost == 1 ==> (said.last() matches PchtxtDianostic::DisabledPointerOffset {
                at: place,
            } && place == (at, words.len() as usize))
        }),
{
    let said = st.with_line(line, words, rest, at).diags;
    assert(said.subrange(0, st.diags.len() as int) =~= st.diags);
}

// ---------------------------------------------------------------------------------------------
// Patches

/// A patch becomes a comment where it puts nothing, a string without its zero where it is one,
/// instructions where it and its offset are made of whole ones, and data otherwise.
pub proof fn law_patch_kinds(offset: u32, patch: Seq<u8>, is_string: bool)
    ensures
        ({
            let t = pchtxt_nxpch::patch_text(offset, patch, is_string);
            let n = patch.len() as int;
            &&& n == 0 ==> t == seq![0x2fu8, 0x2f, 0x20] + pchtxt_nxpch::target(offset)
            &&& n > 0 && is_string ==> t == pchtxt_nxpch::target(offset) + pchtxt_nxpch::quoted(
                patch.subrange(0, n - 1),
            )
            &&& n > 0 && !is_string && offset % 4 == 0 && n % 4 == 0 ==> t
                == pchtxt_nxpch::code_lines(patch, 0, offset)
            &&& n > 0 && !is_string && !(offset % 4 == 0 && n % 4 == 0) ==> t
                == pchtxt_nxpch::data_lines(patch, 0, offset)
        }),
{
    reveal_strlit("// ");
    is_ascii_spec_bytes("// ");
    assert("// ".spec_bytes() =~= seq![0x2fu8, 0x2f, 0x20]);
    if patch.len() > 0 {
        assert(patch.drop_last() =~= patch.subrange(0, patch.len() - 1));
    }
}

/// An address is written in hexadecimal with eight digits, and an equals sign behind it.
pub proof fn law_target(offset: u32) -> (number: Seq<u8>)
    ensures
        pchtxt_nxpch::target(offset) == number + seq![0x20u8, 0x3d, 0x20],
        number.len() == 10,
        numbers::plain_value(number) == Some(offset as int),
{
    reveal_strlit(" = ");
    is_ascii_spec_bytes(" = ");
    assert(" = ".spec_bytes() =~= seq![0x20u8, 0x3d, 0x20]);
    reveal_strlit("0x");
    is_ascii_spec_bytes("0x");
    source_laws::law_address_is_plain(offset);
    let number = "0x".spec_bytes() + crate::pchtxt_writer::hex_text(offset as int, 8);
    lemma_hex_len(offset as int, 8);
    number
}

proof fn lemma_hex_len(n: int, d: nat)
    ensures
        crate::pchtxt_writer::hex_text(n, d).len() == d,
    decreases d,
{
    if d > 0 {
        lemma_hex_len(n / 16, (d - 1) as nat);
    }
}

/// Data is written as the largest numbers that fit into what is left of it, each on a line of its
/// own with its address.
pub proof fn law_data_lines(b: Seq<u8>, i: int, n: int, offset: u32)
    requires
        0 <= i < b.len(),
        n == 1 || n == 2 || n == 4 || n == 8,
        i + n <= b.len(),
        n < 8 ==> i + 2 * n > b.len(),
    ensures
        ({
            let word = if n == 8 {
                ".long ".spec_bytes()
            } else if n == 4 {
                ".int ".spec_bytes()
            } else if n == 2 {
                ".short ".spec_bytes()
            } else {
                ".byte ".spec_bytes()
            };
            let first = pchtxt_nxpch::target(offset) + word + pchtxt_nxpch::decimal(
                pchtxt_nxpch::little_endian(b, i, n),
            );
            let t = pchtxt_nxpch::data_lines(b, i, offset);
            &&& i + n == b.len() ==> t == first
            &&& i + n < b.len() ==> t == first + seq![0x0au8] + pchtxt_nxpch::data_lines(
                b,
                i + n,
                offset.wrapping_add(n as u32),
            )
        }),
{
    let word = pchtxt_nxpch::data_directive(n);
    let first = pchtxt_nxpch::target(offset) + word + pchtxt_nxpch::decimal(
        pchtxt_nxpch::little_endian(b, i, n),
    );
    let t = pchtxt_nxpch::data_lines(b, i, offset);
    if i + n == b.len() {
        assert(t =~= first);
    } else {
        let rest = pchtxt_nxpch::data_lines(b, i + n, offset.wrapping_add(n as u32));
        assert(t =~= first + seq![0x0au8] + rest);
    }
}

/// Instructions are written one by one, each four bytes behind the one before it: as the
/// disassembler has them, or as a number where it finds none.
pub proof fn law_code_lines(b: Seq<u8>, i: int, offset: u32)
    requires
        0 <= i,
        i + 4 <= b.len(),
    ensures
        ({
            let text = match pchtxt_nxpch::disassembled(
                b.subrange(i, b.len() as int),
                offset as u64,
            ) {
                Some((mnemonic, operands)) => if operands.len() > 0 {
                    mnemonic + seq![0x20u8] + operands
                } else {
                    mnemonic
                },
                None => ".int ".spec_bytes() + pchtxt_nxpch::decimal(
                    pchtxt_nxpch::little_endian(b, i, 4),
                ),
            };
            let first = pchtxt_nxpch::target(offset) + text;
            let t = pchtxt_nxpch::code_lines(b, i, offset);
            &&& i + 4 == b.len() ==> t == first
            &&& i + 4 < b.len() ==> t == first + seq![0x0au8] + pchtxt_nxpch::code_lines(
                b,
                i + 4,
                offset.wrapping_add(4),
            )
        }),
{
    let found = pchtxt_nxpch::disassembled(b.subrange(i, b.len() as int), offset as u64);
    let text = match found {
        Some((mnemonic, operands)) => if operands.len() > 0 {
            mnemonic + seq![0x20u8] + operands
        } else {
            mnemonic
        },
        None => ".int ".spec_bytes() + pchtxt_nxpch::decimal(pchtxt_nxpch::little_endian(b, i, 4)),
    };
    assert(pchtxt_nxpch::instruction_text(found, pchtxt_nxpch::little_endian(b, i, 4)) =~= text);
    let first = pchtxt_nxpch::target(offset) + text;
    let t = pchtxt_nxpch::code_lines(b, i, offset);
    if i + 4 == b.len() {
        assert(t =~= first);
    } else {
        let rest = pchtxt_nxpch::code_lines(b, i + 4, offset.wrapping_add(4));
        assert(t =~= first + seq![0x0au8] + rest);
    }
}

/// Bytes that are no text are quoted one by one: a control character and a byte beyond ASCII as
/// `\x` and two hexadecimal digits, a backslash and a quote behind a backslash, and any other byte
/// as it is.
pub proof fn law_raw_string(b: Seq<u8>, i: int)
    requires
        0 <= i < b.len(),
    ensures
        ({
            let t = pchtxt_nxpch::escaped_raw(b, i);
            let rest = pchtxt_nxpch::escaped_raw(b, i + 1);
            let x = b[i];
            &&& x < 0x20 || x >= 0x7f ==> {
                &&& t.len() == 4 + rest.len()
                &&& t[0] == 0x5c && t[1] == 0x78
                &&& pchtxt_words::nibble(t[2]) is Some && pchtxt_words::nibble(t[3]) is Some
                &&& 16 * pchtxt_words::nibble(t[2])->0 + pchtxt_words::nibble(t[3])->0 == x
                &&& t.subrange(4, t.len() as int) == rest
            }
            &&& x == 0x5c || x == 0x22 ==> t == seq![0x5cu8, x] + rest
            &&& 0x20 <= x < 0x7f && x != 0x5c && x != 0x22 ==> t == seq![x] + rest
        }),
{
    reveal_strlit("\\x");
    is_ascii_spec_bytes("\\x");
    assert("\\x".spec_bytes() =~= seq![0x5cu8, 0x78]);
    let x = b[i];
    reveal_with_fuel(crate::pchtxt_writer::hex_text, 3);
    let t = pchtxt_nxpch::escaped_raw(b, i);
    let rest = pchtxt_nxpch::escaped_raw(b, i + 1);
    if x < 0x20 || x >= 0x7f {
        let two = crate::pchtxt_writer::hex_text(x as int, 2);
        assert((x as int) / 16 % 16 == (x as int) / 16);
        assert(two =~= seq![
            crate::pchtxt_writer::hex_digit((x as int) / 16),
            crate::pchtxt_writer::hex_digit((x as int) % 16),
        ]);
        assert(t =~= seq![0x5cu8, 0x78] + two + rest);
        assert(t.subrange(4, t.len() as int) =~= rest);
    }
}

/// A string is quoted: as text where it is text, and byte by byte otherwise.
pub proof fn law_quoted(b: Seq<u8>)
    ensures
        valid_utf8(b) ==> pchtxt_nxpch::quoted(b) == seq![0x22u8] + pchtxt_nxpch::debug_escaped(b)
            + seq![0x22u8],
        !valid_utf8(b) ==> pchtxt_nxpch::quoted(b) == seq![0x22u8] + pchtxt_nxpch::escaped_raw(
            b,
            0,
        ) + seq![0x22u8],
{
}

} // verus!
