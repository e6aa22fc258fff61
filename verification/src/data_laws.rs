//! How much room code takes, and what stands in it.

use crate::assemble;
use crate::json;
use crate::parse::code;
use crate::parse::code::LabelModel;
use crate::parse::types::{
    CodeInstructionModel, ParseDiagnostic, ParsedCodeInstruction, ReadingModel,
};
use crate::preprocessor::macros;
use crate::source_laws;
use crate::text;
use crate::utils::SourceSpan;
use vstd::prelude::*;
use vstd::string::*;

verus! {

// ---------------------------------------------------------------------------------------------
// Bytes

/// The number that bytes are, the lowest one first.
pub open spec fn bytes_value(b: Seq<u8>) -> int
    decreases b.len(),
{
    if b.len() == 0 {
        0
    } else {
        b[0] + 256 * bytes_value(b.subrange(1, b.len() as int))
    }
}

/// How many different numbers `n` bytes can be.
pub open spec fn byte_range(n: nat) -> int
    decreases n,
{
    if n == 0 {
        1
    } else {
        256 * byte_range((n - 1) as nat)
    }
}

proof fn lemma_le_bytes(v: int, n: nat)
    requires
        0 <= v < byte_range(n),
    ensures
        assemble::le_bytes(v, n).len() == n,
        bytes_value(assemble::le_bytes(v, n)) == v,
    decreases n,
{
    if n > 0 {
        let b = assemble::le_bytes(v, n);
        let rest = assemble::le_bytes(v / 256, (n - 1) as nat);
        lemma_le_bytes(v / 256, (n - 1) as nat);
        assert(b.subrange(1, b.len() as int) =~= rest);
    }
}

/// The bytes of data are as many as its kind has, and they are its value, the lowest byte first.
/// Those of a string are its text.
pub proof fn law_data_bytes(i: CodeInstructionModel)
    ensures
        ({
            let b = assemble::data_bytes(i);
            match i {
                ParsedCodeInstruction::Byte(v) => b.len() == 1 && bytes_value(b) == v,
                ParsedCodeInstruction::Short(v) => b.len() == 2 && bytes_value(b) == v,
                ParsedCodeInstruction::Int(v) => b.len() == 4 && bytes_value(b) == v,
                ParsedCodeInstruction::Long(v) => b.len() == 8 && bytes_value(b) == v,
                ParsedCodeInstruction::Float(v) => b.len() == 4 && bytes_value(b) == v,
                ParsedCodeInstruction::Double(v) => b.len() == 8 && bytes_value(b) == v,
                ParsedCodeInstruction::String(s) => b == s,
                ParsedCodeInstruction::Asm(_) => b.len() == 0,
            }
        }),
{
    reveal_with_fuel(byte_range, 9);
    match i {
        ParsedCodeInstruction::Byte(v) => {
            reveal_with_fuel(bytes_value, 2);
        },
        ParsedCodeInstruction::Short(v) => lemma_le_bytes(v as int, 2),
        ParsedCodeInstruction::Int(v) => lemma_le_bytes(v as int, 4),
        ParsedCodeInstruction::Long(v) => lemma_le_bytes(v as int, 8),
        ParsedCodeInstruction::Float(v) => lemma_le_bytes(v as int, 4),
        ParsedCodeInstruction::Double(v) => lemma_le_bytes(v as int, 8),
        ParsedCodeInstruction::String(s) => {},
        ParsedCodeInstruction::Asm(_) => {},
    }
}

// ---------------------------------------------------------------------------------------------
// Lines

/// The room that code takes: the bytes of data, and four for an instruction.
pub open spec fn room(i: CodeInstructionModel) -> int {
    if i is Asm {
        4
    } else {
        assemble::data_bytes(i).len() as int
    }
}

/// Code stands at the address of its line and ends inside the space that addresses reach. The line
/// behind it starts where it ends, if an address is left there. A line that adds no code leads on
/// at its own address, or code has run out of that space.
pub proof fn law_next_line_is_behind(
    labels: Seq<LabelModel>,
    source_offset: usize,
    address: u32,
    line: Seq<u8>,
    line_span: SourceSpan,
    floats: Seq<ReadingModel>,
)
    requires
        address <= 0xffff_feff,
    ensures
        code::line_parsed(labels, source_offset, address, line, line_span, floats) matches Ok(m)
            ==> {
            &&& m.code matches Some(c) ==> {
                let n = room(c.instruction);
                &&& c.address == address
                &&& c.line_span == line_span
                &&& c.instruction_span == SourceSpan {
                    offset: source_offset,
                    len: line.len() as usize,
                }
                &&& n <= u32::MAX ==> {
                    &&& address + n <= 0xffff_ff00
                    &&& m.next == if address + n <= 0xffff_feff {
                        Some((address + n) as u32)
                    } else {
                        None
                    }
                }
            }
            &&& m.code is None && m.next is Some ==> m.next == Some(address)
            &&& m.code is None && m.next is None ==> m.diags.len() > 0 && m.diags.last()
                is CodeOverflow
        },
{
    match code::line_parsed(labels, source_offset, address, line, line_span, floats) {
        Ok(m) => {
            if m.code is Some {
                law_data_bytes((m.code->0).instruction);
            }
        },
        Err(_) => {},
    }
}

/// Code on two lines, the second of which is read where the first leads, does not overlap.
pub proof fn law_lines_do_not_overlap(
    labels: Seq<LabelModel>,
    source_offset: usize,
    address: u32,
    line: Seq<u8>,
    line_span: SourceSpan,
    later_labels: Seq<LabelModel>,
    later_offset: usize,
    later_line: Seq<u8>,
    later_span: SourceSpan,
    floats: Seq<ReadingModel>,
)
    requires
        address <= 0xffff_feff,
    ensures
        code::line_parsed(labels, source_offset, address, line, line_span, floats) matches Ok(m)
            ==> (m.next matches Some(next) ==> (code::line_parsed(
            later_labels,
            later_offset,
            next,
            later_line,
            later_span,
            floats,
        ) matches Ok(n) ==> (m.code matches Some(c) ==> (n.code matches Some(d) ==> room(
            c.instruction,
        ) <= u32::MAX ==> d.address == c.address + room(c.instruction))))),
{
    law_next_line_is_behind(labels, source_offset, address, line, line_span, floats);
    match code::line_parsed(labels, source_offset, address, line, line_span, floats) {
        Ok(m) => {
            if m.next is Some {
                law_next_line_is_behind(
                    later_labels,
                    later_offset,
                    m.next->0,
                    later_line,
                    later_span,
                    floats,
                );
            }
        },
        Err(_) => {},
    }
}

/// A line of data.
pub open spec fn data_text(word: Seq<u8>, value: Seq<u8>) -> Seq<u8> {
    seq![0x2eu8] + word + seq![0x20u8] + value
}

/// A value that starts with a visible ASCII character and does not end with a colon.
pub open spec fn is_value_text(value: Seq<u8>) -> bool {
    value.len() > 0 && 0x21 <= value[0] <= 0x7e && value.last() != 0x3a
}

proof fn lemma_words_apart()
    ensures
        forall|k: int|
            0 <= k < "float".spec_bytes().len() ==> 0x61 <= #[trigger] "float".spec_bytes()[k]
                <= 0x7a,
        forall|k: int|
            0 <= k < "double".spec_bytes().len() ==> 0x61 <= #[trigger] "double".spec_bytes()[k]
                <= 0x7a,
        forall|k: int|
            0 <= k < "string".spec_bytes().len() ==> 0x61 <= #[trigger] "string".spec_bytes()[k]
                <= 0x7a,
        "float".spec_bytes().len() == 5,
        "double".spec_bytes().len() == 6,
        "string".spec_bytes().len() == 6,
        "byte".spec_bytes().len() == 4,
        "short".spec_bytes().len() == 5,
        "int".spec_bytes().len() == 3,
        "long".spec_bytes().len() == 4,
        "short".spec_bytes()[0] == 0x73,
        "float".spec_bytes()[0] == 0x66,
        "double".spec_bytes()[0] == 0x64,
        "string".spec_bytes()[0] == 0x73,
{
    reveal_strlit("float");
    is_ascii_spec_bytes("float");
    reveal_strlit("double");
    is_ascii_spec_bytes("double");
    reveal_strlit("string");
    is_ascii_spec_bytes("string");
    reveal_strlit("byte");
    is_ascii_spec_bytes("byte");
    reveal_strlit("short");
    is_ascii_spec_bytes("short");
    reveal_strlit("int");
    is_ascii_spec_bytes("int");
    reveal_strlit("long");
    is_ascii_spec_bytes("long");
}

/// A line of `.float` or `.double` adds the bits that its value has with that precision, or zero
/// and a diagnostic where the value is no number.
pub proof fn law_float_lines(
    labels: Seq<LabelModel>,
    source_offset: usize,
    address: u32,
    value: Seq<u8>,
    line_span: SourceSpan,
    floats: Seq<ReadingModel>,
    f: ReadingModel,
)
    requires
        address <= 0xffff_fe00,
        is_value_text(value),
        code::find_reading(floats, value, 0) == Some(f),
    ensures
        code::line_parsed(
            labels,
            source_offset,
            address,
            data_text("float".spec_bytes(), value),
            line_span,
            floats,
        ) matches Ok(m) && m.code matches Some(c) && c.instruction == (match f.single {
            Ok(bits) => ParsedCodeInstruction::<Seq<u8>>::Float(bits),
            Err(_) => ParsedCodeInstruction::<Seq<u8>>::Float(0),
        }) && m.diags.len() == (if f.single is Ok {
            0int
        } else {
            1
        }) && m.next == Some((address + 4) as u32),
        code::line_parsed(
            labels,
            source_offset,
            address,
            data_text("double".spec_bytes(), value),
            line_span,
            floats,
        ) matches Ok(m) && m.code matches Some(c) && c.instruction == (match f.double {
            Ok(bits) => ParsedCodeInstruction::<Seq<u8>>::Double(bits),
            Err(_) => ParsedCodeInstruction::<Seq<u8>>::Double(0),
        }) && m.diags.len() == (if f.double is Ok {
            0int
        } else {
            1
        }) && m.next == Some((address + 8) as u32),
{
    lemma_words_apart();
    source_laws::lemma_split_data("float".spec_bytes(), value);
    source_laws::lemma_split_data("double".spec_bytes(), value);
    assert(data_text("float".spec_bytes(), value).last() == value.last());
    assert(data_text("double".spec_bytes(), value).last() == value.last());
}

/// A line of `.string` adds the string that its value is as JSON5.
pub proof fn law_string_lines(
    labels: Seq<LabelModel>,
    source_offset: usize,
    address: u32,
    value: Seq<u8>,
    line_span: SourceSpan,
    floats: Seq<ReadingModel>,
    s: Seq<u8>,
)
    requires
        is_value_text(value),
        json::json5_string(value) == Ok::<Seq<u8>, json::Json5Error<Seq<u8>>>(s),
        address + s.len() <= 0xffff_feff,
    ensures
        code::line_parsed(
            labels,
            source_offset,
            address,
            data_text("string".spec_bytes(), value),
            line_span,
            floats,
        ) matches Ok(m) && m.code matches Some(c) && c.instruction
            == ParsedCodeInstruction::<Seq<u8>>::String(s) && m.diags.len() == 0 && m.next == Some(
            (address + s.len()) as u32,
        ),
{
    lemma_words_apart();
    source_laws::lemma_split_data("string".spec_bytes(), value);
    assert(data_text("string".spec_bytes(), value).last() == value.last());
}

/// A line that is neither a label nor data adds itself as an instruction.
pub proof fn law_instruction_lines(
    labels: Seq<LabelModel>,
    source_offset: usize,
    address: u32,
    line: Seq<u8>,
    line_span: SourceSpan,
    floats: Seq<ReadingModel>,
)
    requires
        line.len() > 0,
        line[0] != 0x2e,
        line.last() != 0x3a,
        address <= 0xffff_fefb,
    ensures
        code::line_parsed(labels, source_offset, address, line, line_span, floats) matches Ok(m)
            && m.code matches Some(c) && c.instruction == ParsedCodeInstruction::<Seq<u8>>::Asm(
            line,
        ) && c.address == address && m.label is None && m.diags.len() == 0 && m.next == Some(
            (address + 4) as u32,
        ),
{
}

/// A line that ends with a colon names the address of what follows, unless it holds no name or the
/// name was given before: then it is told, with the place of the first label of that name.
pub proof fn law_label_lines(
    labels: Seq<LabelModel>,
    source_offset: usize,
    address: u32,
    name: Seq<u8>,
    line_span: SourceSpan,
    floats: Seq<ReadingModel>,
    k: int,
)
    requires
        0 <= k <= labels.len(),
        forall|j: int| 0 <= j < k ==> (#[trigger] labels[j]).name != name,
        k < labels.len() ==> labels[k].name == name,
    ensures
        ({
            let line = name + seq![0x3au8];
            let at = SourceSpan { offset: source_offset, len: name.len() as usize };
            let named = exists|j: int|
                0 <= j < name.len() && (#[trigger] name[j] == 0x5f || 0x41 <= name[j] <= 0x5a
                    || 0x61 <= name[j] <= 0x7a);
            &&& code::line_parsed(
                labels,
                source_offset,
                address,
                line,
                line_span,
                floats,
            ) matches Ok(m)
            &&& m.code is None && m.next == Some(address)
            &&& named && k == labels.len() ==> m.diags.len() == 0 && (m.label matches Some(l)
                && l.name == name && l.address == address && l.span == at)
            &&& named && k < labels.len() ==> m.label is None && m.diags == seq![
                ParseDiagnostic::<Seq<u8>>::DuplicateLabels { at, original: labels[k].span },
            ]
            &&& !named ==> m.label is None && m.diags == seq![
                ParseDiagnostic::<Seq<u8>>::InvalidLabel { at },
            ]
        }),
{
    let line = name + seq![0x3au8];
    assert(line.drop_last() =~= name);
    lemma_found(labels, name, 0, k);
    if exists|j: int|
        0 <= j < name.len() && (#[trigger] name[j] == 0x5f || 0x41 <= name[j] <= 0x5a || 0x61
            <= name[j] <= 0x7a) {
        let j = choose|j: int|
            0 <= j < name.len() && (#[trigger] name[j] == 0x5f || 0x41 <= name[j] <= 0x5a || 0x61
                <= name[j] <= 0x7a);
        assert(text::is_name_start(name[j]));
    } else if macros::has_name(name) {
        let j = choose|j: int| 0 <= j < name.len() && text::is_name_start(#[trigger] name[j]);
        assert(name[j] == 0x5f || 0x41 <= name[j] <= 0x5a || 0x61 <= name[j] <= 0x7a);
    }
}

proof fn lemma_found(labels: Seq<LabelModel>, name: Seq<u8>, i: int, k: int)
    requires
        0 <= i <= k <= labels.len(),
        forall|j: int| i <= j < k ==> (#[trigger] labels[j]).name != name,
        k < labels.len() ==> labels[k].name == name,
    ensures
        code::find_label(labels, name, i) == if k < labels.len() {
            Some(labels[k].span)
        } else {
            None
        },
    decreases k - i,
{
    if i < k {
        assert(labels[i].name != name);
        lemma_found(labels, name, i + 1, k);
    }
}

} // verus!
