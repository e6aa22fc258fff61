//! Which of the builds of a source go where.

use crate::option::OutputFormat;
use crate::parse::types;
use crate::parse::types::{
    BuildTarget, CodeInstructionModel, CodeModel, ParsedCode, ParsedCodeInstruction, ParsingResult,
    ResultModel,
};
use crate::text;
use crate::zip_gen::PathSegment;
use vstd::prelude::*;
use vstd::string::*;

verus! {

// ---------------------------------------------------------------------------------------------
// Comparing builds

/// The bits are those of a number that is no number.
pub open spec fn is_nan32(bits: u32) -> bool {
    bits % 0x8000_0000 > 0x7f80_0000
}

pub open spec fn is_nan64(bits: u64) -> bool {
    bits % 0x8000_0000_0000_0000 > 0x7ff0_0000_0000_0000
}

/// The bits stand for the same number: the two zeros are the same, and so are all that are no
/// numbers.
pub open spec fn same_float(a: u32, b: u32) -> bool {
    ||| a == b
    ||| is_nan32(a) && is_nan32(b)
    ||| a % 0x8000_0000 == 0 && b % 0x8000_0000 == 0
}

pub open spec fn same_double(a: u64, b: u64) -> bool {
    ||| a == b
    ||| is_nan64(a) && is_nan64(b)
    ||| a % 0x8000_0000_0000_0000 == 0 && b % 0x8000_0000_0000_0000 == 0
}

pub open spec fn same_instruction(a: CodeInstructionModel, b: CodeInstructionModel) -> bool {
    match (a, b) {
        (ParsedCodeInstruction::Float(x), ParsedCodeInstruction::Float(y)) => same_float(x, y),
        (ParsedCodeInstruction::Double(x), ParsedCodeInstruction::Double(y)) => same_double(x, y),
        _ => a == b,
    }
}

pub open spec fn same_line(a: CodeModel, b: CodeModel) -> bool {
    &&& a.line_span == b.line_span
    &&& a.address == b.address
    &&& a.instruction_span == b.instruction_span
    &&& same_instruction(a.instruction, b.instruction)
}

pub open spec fn same_code(a: Seq<CodeModel>, b: Seq<CodeModel>) -> bool {
    a.len() == b.len() && forall|i: int| 0 <= i < a.len() ==> same_line(#[trigger] a[i], b[i])
}

/// The builds are the same but for their targets.
pub open spec fn same_but_target(a: ResultModel, b: ResultModel) -> bool {
    &&& a.mod_name == b.mod_name
    &&& a.mod_version == b.mod_version
    &&& a.target_build == b.target_build
    &&& a.forced_output_format == b.forced_output_format
    &&& a.user_settings == b.user_settings
    &&& same_code(a.code, b.code)
    &&& a.labels == b.labels
}

fn same_text(a: &String, b: &String) -> (r: bool)
    ensures
        r == (text::bytes_of(*a) == text::bytes_of(*b)),
{
    text::bytes_eq(a.as_str().as_bytes(), b.as_str().as_bytes())
}

fn compare_instructions(a: &ParsedCodeInstruction, b: &ParsedCodeInstruction) -> (r: bool)
    ensures
        r == same_instruction(a@, b@),
{
    match (a, b) {
        (ParsedCodeInstruction::Byte(x), ParsedCodeInstruction::Byte(y)) => *x == *y,
        (ParsedCodeInstruction::Short(x), ParsedCodeInstruction::Short(y)) => *x == *y,
        (ParsedCodeInstruction::Int(x), ParsedCodeInstruction::Int(y)) => *x == *y,
        (ParsedCodeInstruction::Long(x), ParsedCodeInstruction::Long(y)) => *x == *y,
        (ParsedCodeInstruction::Float(x), ParsedCodeInstruction::Float(y)) => {
            let p: u32 = *x % 0x8000_0000;
            let q: u32 = *y % 0x8000_0000;
            *x == *y || (p > 0x7f80_0000 && q > 0x7f80_0000) || (p == 0 && q == 0)
        },
        (ParsedCodeInstruction::Double(x), ParsedCodeInstruction::Double(y)) => {
            let p: u64 = *x % 0x8000_0000_0000_0000;
            let q: u64 = *y % 0x8000_0000_0000_0000;
            *x == *y || (p > 0x7ff0_0000_0000_0000 && q > 0x7ff0_0000_0000_0000) || (p == 0 && q
                == 0)
        },
        (ParsedCodeInstruction::String(x), ParsedCodeInstruction::String(y)) => same_text(x, y),
        (ParsedCodeInstruction::Asm(x), ParsedCodeInstruction::Asm(y)) => same_text(x, y),
        _ => false,
    }
}

fn compare_code(a: &Vec<ParsedCode>, b: &Vec<ParsedCode>) -> (r: bool)
    ensures
        r == same_code(types::code_models(a@), types::code_models(b@)),
{
    let ghost x = types::code_models(a@);
    let ghost y = types::code_models(b@);
    if a.len() != b.len() {
        return false;
    }
    let mut i: usize = 0;
    while i < a.len()
        invariant
            i <= a@.len() == b@.len(),
            x == types::code_models(a@),
            y == types::code_models(b@),
            forall|k: int| 0 <= k < i ==> same_line(#[trigger] x[k], y[k]),
        decreases a@.len() - i,
    {
        assert(x[i as int] == a@[i as int]@ && y[i as int] == b@[i as int]@);
        let same = a[i].line_span == b[i].line_span && a[i].address.code_address()
            == b[i].address.code_address() && a[i].instruction_span == b[i].instruction_span
            && compare_instructions(&a[i].instruction, &b[i].instruction);
        if !same {
            assert(!same_line(x[i as int], y[i as int]));
            return false;
        }
        i += 1;
    }
    true
}

fn compare_texts(a: &Vec<String>, b: &Vec<String>) -> (r: bool)
    ensures
        r == (types::texts(a@) == types::texts(b@)),
{
    let ghost x = types::texts(a@);
    let ghost y = types::texts(b@);
    if a.len() != b.len() {
        assert(x.len() != y.len());
        return false;
    }
    let mut i: usize = 0;
    while i < a.len()
        invariant
            i <= a@.len() == b@.len(),
            x == types::texts(a@),
            y == types::texts(b@),
            forall|k: int| 0 <= k < i ==> (#[trigger] x[k]) == y[k],
        decreases a@.len() - i,
    {
        if !same_text(&a[i], &b[i]) {
            assert(x[i as int] != y[i as int]);
            return false;
        }
        i += 1;
    }
    assert(x =~= y);
    true
}

/// Whether two builds are the same but for their targets.
pub fn same_build(a: &ParsingResult, b: &ParsingResult) -> (r: bool)
    ensures
        r == same_but_target(a@, b@),
{
    let same_names = match (&a.mod_name, &b.mod_name) {
        (None, None) => true,
        (Some(x), Some(y)) => same_text(x, y),
        _ => false,
    };
    let same_formats = match (a.forced_output_format, b.forced_output_format) {
        (None, None) => true,
        (Some(x), Some(y)) => x == y,
        _ => false,
    };
    if !same_names || !same_formats || !same_text(&a.mod_version, &b.mod_version) || a.target_build
        != b.target_build || !compare_texts(&a.user_settings, &b.user_settings) || !compare_code(
        &a.code,
        &b.code,
    ) {
        return false;
    }
    let ghost x = types::label_models(a.labels@);
    let ghost y = types::label_models(b.labels@);
    if a.labels.len() != b.labels.len() {
        assert(x.len() != y.len());
        return false;
    }
    let mut i: usize = 0;
    while i < a.labels.len()
        invariant
            i <= a.labels@.len() == b.labels@.len(),
            x == types::label_models(a.labels@),
            y == types::label_models(b.labels@),
            forall|k: int| 0 <= k < i ==> (#[trigger] x[k]) == y[k],
        decreases a.labels@.len() - i,
    {
        assert(x[i as int] == (text::bytes_of(a.labels@[i as int].0), a.labels@[i as int].1@));
        if !same_text(&a.labels[i].0, &b.labels[i].0) || a.labels[i].1.code_address()
            != b.labels[i].1.code_address() {
            assert(x[i as int] != y[i as int]);
            return false;
        }
        i += 1;
    }
    assert(x =~= y);
    true
}

// ---------------------------------------------------------------------------------------------
// A single build

/// The one build among those for the two targets; the number of builds where there are more, or
/// none. A build for each target counts as one where they are the same.
pub open spec fn single_build(emulator: Seq<ResultModel>, hardware: Seq<ResultModel>) -> Result<
    ResultModel,
    int,
> {
    if emulator.len() == 1 && hardware.len() == 1 {
        if same_but_target(hardware[0], emulator[0]) {
            Ok(emulator[0])
        } else {
            Err(2)
        }
    } else if emulator.len() == 1 && hardware.len() == 0 {
        Ok(emulator[0])
    } else if emulator.len() == 0 && hardware.len() == 1 {
        Ok(hardware[0])
    } else {
        Err((emulator.len() + hardware.len()) as int)
    }
}

/// The one build among those for the two targets, or their number.
pub fn choose_single(emulator: Vec<ParsingResult>, hardware: Vec<ParsingResult>) -> (r: Result<
    ParsingResult,
    usize,
>)
    requires
        emulator@.len() + hardware@.len() <= usize::MAX,
    ensures
        ({
            let m = single_build(
                types::result_models(emulator@),
                types::result_models(hardware@),
            );
            &&& r matches Ok(build) ==> m == Ok::<ResultModel, int>(build@)
            &&& r matches Err(count) ==> m == Err::<ResultModel, int>(count as int)
        }),
{
    let mut emulator = emulator;
    let mut hardware = hardware;
    let ghost es = types::result_models(emulator@);
    let ghost hs = types::result_models(hardware@);
    if emulator.len() == 1 && hardware.len() == 1 {
        assert(hs[0] == hardware@[0]@ && es[0] == emulator@[0]@);
        if same_build(&hardware[0], &emulator[0]) {
            Ok(emulator.remove(0))
        } else {
            Err(2)
        }
    } else if emulator.len() == 1 && hardware.len() == 0 {
        assert(es[0] == emulator@[0]@);
        Ok(emulator.remove(0))
    } else if emulator.len() == 0 && hardware.len() == 1 {
        assert(hs[0] == hardware@[0]@);
        Ok(hardware.remove(0))
    } else {
        Err(emulator.len() + hardware.len())
    }
}

/// The builds of a list that are for a target, among the first `n`.
pub open spec fn of_target(rs: Seq<ResultModel>, target: BuildTarget, n: int) -> Seq<ResultModel>
    decreases n,
{
    if n <= 0 {
        Seq::empty()
    } else if rs[n - 1].build_target == target {
        of_target(rs, target, n - 1).push(rs[n - 1])
    } else {
        of_target(rs, target, n - 1)
    }
}

/// Parts builds by their targets: those for the emulator, and those for the hardware.
pub fn part_targets(results: Vec<ParsingResult>) -> (r: (Vec<ParsingResult>, Vec<ParsingResult>))
    ensures
        ({
            let rs = types::result_models(results@);
            let n = rs.len() as int;
            &&& types::result_models(r.0@) == of_target(rs, BuildTarget::Emulator, n)
            &&& types::result_models(r.1@) == of_target(rs, BuildTarget::Hardware, n)
            &&& r.0@.len() + r.1@.len() == n
        }),
{
    let ghost all = results@;
    let ghost rs = types::result_models(all);
    let mut rest = results;
    let mut emulator: Vec<ParsingResult> = Vec::new();
    let mut hardware: Vec<ParsingResult> = Vec::new();
    assert(types::result_models(emulator@) =~= Seq::empty());
    assert(types::result_models(hardware@) =~= Seq::empty());
    let mut k: Ghost<int> = Ghost(0);
    assert(rest@ =~= all.subrange(0, all.len() as int));
    while rest.len() > 0
        invariant
            0 <= k@ <= all.len(),
            rs == types::result_models(all),
            rest@ == all.subrange(k@, all.len() as int),
            types::result_models(emulator@) == of_target(rs, BuildTarget::Emulator, k@),
            types::result_models(hardware@) == of_target(rs, BuildTarget::Hardware, k@),
            emulator@.len() + hardware@.len() == k@,
        decreases rest@.len(),
    {
        let build = rest.remove(0);
        assert(rs[k@] == build@);
        let ghost es = emulator@;
        let ghost hs = hardware@;
        match build.build_target {
            BuildTarget::Emulator => {
                emulator.push(build);
                assert(types::result_models(emulator@) =~= types::result_models(es).push(build@));
            },
            BuildTarget::Hardware => {
                hardware.push(build);
                assert(types::result_models(hardware@) =~= types::result_models(hs).push(build@));
            },
        }
        proof {
            k@ = k@ + 1;
        }
    }
    (emulator, hardware)
}

// ---------------------------------------------------------------------------------------------
// Paths

/// Every build asks for the patch text format.
pub open spec fn all_pchtxt(rs: Seq<ResultModel>) -> bool {
    forall|i: int|
        0 <= i < rs.len() ==> (#[trigger] rs[i]).forced_output_format == Some(OutputFormat::Pchtxt)
}

/// The directories of the patches for an emulator.
pub fn emulator_segments() -> (r: Vec<PathSegment>)
    ensures
        r@ == seq![PathSegment::ModName, PathSegment::Static("exefs")],
{
    let mut r: Vec<PathSegment> = Vec::new();
    r.push(PathSegment::ModName);
    r.push(PathSegment::Static("exefs"));
    r
}

/// The directories of the patches for the hardware: those of the loader of patch text files
/// where all builds ask for that format.
pub fn hardware_segments(results: &Vec<ParsingResult>) -> (r: Vec<PathSegment>)
    ensures
        r@ == if all_pchtxt(types::result_models(results@)) {
            seq![
                PathSegment::Static("switch"),
                PathSegment::Static("ipswitch"),
                PathSegment::ModName,
            ]
        } else {
            seq![
                PathSegment::Static("atmosphere"),
                PathSegment::Static("exefs_patches"),
                PathSegment::ModName,
            ]
        },
{
    let ghost rs = types::result_models(results@);
    let mut all = true;
    let mut i: usize = 0;
    while i < results.len()
        invariant
            i <= results@.len(),
            rs == types::result_models(results@),
            all == forall|k: int|
                0 <= k < i ==> (#[trigger] rs[k]).forced_output_format == Some(
                    OutputFormat::Pchtxt,
                ),
        decreases results@.len() - i,
    {
        assert(rs[i as int] == results@[i as int]@);
        let asks = match results[i].forced_output_format {
            Some(OutputFormat::Pchtxt) => true,
            _ => false,
        };
        all = all && asks;
        i += 1;
    }
    let mut r: Vec<PathSegment> = Vec::new();
    if all {
        r.push(PathSegment::Static("switch"));
        r.push(PathSegment::Static("ipswitch"));
    } else {
        r.push(PathSegment::Static("atmosphere"));
        r.push(PathSegment::Static("exefs_patches"));
    }
    r.push(PathSegment::ModName);
    r
}

/// The offset of the last dot among the first `n` bytes.
pub open spec fn last_dot(b: Seq<u8>, n: int) -> Option<int>
    decreases n,
{
    if n <= 0 {
        None
    } else if b[n - 1] == 0x2e {
        Some(n - 1)
    } else {
        last_dot(b, n - 1)
    }
}

/// Splits a path at its last dot.
pub fn split_extension(path: &str) -> (r: (&str, Option<&str>))
    ensures
        ({
            let b = path.spec_bytes();
            match last_dot(b, b.len() as int) {
                Some(k) => r.0.spec_bytes() == b.subrange(0, k) && (r.1 matches Some(ext)
                    && ext.spec_bytes() == b.subrange(k + 1, b.len() as int)),
                None => r.0 == path && r.1 is None,
            }
        }),
{
    let b = path.as_bytes();
    let len: usize = b.len();
    let mut i: usize = len;
    while i > 0
        invariant
            i <= len,
            len == b@.len(),
            b@ == path.spec_bytes(),
            last_dot(b@, len as int) == last_dot(b@, i as int),
        decreases i,
    {
        if b[i - 1] == 0x2e {
            proof {
                text::lemma_str_valid(path@);
                text::lemma_ascii_boundary(b@, i - 1);
            }
            return (text::slice(path, 0, i - 1), Some(text::slice(path, i, len)));
        }
        i -= 1;
    }
    (path, None)
}

/// The format of a single file.
#[derive(Clone, Copy, Debug, PartialEq, Eq, Structural)]
pub enum SingleFormat {
    /// The file of that name, as IPS.
    Ips,
    /// The file of that name, as patch text.
    Pchtxt,
    /// The name with `.ips` behind it.
    AddIps,
    /// The name with `.pchtxt` behind it.
    AddPchtxt,
    /// The extension is that of no format.
    Unknown,
}

/// The format of a file by the extension of its name, in lower case. Without an extension it is
/// IPS where the patch can be written so.
pub fn single_format(extension: Option<&str>, fits_ips: bool) -> (r: SingleFormat)
    ensures
        r == match extension {
            None => if fits_ips {
                SingleFormat::AddIps
            } else {
                SingleFormat::AddPchtxt
            },
            Some(ext) => if ext.spec_bytes() == "ips".spec_bytes() {
                SingleFormat::Ips
            } else if ext.spec_bytes() == "pchtxt".spec_bytes() {
                SingleFormat::Pchtxt
            } else {
                SingleFormat::Unknown
            },
        },
{
    match extension {
        None => if fits_ips {
            SingleFormat::AddIps
        } else {
            SingleFormat::AddPchtxt
        },
        Some(ext) => if text::bytes_eq(ext.as_bytes(), "ips".as_bytes()) {
            SingleFormat::Ips
        } else if text::bytes_eq(ext.as_bytes(), "pchtxt".as_bytes()) {
            SingleFormat::Pchtxt
        } else {
            SingleFormat::Unknown
        },
    }
}

// ---------------------------------------------------------------------------------------------
// Laws

/// Being the same but for the target goes both ways, and holds of a build and itself.
pub proof fn law_same_build(a: ResultModel, b: ResultModel)
    ensures
        same_but_target(a, a),
        same_but_target(a, b) == same_but_target(b, a),
{
    if same_but_target(a, b) {
        assert forall|i: int| 0 <= i < b.code.len() implies same_line(
            #[trigger] b.code[i],
            a.code[i],
        ) by {
            assert(same_line(a.code[i], b.code[i]));
        }
    }
    if same_but_target(b, a) {
        assert forall|i: int| 0 <= i < a.code.len() implies same_line(
            #[trigger] a.code[i],
            b.code[i],
        ) by {
            assert(same_line(b.code[i], a.code[i]));
        }
    }
}

} // verus!
