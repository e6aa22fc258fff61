//! Lines of code: labels, data and instructions.

use crate::closest;
use crate::json;
use crate::numbers;
use crate::parse::address::CodeAddress;
use crate::parse::types;
use crate::parse::types::{
    CodeInstructionModel, CodeModel, FloatReading, Halt, HaltModel, ParseDiagnostic,
    ParseDiagnosticModel, ParsedCode, ParsedCodeInstruction, ReadingModel,
};
use crate::preprocessor::macros;
use crate::preprocessor::token::IntParseError;
use crate::text;
use crate::utils::SourceSpan;
use vstd::prelude::*;
use vstd::string::*;

verus! {

/// A label, with the place where it was declared.
#[derive(Debug)]
pub struct Label {
    pub name: String,
    pub span: SourceSpan,
    pub address: CodeAddress,
}

// ---------------------------------------------------------------------------------------------
// Model

#[verifier::ext_equal]
pub struct LabelModel {
    pub name: Seq<u8>,
    pub span: SourceSpan,
    pub address: u32,
}

impl View for Label {
    type V = LabelModel;

    open spec fn view(&self) -> LabelModel {
        LabelModel { name: text::bytes_of(self.name), span: self.span, address: self.address@ }
    }
}

pub open spec fn labels_view(v: Seq<Label>) -> Seq<LabelModel> {
    Seq::new(v.len(), |i: int| v[i]@)
}

/// The place of the first label with a name, from index `i` on.
pub open spec fn find_label(labels: Seq<LabelModel>, name: Seq<u8>, i: int) -> Option<SourceSpan>
    decreases labels.len() - i,
{
    if i < 0 || i >= labels.len() {
        None
    } else if labels[i].name == name {
        Some(labels[i].span)
    } else {
        find_label(labels, name, i + 1)
    }
}

/// No two labels have the same name.
pub open spec fn distinct(labels: Seq<LabelModel>) -> bool {
    forall|i: int, j: int|
        0 <= i < j < labels.len() ==> (#[trigger] labels[i]).name != (#[trigger] labels[j]).name
}

/// What a text is as a floating-point number, from index `i` of what is known on.
pub open spec fn find_reading(floats: Seq<ReadingModel>, s: Seq<u8>, i: int) -> Option<
    ReadingModel,
>
    decreases floats.len() - i,
{
    if i < 0 || i >= floats.len() {
        None
    } else if floats[i].text == s {
        Some(floats[i])
    } else {
        find_reading(floats, s, i + 1)
    }
}

/// What a line makes: the code or the label that it adds, the address behind it, and what is
/// said about it.
#[verifier::ext_equal]
pub struct LineModel {
    pub next: Option<u32>,
    pub code: Option<CodeModel>,
    pub label: Option<LabelModel>,
    pub diags: Seq<ParseDiagnosticModel>,
}

/// A line that only draws a diagnostic.
pub open spec fn only_says(address: u32, d: ParseDiagnosticModel) -> LineModel {
    LineModel { next: Some(address), code: None, label: None, diags: seq![d] }
}

/// What the declaration of a label makes.
pub open spec fn label_line(
    labels: Seq<LabelModel>,
    source_offset: usize,
    address: u32,
    name: Seq<u8>,
) -> LineModel {
    let at = SourceSpan { offset: source_offset, len: name.len() as usize };
    if !macros::has_name(name) {
        only_says(address, ParseDiagnostic::InvalidLabel { at })
    } else {
        match find_label(labels, name, 0) {
            Some(original) => only_says(
                address,
                ParseDiagnostic::DuplicateLabels { at, original },
            ),
            None => LineModel {
                next: Some(address),
                code: None,
                label: Some(LabelModel { name, span: at, address }),
                diags: Seq::empty(),
            },
        }
    }
}

/// What data is: its value, its length in bytes, and what is said about it.
#[verifier::ext_equal]
pub struct DatumModel {
    pub value: CodeInstructionModel,
    pub width: u32,
    pub diags: Seq<ParseDiagnosticModel>,
}

/// The names of the kinds of data.
pub open spec fn data_directives() -> Seq<&'static str> {
    seq!["byte", "short", "int", "long", "float", "double", "string"]
}

pub open spec fn bad_integer(e: IntParseError, at: SourceSpan) -> Seq<ParseDiagnosticModel> {
    seq![ParseDiagnostic::InvalidInteger { cause: e.spec_message().spec_bytes(), at }]
}

pub open spec fn bad_float(cause: Seq<u8>, at: SourceSpan) -> Seq<ParseDiagnosticModel> {
    seq![ParseDiagnostic::InvalidFloat { cause, at }]
}

/// An integer. One that is wrong counts as 0.
pub open spec fn integer_datum<T>(
    read: Option<Result<T, IntParseError>>,
    zero: T,
    at: SourceSpan,
) -> Result<(T, Seq<ParseDiagnosticModel>), HaltModel> {
    match read {
        None => Err(Halt::BadSign),
        Some(Ok(v)) => Ok((v, Seq::empty())),
        Some(Err(e)) => Ok((zero, bad_integer(e, at))),
    }
}

/// The bits of a floating-point number. One that is wrong counts as 0.
pub open spec fn float_datum<T>(read: Result<T, Seq<u8>>, zero: T, at: SourceSpan) -> (
    T,
    Seq<ParseDiagnosticModel>,
) {
    match read {
        Ok(v) => (v, Seq::empty()),
        Err(cause) => (zero, bad_float(cause, at)),
    }
}

/// A string. One that is wrong counts as empty.
pub open spec fn string_datum(value: Seq<u8>, at: SourceSpan) -> DatumModel {
    match json::json5_string(value) {
        Ok(s) => DatumModel {
            value: ParsedCodeInstruction::String(s),
            width: s.len() as u32,
            diags: Seq::empty(),
        },
        Err(e) => {
            let place = match e.position {
                Some((_, column)) => SourceSpan { offset: at.offset.wrapping_add(column), len: 1 },
                None => SourceSpan { offset: at.offset.wrapping_add(at.len), len: 0 },
            };
            DatumModel {
                value: ParsedCodeInstruction::String(Seq::empty()),
                width: 0,
                diags: seq![ParseDiagnostic::InvalidString { cause: e.message, at: place }],
            }
        },
    }
}

pub open spec fn made_datum<T>(
    r: Result<(T, Seq<ParseDiagnosticModel>), HaltModel>,
    value: spec_fn(T) -> CodeInstructionModel,
    width: u32,
) -> Result<Option<DatumModel>, HaltModel> {
    match r {
        Err(h) => Err(h),
        Ok((v, diags)) => Ok(Some(DatumModel { value: value(v), width, diags })),
    }
}

/// The data that a directive and its value at `at` stand for; `None` for an unknown directive.
pub open spec fn datum(
    directive: Seq<u8>,
    value: Seq<u8>,
    at: SourceSpan,
    floats: Seq<ReadingModel>,
) -> Result<Option<DatumModel>, HaltModel> {
    if directive == "byte".spec_bytes() {
        made_datum(
            integer_datum(numbers::maybe_signed_u8(value), 0, at),
            |v: u8| ParsedCodeInstruction::Byte(v),
            1,
        )
    } else if directive == "short".spec_bytes() {
        made_datum(
            integer_datum(numbers::maybe_signed_u16(value), 0, at),
            |v: u16| ParsedCodeInstruction::Short(v),
            2,
        )
    } else if directive == "int".spec_bytes() {
        made_datum(
            integer_datum(numbers::maybe_signed_u32(value), 0, at),
            |v: u32| ParsedCodeInstruction::Int(v),
            4,
        )
    } else if directive == "long".spec_bytes() {
        made_datum(
            integer_datum(numbers::maybe_signed_u64(value), 0, at),
            |v: u64| ParsedCodeInstruction::Long(v),
            8,
        )
    } else if directive == "float".spec_bytes() {
        match find_reading(floats, value, 0) {
            None => Err(Halt::NeedsFloat(value)),
            Some(f) => made_datum(
                Ok(float_datum(f.single, 0, at)),
                |v: u32| ParsedCodeInstruction::Float(v),
                4,
            ),
        }
    } else if directive == "double".spec_bytes() {
        match find_reading(floats, value, 0) {
            None => Err(Halt::NeedsFloat(value)),
            Some(f) => made_datum(
                Ok(float_datum(f.double, 0, at)),
                |v: u64| ParsedCodeInstruction::Double(v),
                8,
            ),
        }
    } else if directive == "string".spec_bytes() {
        Ok(Some(string_datum(value, at)))
    } else {
        Ok(None)
    }
}

/// The number of bytes from an address on.
pub open spec fn remaining(address: u32) -> u32 {
    (CodeAddress::MAX_ALLOWED_ADDR - address + 1) as u32
}

/// What code of a width makes at an address.
pub open spec fn placed(address: u32, d: DatumModel, line_span: SourceSpan, at: SourceSpan) -> LineModel {
    if d.width > remaining(address) {
        LineModel {
            next: None,
            code: None,
            label: None,
            diags: d.diags + seq![
                ParseDiagnostic::CodeOverflow {
                    bytes: d.width,
                    bytes_available: remaining(address),
                    at,
                },
            ],
        }
    } else {
        LineModel {
            next: if address + d.width <= CodeAddress::MAX_ALLOWED_ADDR {
                Some((address + d.width) as u32)
            } else {
                None
            },
            code: Some(CodeModel { line_span, address, instruction: d.value, instruction_span: at }),
            label: None,
            diags: d.diags,
        }
    }
}

/// What a line that starts with a dot makes.
pub open spec fn data_line(
    source_offset: usize,
    address: u32,
    code: Seq<u8>,
    line_span: SourceSpan,
    floats: Seq<ReadingModel>,
) -> Result<LineModel, HaltModel> {
    let end = code.len() as int;
    let k = text::find_byte(code, 0x20, 1, end);
    if k >= end {
        Ok(
            only_says(
                address,
                ParseDiagnostic::MissingDataValue {
                    at: source_offset.wrapping_add((end - 1) as usize),
                },
            ),
        )
    } else {
        let directive = code.subrange(1, text::drop_space(code, 1, k));
        let v = text::skip_space(code, k + 1, end);
        let at = SourceSpan {
            offset: source_offset.wrapping_add(v as usize),
            len: (end - v) as usize,
        };
        match datum(directive, code.subrange(v, end), at, floats) {
            Err(h) => Err(h),
            Ok(Some(d)) => Ok(
                placed(
                    address,
                    d,
                    line_span,
                    SourceSpan { offset: source_offset, len: end as usize },
                ),
            ),
            Ok(None) => Ok(
                only_says(
                    address,
                    ParseDiagnostic::UnknownDataDirective {
                        closest: data_directives()[closest::closest_index(
                            data_directives(),
                            directive,
                        )],
                        at: SourceSpan { offset: source_offset, len: directive.len() as usize },
                    },
                ),
            ),
        }
    }
}

/// What a line of code at an address makes.
pub open spec fn line_parsed(
    labels: Seq<LabelModel>,
    source_offset: usize,
    address: u32,
    code: Seq<u8>,
    line_span: SourceSpan,
    floats: Seq<ReadingModel>,
) -> Result<LineModel, HaltModel> {
    if code.len() > 0 && code.last() == 0x3a {
        Ok(label_line(labels, source_offset, address, code.drop_last()))
    } else if code.len() > 0 && code[0] == 0x2e {
        data_line(source_offset, address, code, line_span, floats)
    } else {
        Ok(
            placed(
                address,
                DatumModel {
                    value: ParsedCodeInstruction::Asm(code),
                    width: 4,
                    diags: Seq::empty(),
                },
                line_span,
                SourceSpan { offset: source_offset, len: code.len() as usize },
            ),
        )
    }
}

pub open spec fn opt_seq<T>(x: Option<T>) -> Seq<T> {
    match x {
        None => Seq::empty(),
        Some(x) => seq![x],
    }
}

// ---------------------------------------------------------------------------------------------
// Laws

proof fn lemma_find_label(labels: Seq<LabelModel>, name: Seq<u8>, i: int)
    requires
        0 <= i,
        find_label(labels, name, i) is None,
    ensures
        forall|k: int| i <= k < labels.len() ==> (#[trigger] labels[k]).name != name,
    decreases labels.len() - i,
{
    if i < labels.len() {
        lemma_find_label(labels, name, i + 1);
    }
}

/// A line never gives two labels the same name.
pub proof fn law_labels_stay_distinct(
    labels: Seq<LabelModel>,
    source_offset: usize,
    address: u32,
    code: Seq<u8>,
    line_span: SourceSpan,
    floats: Seq<ReadingModel>,
)
    requires
        distinct(labels),
    ensures
        line_parsed(labels, source_offset, address, code, line_span, floats) matches Ok(line)
            ==> distinct(labels + opt_seq(line.label)),
{
    match line_parsed(labels, source_offset, address, code, line_span, floats) {
        Ok(line) => {
            if line.label is Some {
                lemma_find_label(labels, (line.label->0).name, 0);
            } else {
                assert(labels + opt_seq(line.label) =~= labels);
            }
        },
        Err(_) => {},
    }
}

/// The code of a line lies inside the space that addresses reach, and the line behind it starts
/// where it ends.
pub proof fn law_code_fits(
    labels: Seq<LabelModel>,
    source_offset: usize,
    address: u32,
    code: Seq<u8>,
    line_span: SourceSpan,
    floats: Seq<ReadingModel>,
)
    requires
        address <= CodeAddress::MAX_ALLOWED_ADDR,
    ensures
        line_parsed(labels, source_offset, address, code, line_span, floats) matches Ok(line) ==> {
            &&& line.next matches Some(next) ==> address <= next <= CodeAddress::MAX_ALLOWED_ADDR
            &&& line.code matches Some(c) ==> {
                &&& c.address == address
                &&& line.next is None ==> c.instruction is String || address
                    + 8 > CodeAddress::MAX_ALLOWED_ADDR
            }
            &&& line.code is None && line.next is Some ==> line.next == Some(address)
        },
{
}

// ---------------------------------------------------------------------------------------------
// Reading lines

fn label_place(labels: &Vec<Label>, name: &str) -> (r: Option<SourceSpan>)
    ensures
        r == find_label(labels_view(labels@), name.spec_bytes(), 0),
{
    let mut i: usize = 0;
    while i < labels.len()
        invariant
            i <= labels@.len(),
            find_label(labels_view(labels@), name.spec_bytes(), 0) == find_label(
                labels_view(labels@),
                name.spec_bytes(),
                i as int,
            ),
        decreases labels@.len() - i,
    {
        if text::bytes_eq(labels[i].name.as_str().as_bytes(), name.as_bytes()) {
            return Some(labels[i].span);
        }
        i += 1;
    }
    None
}

fn reading_at(floats: &Vec<FloatReading>, s: &str) -> (r: Option<usize>)
    ensures
        r is Some <==> find_reading(types::reading_models(floats@), s.spec_bytes(), 0) is Some,
        r matches Some(i) ==> i < floats@.len() && floats@[i as int]@ == find_reading(
            types::reading_models(floats@),
            s.spec_bytes(),
            0,
        )->0,
{
    let mut i: usize = 0;
    while i < floats.len()
        invariant
            i <= floats@.len(),
            find_reading(types::reading_models(floats@), s.spec_bytes(), 0) == find_reading(
                types::reading_models(floats@),
                s.spec_bytes(),
                i as int,
            ),
        decreases floats@.len() - i,
    {
        if text::bytes_eq(floats[i].text.as_str().as_bytes(), s.as_bytes()) {
            return Some(i);
        }
        i += 1;
    }
    None
}

fn tell_bad_integer(e: IntParseError, at: SourceSpan, diags: &mut Vec<ParseDiagnostic>)
    ensures
        types::parse_diagnostics(final(diags)@) == types::parse_diagnostics(old(diags)@)
            + bad_integer(e, at),
{
    types::tell(diags, ParseDiagnostic::InvalidInteger { cause: text::own(e.message()), at });
}

fn read_string(value: &str, at: SourceSpan, diags: &mut Vec<ParseDiagnostic>) -> (r: (
    ParsedCodeInstruction,
    u32,
))
    ensures
        ({
            let d = string_datum(value.spec_bytes(), at);
            &&& r.0@ == d.value
            &&& r.1 == d.width
            &&& types::parse_diagnostics(final(diags)@) == types::parse_diagnostics(old(diags)@)
                + d.diags
        }),
{
    assert(types::parse_diagnostics(diags@) + Seq::empty() =~= types::parse_diagnostics(diags@));
    match json::json5_from_str(value) {
        Ok(s) => {
            let width: u32 = s.as_str().as_bytes().len() as u32;
            (ParsedCodeInstruction::String(s), width)
        },
        Err(e) => {
            let place = match e.position {
                Some((_, column)) => SourceSpan { offset: at.offset.wrapping_add(column), len: 1 },
                None => SourceSpan { offset: at.offset.wrapping_add(at.len), len: 0 },
            };
            types::tell(diags, ParseDiagnostic::InvalidString { cause: e.message, at: place });
            let empty = text::own("");
            proof {
                reveal_strlit("");
                assert(text::bytes_of(empty) =~= Seq::empty());
            }
            (ParsedCodeInstruction::String(empty), 0)
        },
    }
}

fn read_datum(
    directive: &str,
    value: &str,
    at: SourceSpan,
    floats: &Vec<FloatReading>,
    diags: &mut Vec<ParseDiagnostic>,
) -> (r: Result<Option<(ParsedCodeInstruction, u32)>, Halt>)
    ensures
        ({
            let d = datum(
                directive.spec_bytes(),
                value.spec_bytes(),
                at,
                types::reading_models(floats@),
            );
            &&& r matches Err(h) ==> d == Err::<Option<DatumModel>, HaltModel>(h@)
            &&& r matches Ok(None) ==> d == Ok::<Option<DatumModel>, HaltModel>(None)
                && final(diags)@ == old(diags)@
            &&& r matches Ok(Some((v, w))) ==> {
                &&& d matches Ok(Some(d))
                &&& v@ == d.value
                &&& w == d.width
                &&& types::parse_diagnostics(final(diags)@) == types::parse_diagnostics(
                    old(diags)@,
                ) + d.diags
            }
        }),
{
    assert(types::parse_diagnostics(diags@) + Seq::empty() =~= types::parse_diagnostics(diags@));
    let b = directive.as_bytes();
    if text::bytes_eq(b, "byte".as_bytes()) {
        let v = match numbers::parse_maybe_signed_u8(value) {
            None => {
                return Err(Halt::BadSign);
            },
            Some(Ok(v)) => v,
            Some(Err(e)) => {
                tell_bad_integer(e, at, diags);
                0
            },
        };
        Ok(Some((ParsedCodeInstruction::Byte(v), 1)))
    } else if text::bytes_eq(b, "short".as_bytes()) {
        let v = match numbers::parse_maybe_signed_u16(value) {
            None => {
                return Err(Halt::BadSign);
            },
            Some(Ok(v)) => v,
            Some(Err(e)) => {
                tell_bad_integer(e, at, diags);
                0
            },
        };
        Ok(Some((ParsedCodeInstruction::Short(v), 2)))
    } else if text::bytes_eq(b, "int".as_bytes()) {
        let v = match numbers::parse_maybe_signed_u32(value) {
            None => {
                return Err(Halt::BadSign);
            },
            Some(Ok(v)) => v,
            Some(Err(e)) => {
                tell_bad_integer(e, at, diags);
                0
            },
        };
        Ok(Some((ParsedCodeInstruction::Int(v), 4)))
    } else if text::bytes_eq(b, "long".as_bytes()) {
        let v = match numbers::parse_maybe_signed_u64(value) {
            None => {
                return Err(Halt::BadSign);
            },
            Some(Ok(v)) => v,
            Some(Err(e)) => {
                tell_bad_integer(e, at, diags);
                0
            },
        };
        Ok(Some((ParsedCodeInstruction::Long(v), 8)))
    } else if text::bytes_eq(b, "float".as_bytes()) {
        match reading_at(floats, value) {
            None => Err(Halt::NeedsFloat(text::own(value))),
            Some(i) => {
                let v = match &floats[i].single {
                    Ok(v) => *v,
                    Err(cause) => {
                        types::tell(
                            diags,
                            ParseDiagnostic::InvalidFloat { cause: cause.clone(), at },
                        );
                        0
                    },
                };
                Ok(Some((ParsedCodeInstruction::Float(v), 4)))
            },
        }
    } else if text::bytes_eq(b, "double".as_bytes()) {
        match reading_at(floats, value) {
            None => Err(Halt::NeedsFloat(text::own(value))),
            Some(i) => {
                let v = match &floats[i].double {
                    Ok(v) => *v,
                    Err(cause) => {
                        types::tell(
                            diags,
                            ParseDiagnostic::InvalidFloat { cause: cause.clone(), at },
                        );
                        0
                    },
                };
                Ok(Some((ParsedCodeInstruction::Double(v), 8)))
            },
        }
    } else if text::bytes_eq(b, "string".as_bytes()) {
        Ok(Some(read_string(value, at, diags)))
    } else {
        Ok(None)
    }
}

/// The code and the labels that have been found.
#[derive(Debug)]
pub struct CodeOutput {
    pub code: Vec<ParsedCode>,
    pub labels: Vec<Label>,
}

impl CodeOutput {
    /// `self` has what `earlier` had, and what a line makes behind it.
    pub open spec fn extends(&self, earlier: &CodeOutput, line: LineModel) -> bool {
        &&& types::code_models(self.code@) == types::code_models(earlier.code@) + opt_seq(line.code)
        &&& labels_view(self.labels@) == labels_view(earlier.labels@) + opt_seq(line.label)
    }

    fn place(
        &mut self,
        address: CodeAddress,
        value: ParsedCodeInstruction,
        width: u32,
        line_span: SourceSpan,
        at: SourceSpan,
        diags: &mut Vec<ParseDiagnostic>,
    ) -> (r: Option<CodeAddress>)
        ensures
            ({
                let d = DatumModel { value: value@, width, diags: Seq::empty() };
                let line = placed(address@, d, line_span, at);
                &&& final(self).extends(old(self), line)
                &&& types::parse_diagnostics(final(diags)@) == types::parse_diagnostics(
                    old(diags)@,
                ) + line.diags
                &&& r is Some <==> line.next is Some
                &&& r matches Some(a) ==> Some(a@) == line.next
            }),
    {
        let left = address.remaining_bytes();
        assert(types::parse_diagnostics(diags@) + Seq::empty()
            =~= types::parse_diagnostics(diags@));
        assert(types::code_models(self.code@) + Seq::empty() =~= types::code_models(self.code@));
        assert(labels_view(self.labels@) + Seq::empty() =~= labels_view(self.labels@));
        if width > left {
            let d = ParseDiagnostic::CodeOverflow { bytes: width, bytes_available: left, at };
            types::tell(diags, d);
            assert(Seq::empty() + seq![d@] =~= seq![d@]);
            return None;
        }
        let ghost before = self.code@;
        let c = ParsedCode { line_span, address, instruction: value, instruction_span: at };
        self.code.push(c);
        assert(types::code_models(self.code@) =~= types::code_models(before) + seq![c@]);
        address.increment(width)
    }

    fn add_label(
        &mut self,
        source_offset: usize,
        address: CodeAddress,
        name: &str,
        diags: &mut Vec<ParseDiagnostic>,
    )
        ensures
            ({
                let line = label_line(
                    labels_view(old(self).labels@),
                    source_offset,
                    address@,
                    name.spec_bytes(),
                );
                &&& final(self).extends(old(self), line)
                &&& types::parse_diagnostics(final(diags)@) == types::parse_diagnostics(
                    old(diags)@,
                ) + line.diags
            }),
    {
        let at = SourceSpan { offset: source_offset, len: name.as_bytes().len() };
        assert(types::parse_diagnostics(diags@) + Seq::empty()
            =~= types::parse_diagnostics(diags@));
        assert(types::code_models(self.code@) + Seq::empty() =~= types::code_models(self.code@));
        assert(labels_view(self.labels@) + Seq::empty() =~= labels_view(self.labels@));
        if !macros::contains_name(name) {
            types::tell(diags, ParseDiagnostic::InvalidLabel { at });
            return;
        }
        match label_place(&self.labels, name) {
            Some(original) => {
                types::tell(diags, ParseDiagnostic::DuplicateLabels { at, original });
            },
            None => {
                let ghost before = self.labels@;
                let label = Label { name: text::own(name), span: at, address };
                self.labels.push(label);
                assert(labels_view(self.labels@) =~= labels_view(before) + seq![label@]);
            },
        }
    }

    /// Adds what a line of code at an address makes, and returns the address behind it.
    pub fn parse_code(
        &mut self,
        source_offset: usize,
        address: CodeAddress,
        code: &str,
        line_span: SourceSpan,
        floats: &Vec<FloatReading>,
        diags: &mut Vec<ParseDiagnostic>,
    ) -> (r: Result<Option<CodeAddress>, Halt>)
        ensures
            ({
                let parsed = line_parsed(
                    labels_view(old(self).labels@),
                    source_offset,
                    address@,
                    code.spec_bytes(),
                    line_span,
                    types::reading_models(floats@),
                );
                &&& r matches Err(h) ==> parsed == Err::<LineModel, HaltModel>(h@)
                &&& r matches Ok(next) ==> {
                    &&& parsed matches Ok(line)
                    &&& final(self).extends(old(self), line)
                    &&& types::parse_diagnostics(final(diags)@) == types::parse_diagnostics(
                        old(diags)@,
                    ) + line.diags
                    &&& next is Some <==> line.next is Some
                    &&& next matches Some(a) ==> Some(a@) == line.next
                }
            }),
    {
        let b = code.as_bytes();
        let len: usize = b.len();
        proof {
            text::lemma_str_valid(code@);
        }
        if len > 0 && b[len - 1] == 0x3a {
            proof {
                text::lemma_ascii_boundary(b@, len - 1);
            }
            let name = text::slice(code, 0, len - 1);
            assert(name.spec_bytes() =~= b@.drop_last());
            self.add_label(source_offset, address, name, diags);
            return Ok(Some(address));
        }
        let at = SourceSpan { offset: source_offset, len };
        if !(len > 0 && b[0] == 0x2e) {
            return Ok(
                self.place(
                    address,
                    ParsedCodeInstruction::Asm(text::own(code)),
                    4,
                    line_span,
                    at,
                    diags,
                ),
            );
        }
        assert(types::parse_diagnostics(diags@) + Seq::empty()
            =~= types::parse_diagnostics(diags@));
        assert(types::code_models(self.code@) + Seq::empty() =~= types::code_models(self.code@));
        assert(labels_view(self.labels@) + Seq::empty() =~= labels_view(self.labels@));
        let k = text::byte_position(b, 0x20, 1, len);
        if k >= len {
            types::tell(
                diags,
                ParseDiagnostic::MissingDataValue { at: source_offset.wrapping_add(len - 1) },
            );
            return Ok(Some(address));
        }
        let e = text::space_start(b, 1, k);
        let v = text::space_end(b, k + 1, len);
        proof {
            text::lemma_find_byte(b@, 0x20, 1, len as int);
            text::lemma_ascii_boundary(b@, 0);
            text::lemma_ascii_boundary(b@, k as int);
            text::lemma_drop_space(b@, 1, k as int);
            text::lemma_skip_space(b@, k + 1, len as int);
        }
        let directive = text::slice(code, 1, e);
        let value = text::slice(code, v, len);
        let value_span = SourceSpan { offset: source_offset.wrapping_add(v), len: len - v };
        let ghost before = types::parse_diagnostics(diags@);
        match read_datum(directive, value, value_span, floats, diags) {
            Err(h) => Err(h),
            Ok(Some((value, width))) => {
                let ghost said = types::parse_diagnostics(diags@);
                let r = self.place(address, value, width, line_span, at, diags);
                proof {
                    let d = DatumModel { value: value@, width, diags: Seq::empty() };
                    let more = placed(address@, d, line_span, at).diags;
                    assert(said + more =~= before + (said.subrange(
                        before.len() as int,
                        said.len() as int,
                    ) + more));
                    assert(Seq::<ParseDiagnosticModel>::empty() + more =~= more);
                }
                Ok(r)
            },
            Ok(None) => {
                let names: [&'static str; 7] = [
                    "byte",
                    "short",
                    "int",
                    "long",
                    "float",
                    "double",
                    "string",
                ];
                assert(names@ =~= data_directives());
                let closest = closest::closest_key(directive, &names);
                types::tell(
                    diags,
                    ParseDiagnostic::UnknownDataDirective {
                        closest,
                        at: SourceSpan { offset: source_offset, len: e - 1 },
                    },
                );
                Ok(Some(address))
            },
        }
    }
}

} // verus!
