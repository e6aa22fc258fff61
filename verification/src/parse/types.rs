//! Builds, their code, and what is said about them.

use crate::option::{BuildId, OutputFormat};
use crate::parse::address::CodeAddress;
use crate::preprocessor::directive;
use crate::preprocessor::directive::PreprocessorDiagnostic;
use crate::text;
use crate::utils::SourceSpan;
use vstd::prelude::*;

verus! {

/// The names of the settings that a user chose, one for each layer.
pub type SettingsVec = Vec<String>;

/// One of the builds that a source makes.
#[derive(Debug, PartialEq, Eq)]
pub struct ParsingResult {
    pub build_target: BuildTarget,
    pub mod_name: Option<String>,
    pub mod_version: String,
    pub target_build: BuildId,
    pub forced_output_format: Option<OutputFormat>,
    pub user_settings: SettingsVec,
    pub code: Vec<ParsedCode>,
    pub labels: Vec<(String, CodeAddress)>,
}

/// What the caller restricts the builds to: one program, and the first settings.
#[derive(Debug, PartialEq, Eq)]
pub struct ForcedBuildOption<Texts = Vec<String>> {
    pub build_id: Option<BuildId>,
    pub options: Texts,
}

#[derive(Clone, Copy, Debug, PartialEq, Eq, PartialOrd, Ord, Hash, Structural)]
pub enum BuildTarget {
    Emulator,
    Hardware,
}

#[derive(Debug, PartialEq, Eq)]
pub struct ParsedCode {
    pub line_span: SourceSpan,
    pub address: CodeAddress,
    pub instruction: ParsedCodeInstruction,
    pub instruction_span: SourceSpan,
}

/// Data, or an instruction to assemble. Floating-point numbers are given by their bits.
#[derive(Debug, PartialEq, Eq)]
pub enum ParsedCodeInstruction<Text = String> {
    Byte(u8),
    Short(u16),
    Int(u32),
    Long(u64),
    Float(u32),
    Double(u64),
    String(Text),
    Asm(Text),
}

/// What a text is as a floating-point number of either width: its bits, or why it is none.
#[derive(Debug, PartialEq, Eq)]
pub struct FloatReading<Text = String> {
    pub text: Text,
    pub single: Result<u32, Text>,
    pub double: Result<u64, Text>,
}

/// Why a source could not be parsed to its end.
#[derive(Debug, PartialEq, Eq)]
pub enum Halt<Text = String> {
    /// What this text is as a floating-point number has to be known first.
    NeedsFloat(Text),
    /// The macros in a line or in a condition do not expand within the limit, or the arithmetic
    /// of a condition has no value.
    NoCondition,
    /// The macros in a line do not expand within the limit.
    NoExpansion,
    /// A number has a sign that its type has no place for.
    BadSign,
    /// Nothing follows an equals sign.
    NoValue,
}

#[derive(Debug, PartialEq, Eq, Hash)]
#[allow(inconsistent_fields)]
pub enum ParseDiagnostic<Text = String> {
    MissingModVersion,
    DuplicateBuildId { at: SourceSpan, original: SourceSpan },
    DuplicateOutputFormat { at: SourceSpan, original: SourceSpan },
    MissingBuildId,
    UnsupportedCodeAddress { at: SourceSpan },
    InvalidCodeAddress { cause: Text, at: SourceSpan },
    CodeOverflow { bytes: u32, bytes_available: u32, at: SourceSpan },
    NoOriginCode { at: SourceSpan, cleared_from: Option<usize> },
    DuplicateLabels { at: SourceSpan, original: SourceSpan },
    InvalidLabel { at: SourceSpan },
    MissingDataValue { at: usize },
    InvalidInteger { cause: Text, at: SourceSpan },
    InvalidFloat { cause: Text, at: SourceSpan },
    InvalidString { cause: Text, at: SourceSpan },
    UnknownDataDirective { closest: &'static str, at: SourceSpan },
    Preprocessor(PreprocessorDiagnostic<Text>),
}

// ---------------------------------------------------------------------------------------------
// Models

pub type CodeInstructionModel = ParsedCodeInstruction<Seq<u8>>;

impl View for ParsedCodeInstruction<String> {
    type V = ParsedCodeInstruction<Seq<u8>>;

    open spec fn view(&self) -> ParsedCodeInstruction<Seq<u8>> {
        match *self {
            ParsedCodeInstruction::Byte(v) => ParsedCodeInstruction::Byte(v),
            ParsedCodeInstruction::Short(v) => ParsedCodeInstruction::Short(v),
            ParsedCodeInstruction::Int(v) => ParsedCodeInstruction::Int(v),
            ParsedCodeInstruction::Long(v) => ParsedCodeInstruction::Long(v),
            ParsedCodeInstruction::Float(v) => ParsedCodeInstruction::Float(v),
            ParsedCodeInstruction::Double(v) => ParsedCodeInstruction::Double(v),
            ParsedCodeInstruction::String(s) => ParsedCodeInstruction::String(text::bytes_of(s)),
            ParsedCodeInstruction::Asm(s) => ParsedCodeInstruction::Asm(text::bytes_of(s)),
        }
    }
}

impl Clone for ParsedCodeInstruction<String> {
    fn clone(&self) -> (r: Self)
        ensures
            r@ == self@,
    {
        match self {
            ParsedCodeInstruction::Byte(v) => ParsedCodeInstruction::Byte(*v),
            ParsedCodeInstruction::Short(v) => ParsedCodeInstruction::Short(*v),
            ParsedCodeInstruction::Int(v) => ParsedCodeInstruction::Int(*v),
            ParsedCodeInstruction::Long(v) => ParsedCodeInstruction::Long(*v),
            ParsedCodeInstruction::Float(v) => ParsedCodeInstruction::Float(*v),
            ParsedCodeInstruction::Double(v) => ParsedCodeInstruction::Double(*v),
            ParsedCodeInstruction::String(s) => ParsedCodeInstruction::String(s.clone()),
            ParsedCodeInstruction::Asm(s) => ParsedCodeInstruction::Asm(s.clone()),
        }
    }
}

#[verifier::ext_equal]
pub struct CodeModel {
    pub line_span: SourceSpan,
    pub address: u32,
    pub instruction: CodeInstructionModel,
    pub instruction_span: SourceSpan,
}

impl View for ParsedCode {
    type V = CodeModel;

    open spec fn view(&self) -> CodeModel {
        CodeModel {
            line_span: self.line_span,
            address: self.address@,
            instruction: self.instruction@,
            instruction_span: self.instruction_span,
        }
    }
}

impl Clone for ParsedCode {
    fn clone(&self) -> (r: Self)
        ensures
            r@ == self@,
    {
        ParsedCode {
            line_span: self.line_span,
            address: self.address,
            instruction: self.instruction.clone(),
            instruction_span: self.instruction_span,
        }
    }
}

pub open spec fn code_models(v: Seq<ParsedCode>) -> Seq<CodeModel> {
    Seq::new(v.len(), |i: int| v[i]@)
}

pub open spec fn texts(v: Seq<String>) -> Seq<Seq<u8>> {
    Seq::new(v.len(), |i: int| text::bytes_of(v[i]))
}

pub open spec fn label_models(v: Seq<(String, CodeAddress)>) -> Seq<(Seq<u8>, u32)> {
    Seq::new(v.len(), |i: int| (text::bytes_of(v[i].0), v[i].1@))
}

pub open spec fn opt_text(s: Option<String>) -> Option<Seq<u8>> {
    match s {
        None => None,
        Some(s) => Some(text::bytes_of(s)),
    }
}

#[verifier::ext_equal]
pub struct ResultModel {
    pub build_target: BuildTarget,
    pub mod_name: Option<Seq<u8>>,
    pub mod_version: Seq<u8>,
    pub target_build: BuildId,
    pub forced_output_format: Option<OutputFormat>,
    pub user_settings: Seq<Seq<u8>>,
    pub code: Seq<CodeModel>,
    pub labels: Seq<(Seq<u8>, u32)>,
}

impl View for ParsingResult {
    type V = ResultModel;

    open spec fn view(&self) -> ResultModel {
        ResultModel {
            build_target: self.build_target,
            mod_name: opt_text(self.mod_name),
            mod_version: text::bytes_of(self.mod_version),
            target_build: self.target_build,
            forced_output_format: self.forced_output_format,
            user_settings: texts(self.user_settings@),
            code: code_models(self.code@),
            labels: label_models(self.labels@),
        }
    }
}

pub open spec fn result_models(v: Seq<ParsingResult>) -> Seq<ResultModel> {
    Seq::new(v.len(), |i: int| v[i]@)
}

pub type ForcedModel = ForcedBuildOption<Seq<Seq<u8>>>;

impl View for ForcedBuildOption<Vec<String>> {
    type V = ForcedBuildOption<Seq<Seq<u8>>>;

    open spec fn view(&self) -> ForcedBuildOption<Seq<Seq<u8>>> {
        ForcedBuildOption { build_id: self.build_id, options: texts(self.options@) }
    }
}

impl Default for ForcedBuildOption<Vec<String>> {
    fn default() -> (r: Self)
        ensures
            r@ == (ForcedModel { build_id: None, options: Seq::empty() }),
    {
        let r = ForcedBuildOption { build_id: None, options: Vec::new() };
        assert(texts(r.options@) =~= Seq::empty());
        r
    }
}

pub open spec fn bits_view<T>(r: Result<T, String>) -> Result<T, Seq<u8>> {
    match r {
        Ok(v) => Ok(v),
        Err(e) => Err(text::bytes_of(e)),
    }
}

pub type ReadingModel = FloatReading<Seq<u8>>;

impl View for FloatReading<String> {
    type V = FloatReading<Seq<u8>>;

    open spec fn view(&self) -> FloatReading<Seq<u8>> {
        FloatReading {
            text: text::bytes_of(self.text),
            single: bits_view(self.single),
            double: bits_view(self.double),
        }
    }
}

pub open spec fn reading_models(v: Seq<FloatReading>) -> Seq<ReadingModel> {
    Seq::new(v.len(), |i: int| v[i]@)
}

pub type HaltModel = Halt<Seq<u8>>;

impl View for Halt<String> {
    type V = Halt<Seq<u8>>;

    open spec fn view(&self) -> Halt<Seq<u8>> {
        match *self {
            Halt::NeedsFloat(s) => Halt::NeedsFloat(text::bytes_of(s)),
            Halt::NoCondition => Halt::NoCondition,
            Halt::NoExpansion => Halt::NoExpansion,
            Halt::BadSign => Halt::BadSign,
            Halt::NoValue => Halt::NoValue,
        }
    }
}

pub type ParseDiagnosticModel = ParseDiagnostic<Seq<u8>>;

impl View for ParseDiagnostic<String> {
    type V = ParseDiagnostic<Seq<u8>>;

    open spec fn view(&self) -> ParseDiagnostic<Seq<u8>> {
        match *self {
            ParseDiagnostic::MissingModVersion => ParseDiagnostic::MissingModVersion,
            ParseDiagnostic::DuplicateBuildId { at, original } =>
                ParseDiagnostic::DuplicateBuildId { at, original },
            ParseDiagnostic::DuplicateOutputFormat { at, original } =>
                ParseDiagnostic::DuplicateOutputFormat { at, original },
            ParseDiagnostic::MissingBuildId => ParseDiagnostic::MissingBuildId,
            ParseDiagnostic::UnsupportedCodeAddress { at } =>
                ParseDiagnostic::UnsupportedCodeAddress { at },
            ParseDiagnostic::InvalidCodeAddress { cause, at } =>
                ParseDiagnostic::InvalidCodeAddress { cause: text::bytes_of(cause), at },
            ParseDiagnostic::CodeOverflow { bytes, bytes_available, at } =>
                ParseDiagnostic::CodeOverflow { bytes, bytes_available, at },
            ParseDiagnostic::NoOriginCode { at, cleared_from } =>
                ParseDiagnostic::NoOriginCode { at, cleared_from },
            ParseDiagnostic::DuplicateLabels { at, original } =>
                ParseDiagnostic::DuplicateLabels { at, original },
            ParseDiagnostic::InvalidLabel { at } => ParseDiagnostic::InvalidLabel { at },
            ParseDiagnostic::MissingDataValue { at } => ParseDiagnostic::MissingDataValue { at },
            ParseDiagnostic::InvalidInteger { cause, at } =>
                ParseDiagnostic::InvalidInteger { cause: text::bytes_of(cause), at },
            ParseDiagnostic::InvalidFloat { cause, at } =>
                ParseDiagnostic::InvalidFloat { cause: text::bytes_of(cause), at },
            ParseDiagnostic::InvalidString { cause, at } =>
                ParseDiagnostic::InvalidString { cause: text::bytes_of(cause), at },
            ParseDiagnostic::UnknownDataDirective { closest, at } =>
                ParseDiagnostic::UnknownDataDirective { closest, at },
            ParseDiagnostic::Preprocessor(d) => ParseDiagnostic::Preprocessor(d@),
        }
    }
}

pub open spec fn parse_diagnostics(v: Seq<ParseDiagnostic>) -> Seq<ParseDiagnosticModel> {
    Seq::new(v.len(), |i: int| v[i]@)
}

/// What the preprocessor says, as said about the source.
pub open spec fn from_preprocessor(ds: Seq<directive::DiagnosticModel>) -> Seq<
    ParseDiagnosticModel,
> {
    Seq::new(ds.len(), |i: int| ParseDiagnostic::Preprocessor(ds[i]))
}

/// Appends a diagnostic to a list.
pub(crate) fn tell(diags: &mut Vec<ParseDiagnostic>, d: ParseDiagnostic)
    ensures
        parse_diagnostics(final(diags)@) == parse_diagnostics(old(diags)@) + seq![d@],
{
    diags.push(d);
    assert(parse_diagnostics(diags@) =~= parse_diagnostics(old(diags)@) + seq![d@]);
}

/// Appends what the preprocessor said to a list.
pub(crate) fn tell_all(diags: &mut Vec<ParseDiagnostic>, from: Vec<PreprocessorDiagnostic>)
    ensures
        parse_diagnostics(final(diags)@) == parse_diagnostics(old(diags)@) + from_preprocessor(
            directive::diagnostics(from@),
        ),
{
    let ghost before = parse_diagnostics(diags@);
    let ghost all = from_preprocessor(directive::diagnostics(from@));
    let ghost whole = from@;
    let ghost n = from@.len() as int;
    let mut from = from;
    let mut turned: Vec<PreprocessorDiagnostic> = Vec::new();
    while from.len() > 0
        invariant
            from@.len() + turned@.len() == n,
            n == whole.len(),
            from@ == whole.subrange(0, from@.len() as int),
            forall|k: int| 0 <= k < turned@.len() ==> (#[trigger] turned@[k]) == whole[n - 1 - k],
        decreases from@.len(),
    {
        if let Some(d) = from.pop() {
            turned.push(d);
        }
    }
    let ghost back = turned@;
    while turned.len() > 0
        invariant
            turned@.len() <= n,
            n == all.len(),
            n == whole.len(),
            back.len() == n,
            all == from_preprocessor(directive::diagnostics(whole)),
            turned@ == back.subrange(0, turned@.len() as int),
            forall|k: int| 0 <= k < n ==> (#[trigger] back[k]) == whole[n - 1 - k],
            parse_diagnostics(diags@) == before + all.subrange(0, n - turned@.len()),
        decreases turned@.len(),
    {
        if let Some(d) = turned.pop() {
            proof {
                let m = n - turned@.len();
                assert(d == back[turned@.len() as int]);
                assert(all.subrange(0, m) =~= all.subrange(0, m - 1) + seq![all[m - 1]]);
                assert(before + all.subrange(0, m) =~= before + all.subrange(0, m - 1)
                    + seq![all[m - 1]]);
            }
            tell(diags, ParseDiagnostic::Preprocessor(d));
        }
    }
    assert(all.subrange(0, n) =~= all);
}

pub(crate) fn copy_texts(from: &Vec<String>) -> (r: Vec<String>)
    ensures
        texts(r@) == texts(from@),
{
    let mut r: Vec<String> = Vec::new();
    let mut i: usize = 0;
    while i < from.len()
        invariant
            i <= from@.len(),
            r@.len() == i,
            forall|k: int| 0 <= k < i ==> text::bytes_of(#[trigger] r@[k]) == text::bytes_of(
                from@[k],
            ),
        decreases from@.len() - i,
    {
        r.push(from[i].clone());
        i += 1;
    }
    assert(texts(r@) =~= texts(from@));
    r
}

pub(crate) fn copy_code(from: &Vec<ParsedCode>) -> (r: Vec<ParsedCode>)
    ensures
        code_models(r@) == code_models(from@),
{
    let mut r: Vec<ParsedCode> = Vec::new();
    let mut i: usize = 0;
    while i < from.len()
        invariant
            i <= from@.len(),
            r@.len() == i,
            forall|k: int| 0 <= k < i ==> (#[trigger] r@[k])@ == from@[k]@,
        decreases from@.len() - i,
    {
        r.push(from[i].clone());
        i += 1;
    }
    assert(code_models(r@) =~= code_models(from@));
    r
}

} // verus!
