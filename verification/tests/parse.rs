use nxpch::numbers::{
    parse_maybe_signed_u16, parse_maybe_signed_u32, parse_maybe_signed_u64, parse_maybe_signed_u8,
    IntParseError,
};
use nxpch::option::{
    ModNameOption, ModVersionOption, NxpchOption, OutputFormat, OutputFormatOption,
    PointerOffsetOption, TargetBuildMatrixEntry, TargetBuildOption, TargetBuildsOption,
    UserSetting, UserSettingsOption,
};
use nxpch::parse::{
    parse_statements, BuildTarget, CodeAddress, FloatReading, ForcedBuildOption, Halt,
    ParseDiagnostic, ParsedCodeInstruction, ParsingResult,
};
use nxpch::pchtxt_nxpch::pchtxt_to_nxpch;
use nxpch::pre_parse::{PreParsedCode, PreParsedStatement};
use nxpch::preprocessor::{MacroDefine, PreprocessorDiagnostic};
use nxpch::utils::SourceSpan;
use std::ops::Range;

type Parsed = Result<(Vec<ParsingResult>, Vec<ParseDiagnostic>), Halt>;

fn statements(source: &str, values: Vec<NxpchOption>) -> Vec<(Range<usize>, PreParsedStatement)> {
    let code = PreParsedCode::parse(source, values.into_iter().map(Ok).collect()).unwrap();
    assert_eq!(code.diagnostics, []);
    code.statements
}

fn build(id: u128) -> NxpchOption {
    NxpchOption::TargetBuild(TargetBuildOption(id))
}

fn version(text: &str) -> NxpchOption {
    NxpchOption::ModVersion(ModVersionOption(text.to_string()))
}

fn forced(build_id: Option<u128>, options: &[&str]) -> ForcedBuildOption {
    ForcedBuildOption { build_id, options: options.iter().map(|o| o.to_string()).collect() }
}

fn parse_for(
    source: &str,
    values: Vec<NxpchOption>,
    targets: Vec<BuildTarget>,
    forced: ForcedBuildOption,
) -> Parsed {
    parse_statements(&statements(source, values), &vec![], &targets, &forced, &vec![], 1000)
}

/// Parses a source behind a build id and a version for one target.
fn parse_one(source: &str) -> Parsed {
    let all = format!("target_build = 1 \nmod_version = '1' \n{}", source);
    parse_for(
        &all,
        vec![build(1), version("1")],
        vec![BuildTarget::Emulator],
        ForcedBuildOption::default(),
    )
}

/// The length of what `parse_one` puts before the source.
const BEFORE: usize = 37;

fn code_of(result: &ParsingResult) -> Vec<(u32, ParsedCodeInstruction)> {
    result
        .code
        .iter()
        .map(|c| (c.address.code_address(), c.instruction.clone()))
        .collect()
}

fn one_code(source: &str) -> Vec<(u32, ParsedCodeInstruction)> {
    let (results, diags) = parse_one(source).unwrap();
    assert_eq!(diags, []);
    assert_eq!(results.len(), 1);
    code_of(&results[0])
}

fn one_said(source: &str) -> Vec<ParseDiagnostic> {
    let (results, diags) = parse_one(source).unwrap();
    assert_eq!(results.len(), 1);
    diags
}

#[test]
fn code_behind_an_origin() {
    let source = ".origin = 0x1000\nnop\n.byte 0x12\nlabel:\n.string \"hi\\n\"\n.int -1\n";
    let (results, diags) = parse_one(source).unwrap();
    assert_eq!(diags, []);
    assert_eq!(
        code_of(&results[0]),
        [
            (0x1000, ParsedCodeInstruction::Asm("nop".to_string())),
            (0x1004, ParsedCodeInstruction::Byte(0x12)),
            (0x1005, ParsedCodeInstruction::String("hi\n".to_string())),
            (0x1008, ParsedCodeInstruction::Int(0xFFFF_FFFF)),
        ]
    );
    assert_eq!(results[0].labels.len(), 1);
    assert_eq!(results[0].labels[0].0, "label");
    assert_eq!(results[0].labels[0].1.code_address(), 0x1005);
    assert_eq!(results[0].target_build, 1);
    assert_eq!(results[0].mod_version, "1");
    assert_eq!(results[0].mod_name, None);
    let first = &results[0].code[0];
    assert_eq!(first.line_span, SourceSpan::new(BEFORE + 17, 3));
    assert_eq!(first.instruction_span, SourceSpan::new(BEFORE + 17, 3));
}

#[test]
fn code_at_an_address() {
    assert_eq!(
        one_code("0x10 = mov x0, x1\n#define AT 0x20\nAT = .short 0x1234\n"),
        [
            (0x10, ParsedCodeInstruction::Asm("mov x0, x1".to_string())),
            (0x20, ParsedCodeInstruction::Short(0x1234)),
        ]
    );
    let (results, _) = parse_one("#define AT 0x20\nAT = nop\n").unwrap();
    assert_eq!(results[0].code[0].instruction_span, SourceSpan::new(BEFORE + 21, 3));
}

#[test]
fn quotes_before_an_equals_sign_make_no_assignment() {
    assert_eq!(
        one_code(".origin = 0\n.string \"a=b\"\n"),
        [(0, ParsedCodeInstruction::String("a=b".to_string()))]
    );
}

#[test]
fn all_kinds_of_data() {
    assert_eq!(
        one_code(".origin = 0\n.byte 255\n.short -2\n.int 0x10\n.long 0x8000000000000000\n"),
        [
            (0, ParsedCodeInstruction::Byte(255)),
            (1, ParsedCodeInstruction::Short(0xFFFE)),
            (3, ParsedCodeInstruction::Int(16)),
            (7, ParsedCodeInstruction::Long(0x8000_0000_0000_0000)),
        ]
    );
}

#[test]
fn floating_point_numbers_are_asked_for() {
    let source = "target_build = 1 \nmod_version = '1' \n.origin = 0\n.float 1.5\n.double 1.5\n";
    let statements = statements(source, vec![build(1), version("1")]);
    let run = |floats: &Vec<FloatReading>| {
        parse_statements(
            &statements,
            &vec![],
            &vec![BuildTarget::Emulator],
            &ForcedBuildOption::default(),
            floats,
            1000,
        )
    };
    assert_eq!(run(&vec![]), Err(Halt::NeedsFloat("1.5".to_string())));
    let known = vec![FloatReading {
        text: "1.5".to_string(),
        single: Ok(1.5f32.to_bits()),
        double: Ok(1.5f64.to_bits()),
    }];
    let (results, diags) = run(&known).unwrap();
    assert_eq!(diags, []);
    assert_eq!(
        code_of(&results[0]),
        [
            (0, ParsedCodeInstruction::Float(1.5f32.to_bits())),
            (4, ParsedCodeInstruction::Double(1.5f64.to_bits())),
        ]
    );
    let wrong = vec![FloatReading {
        text: "1.5".to_string(),
        single: Err("no".to_string()),
        double: Err("neither".to_string()),
    }];
    let (results, diags) = run(&wrong).unwrap();
    assert_eq!(
        diags,
        [
            ParseDiagnostic::InvalidFloat {
                cause: "no".to_string(),
                at: SourceSpan::new(BEFORE + 19, 3)
            },
            ParseDiagnostic::InvalidFloat {
                cause: "neither".to_string(),
                at: SourceSpan::new(BEFORE + 31, 3)
            },
        ]
    );
    assert_eq!(code_of(&results[0])[0], (0, ParsedCodeInstruction::Float(0)));
}

#[test]
fn wrong_lines() {
    let at = |offset: usize, len: usize| SourceSpan::new(BEFORE + offset, len);
    assert_eq!(
        one_said("nop\n"),
        [ParseDiagnostic::NoOriginCode { at: at(0, 3), cleared_from: None }]
    );
    assert_eq!(
        one_said(".origin = 0\n4 = nop\nnop\n"),
        [ParseDiagnostic::NoOriginCode { at: at(20, 3), cleared_from: Some(BEFORE + 12) }]
    );
    assert_eq!(
        one_said("Zz = nop\n"),
        [ParseDiagnostic::InvalidCodeAddress {
            cause: "invalid digit found in string".to_string(),
            at: at(0, 2),
        }]
    );
    assert_eq!(
        one_said("0xFFFFFF00 = nop\n"),
        [ParseDiagnostic::UnsupportedCodeAddress { at: at(0, 10) }]
    );
    assert_eq!(
        one_said("0xFFFFFEFD = nop\n"),
        [ParseDiagnostic::CodeOverflow { bytes: 4, bytes_available: 3, at: at(13, 3) }]
    );
    assert_eq!(
        one_said(".origin = 0\na:\nb:\na:\n"),
        [ParseDiagnostic::DuplicateLabels { at: at(18, 1), original: at(12, 1) }]
    );
    assert_eq!(
        one_said(".origin = 0\n1:\n"),
        [ParseDiagnostic::InvalidLabel { at: at(12, 1) }]
    );
    assert_eq!(
        one_said("0 = .byte\n"),
        [ParseDiagnostic::MissingDataValue { at: BEFORE + 8 }]
    );
    assert_eq!(
        one_said("0 = .byte 256\n"),
        [ParseDiagnostic::InvalidInteger {
            cause: "number too large to fit in target type".to_string(),
            at: at(10, 3),
        }]
    );
    assert_eq!(
        one_said("0 = .btye 1\n"),
        [ParseDiagnostic::UnknownDataDirective { closest: "byte", at: at(4, 4) }]
    );
    assert!(matches!(
        &one_said("0 = .string 'open\n")[..],
        [ParseDiagnostic::InvalidString { .. }]
    ));
}

#[test]
fn what_follows_the_last_address() {
    let source = ".origin = 0xFFFFFEFC\nnop\nnop\n";
    let (results, diags) = parse_one(source).unwrap();
    assert_eq!(code_of(&results[0]).len(), 1);
    assert_eq!(
        diags,
        [ParseDiagnostic::NoOriginCode {
            at: SourceSpan::new(BEFORE + 25, 3),
            cleared_from: Some(BEFORE + 21),
        }]
    );
}

#[test]
fn options_that_come_twice_or_never() {
    let source = "0 = nop\n";
    let (results, diags) = parse_for(
        source,
        vec![],
        vec![BuildTarget::Emulator],
        ForcedBuildOption::default(),
    )
    .unwrap();
    assert_eq!(results.len(), 0);
    assert_eq!(diags, [ParseDiagnostic::MissingModVersion, ParseDiagnostic::MissingBuildId]);

    let source = "target_build = 1 \ntarget_build = 2 \noutput_format = 0 \noutput_format = 0 \n\
        target_builds = [] \n";
    let format = || NxpchOption::OutputFormat(OutputFormatOption(OutputFormat::Ips));
    let (results, diags) = parse_for(
        source,
        vec![
            build(1),
            build(2),
            format(),
            format(),
            NxpchOption::TargetBuilds(TargetBuildsOption(vec![])),
        ],
        vec![BuildTarget::Hardware],
        ForcedBuildOption::default(),
    )
    .unwrap();
    assert_eq!(results.len(), 1);
    assert_eq!(results[0].target_build, 1);
    assert_eq!(results[0].build_target, BuildTarget::Hardware);
    assert_eq!(results[0].forced_output_format, Some(OutputFormat::Ips));
    assert_eq!(results[0].mod_version, "0.1.0");
    assert_eq!(
        diags,
        [
            ParseDiagnostic::DuplicateBuildId {
                at: SourceSpan::new(18, 12),
                original: SourceSpan::new(0, 12),
            },
            ParseDiagnostic::DuplicateOutputFormat {
                at: SourceSpan::new(55, 13),
                original: SourceSpan::new(36, 13),
            },
            ParseDiagnostic::DuplicateBuildId {
                at: SourceSpan::new(74, 13),
                original: SourceSpan::new(0, 12),
            },
        ]
    );
}

#[test]
fn targets_define_macros() {
    let source = "target_build = 1 \nmod_version = 1 \n\
        #ifdef EMULATOR\n0 = .byte 1\n#endif\n#ifdef HARDWARE\n0 = .byte 2\n#endif\n";
    let (results, diags) = parse_for(
        source,
        vec![build(1), version("1")],
        vec![BuildTarget::Emulator, BuildTarget::Hardware],
        ForcedBuildOption::default(),
    )
    .unwrap();
    assert_eq!(diags, []);
    let found: Vec<_> = results.iter().map(|r| (r.build_target, code_of(r))).collect();
    assert_eq!(
        found,
        [
            (BuildTarget::Emulator, vec![(0, ParsedCodeInstruction::Byte(1))]),
            (BuildTarget::Hardware, vec![(0, ParsedCodeInstruction::Byte(2))]),
        ]
    );
}

fn matrix() -> (&'static str, Vec<NxpchOption>) {
    let source = "mod_version = 1 \ntarget_builds = [{defines: ['B 1']}, {defines: ['B 2']}] \n\
        user_settings = [{}, {}, {}, {}] \nB = .byte S\n";
    let setting = |layer: u8, name: &str, define: &str| UserSetting {
        layer,
        name: name.to_string(),
        defines: if define.is_empty() {
            vec![]
        } else {
            vec![MacroDefine::from_str(define).unwrap()]
        },
    };
    let entry = |id: u128, define: &str| TargetBuildMatrixEntry {
        id,
        defines: vec![MacroDefine::from_str(define).unwrap()],
    };
    let values = vec![
        version("1"),
        NxpchOption::TargetBuilds(TargetBuildsOption(vec![entry(11, "B 1"), entry(12, "B 2")])),
        NxpchOption::UserSettings(UserSettingsOption(vec![
            setting(5, "late", ""),
            setting(2, "one", "S 1"),
            setting(2, "two", "S 2"),
            setting(2, "three", "S 3"),
        ])),
    ];
    (source, values)
}

#[test]
fn builds_and_settings_multiply() {
    let (source, values) = matrix();
    let (results, diags) = parse_for(
        source,
        values,
        vec![BuildTarget::Emulator],
        ForcedBuildOption::default(),
    )
    .unwrap();
    assert_eq!(diags, []);
    let found: Vec<_> = results
        .iter()
        .map(|r| (r.target_build, r.user_settings.join("/"), code_of(r)[0].clone()))
        .collect();
    let byte = |at: u32, v: u8| (at, ParsedCodeInstruction::Byte(v));
    assert_eq!(
        found,
        [
            (12, "two/late".to_string(), byte(2, 2)),
            (12, "three/late".to_string(), byte(2, 3)),
            (12, "one/late".to_string(), byte(2, 1)),
            (11, "two/late".to_string(), byte(1, 2)),
            (11, "three/late".to_string(), byte(1, 3)),
            (11, "one/late".to_string(), byte(1, 1)),
        ]
    );
}

#[test]
fn builds_and_settings_are_forced() {
    let (source, values) = matrix();
    let (results, diags) = parse_for(
        source,
        values,
        vec![BuildTarget::Emulator],
        forced(Some(11), &["three", "late"]),
    )
    .unwrap();
    assert_eq!(diags, []);
    assert_eq!(results.len(), 1);
    assert_eq!(results[0].target_build, 11);
    assert_eq!(results[0].user_settings, ["three", "late"]);

    let (source, values) = matrix();
    let none = parse_for(
        source,
        values,
        vec![BuildTarget::Emulator],
        forced(None, &["one", "missing"]),
    );
    assert_eq!(none, Ok((vec![], vec![])));
    let (source, values) = matrix();
    let none = parse_for(source, values, vec![BuildTarget::Emulator], forced(Some(9), &[]));
    assert_eq!(none, Ok((vec![], vec![])));
}

#[test]
fn macros_from_outside() {
    let source = "target_build = 1 \nmod_name = 1 \nmod_version = 1 \npointer_offset = 1 \nA = nop\n";
    let defines = vec![
        MacroDefine::from_str("A 4").unwrap(),
        MacroDefine::from_str("A 8").unwrap(),
    ];
    let values = vec![
        build(1),
        NxpchOption::ModName(ModNameOption("name".to_string())),
        version("1"),
        NxpchOption::PointerOffset(PointerOffsetOption(7)),
    ];
    let (results, diags) = parse_statements(
        &statements(source, values),
        &defines,
        &vec![],
        &ForcedBuildOption::default(),
        &vec![],
        1000,
    )
    .unwrap();
    assert_eq!(results[0].mod_name, Some("name".to_string()));
    assert_eq!(code_of(&results[0])[0].0, 8);
    assert_eq!(
        diags,
        [ParseDiagnostic::Preprocessor(PreprocessorDiagnostic::DuplicateDefine {
            name: "A".to_string(),
            at: SourceSpan::new(0, 1),
            original: SourceSpan::new(0, 1),
        })]
    );
}

#[test]
fn branches_that_do_not_count() {
    let source = "#if 0\ntarget_build = 2 \n0 = nop\n#endif\n#if 1\n";
    let all = format!("target_build = 1 \n{}", source);
    let (results, diags) = parse_for(
        &all,
        vec![build(1), build(2)],
        vec![BuildTarget::Emulator],
        ForcedBuildOption::default(),
    )
    .unwrap();
    assert_eq!(results[0].code.len(), 0);
    assert_eq!(results[0].target_build, 1);
    assert_eq!(
        diags,
        [ParseDiagnostic::Preprocessor(PreprocessorDiagnostic::Unterminated {
            keyword: "if",
            at: SourceSpan::new(57, 3),
        })]
    );
}

#[test]
fn sources_that_cannot_be_read_to_their_end() {
    assert_eq!(parse_one("#if 1 / 0\n"), Err(Halt::NoCondition));
    assert_eq!(parse_one("#define X X\nX\n"), Err(Halt::NoExpansion));
    assert_eq!(parse_one("-1 = nop\n"), Err(Halt::BadSign));
    assert_eq!(parse_one("0 = .byte --128\n"), Err(Halt::BadSign));
    assert_eq!(parse_one(".origin =\n"), Err(Halt::NoValue));
    assert_eq!(parse_one("0 =\n"), Err(Halt::NoValue));
}

#[test]
fn addresses() {
    assert_eq!(CodeAddress::NSO_HEADER_LEN, 0x100);
    assert_eq!(CodeAddress::MAX_ALLOWED_ADDR, u32::MAX - 0x100);
    let address = CodeAddress::new(0xFFFF_FEFF).unwrap();
    assert_eq!(address.code_address(), 0xFFFF_FEFF);
    assert_eq!(address.nso_address(), u32::MAX);
    assert_eq!(address.remaining_bytes(), 1);
    assert!(address.increment(0).is_some());
    assert!(address.increment(1).is_none());
    assert!(address.increment(u32::MAX).is_none());
    assert!(CodeAddress::new(0xFFFF_FF00).is_none());
    let start = CodeAddress::new(0).unwrap();
    assert_eq!(start.increment(5).unwrap().code_address(), 5);
    assert_eq!(start.remaining_bytes(), 0xFFFF_FF00);
}

#[test]
fn integers_as_data() {
    assert_eq!(
        one_code("0x10 = .byte -5\n0x12 = .short -0x1_0\n0x14 = .int 0b11\n017 = .byte 0o17\n"),
        [
            (0x10, ParsedCodeInstruction::Byte(251)),
            (0x12, ParsedCodeInstruction::Short(0xFFF0)),
            (0x14, ParsedCodeInstruction::Int(3)),
            (17, ParsedCodeInstruction::Byte(15)),
        ]
    );
    let too_large = one_said("0x10 = .byte 256\n4294967296 = nop\n4294967295 = nop\n");
    assert_eq!(too_large.len(), 3);
    assert!(matches!(too_large[0], ParseDiagnostic::InvalidInteger { .. }));
    assert!(matches!(too_large[1], ParseDiagnostic::InvalidCodeAddress { .. }));
    assert!(matches!(too_large[2], ParseDiagnostic::UnsupportedCodeAddress { .. }));
}

#[test]
fn numbers_of_either_sign() {
    assert_eq!(parse_maybe_signed_u8("-1"), Some(Ok(255)));
    assert_eq!(parse_maybe_signed_u8("0xFF"), Some(Ok(255)));
    assert_eq!(parse_maybe_signed_u8("-127"), Some(Ok(129)));
    assert_eq!(parse_maybe_signed_u8("-128"), None);
    assert_eq!(parse_maybe_signed_u8("--129"), Some(Err(IntParseError::NegOverflow)));
    assert_eq!(parse_maybe_signed_u8("256"), Some(Err(IntParseError::PosOverflow)));
    assert_eq!(parse_maybe_signed_u8(""), Some(Err(IntParseError::Empty)));
    assert_eq!(parse_maybe_signed_u8("x"), Some(Err(IntParseError::InvalidDigit)));
    assert_eq!(parse_maybe_signed_u8("--128"), None);
    for least in ["-0x-80", "-0X_-8_0", "-0b-10000000", "-0o-200", " -0x-080 "] {
        assert_eq!(parse_maybe_signed_u8(least), None, "{}", least);
    }
    assert_eq!(parse_maybe_signed_u8("-0x-7F"), Some(Ok(127)));
    assert_eq!(parse_maybe_signed_u8("-_-128"), Some(Err(IntParseError::InvalidDigit)));
    assert_eq!(parse_maybe_signed_u16("-0x-8000"), None);
    assert_eq!(parse_maybe_signed_u32("-0x-80000000"), None);
    assert_eq!(parse_maybe_signed_u64("-0x-8000000000000000"), None);
    assert_eq!(parse_maybe_signed_u16("-1"), Some(Ok(0xFFFF)));
    assert_eq!(parse_maybe_signed_u16("65535"), Some(Ok(0xFFFF)));
    assert_eq!(parse_maybe_signed_u32("0b101"), Some(Ok(5)));
    assert_eq!(parse_maybe_signed_u32("0o17"), Some(Ok(15)));
    assert_eq!(parse_maybe_signed_u32("017"), Some(Ok(17)));
    assert_eq!(parse_maybe_signed_u32("0X_1f"), Some(Ok(31)));
    assert_eq!(parse_maybe_signed_u32("_1"), Some(Err(IntParseError::InvalidDigit)));
    assert_eq!(parse_maybe_signed_u32("4_294_967_295"), Some(Ok(u32::MAX)));
    assert_eq!(parse_maybe_signed_u64("-0x10"), Some(Ok(0xFFFF_FFFF_FFFF_FFF0)));
    assert_eq!(parse_maybe_signed_u64("18446744073709551615"), Some(Ok(u64::MAX)));
}

#[test]
fn data_of_a_patch_text_file_is_read_as_written() {
    let (source, diags) = pchtxt_to_nxpch(
        "@nsobid-1\n@enabled\n00000031 0102030405060708F1F2F3F4E1E2FF\n",
    );
    assert_eq!(diags, []);
    let (build_line, rest) = source.split_once('\n').unwrap();
    assert_eq!(build_line, "target_build = 0x1");
    assert_eq!(
        one_code(rest),
        [
            (0x31, ParsedCodeInstruction::Long(0x0807060504030201)),
            (0x39, ParsedCodeInstruction::Int(0xF4F3F2F1)),
            (0x3D, ParsedCodeInstruction::Short(0xE2E1)),
            (0x3F, ParsedCodeInstruction::Byte(0xFF)),
        ]
    );
}
