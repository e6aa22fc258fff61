use nxpch::json::Json5Error;
use nxpch::option::{
    option_kind, value_fits, ModVersionOption, NxpchOption, OptionKind, OptionParseError, OutputFormat,
    OutputFormatOption, PointerOffsetOption, TargetBuildMatrixEntry, TargetBuildOption,
    TargetBuildsOption, UserSetting, UserSettingsOption,
};
use nxpch::pre_parse::{
    find_options, json5_trim, split, Piece, PreParseDiagnostic, PreParsedCode, PreParsedStatement,
};
use nxpch::preprocessor::{
    MacroDefine, PreprocessorDiagnostic, PreprocessorDirectiveInstruction,
};
use nxpch::utils::SourceSpan;

#[test]
fn test_json5_trim() {
    assert_eq!(json5_trim("'hello'"), "'hello'");
    assert_eq!(
        json5_trim("{hello: 1234, bellows: [5678]} testing testing"),
        "{hello: 1234, bellows: [5678]} testing testing",
    );
    assert_eq!(
        json5_trim("{hello: 1234, bellows: [5678]} \ntesting testing"),
        "{hello: 1234, bellows: [5678]} \n",
    );
}

#[test]
fn brackets_and_strings_in_values() {
    assert_eq!(json5_trim("[\n'a]', \"\\\"]\"\n] // x\nrest"), "[\n'a]', \"\\\"]\"\n] // x\n");
    assert_eq!(json5_trim("5 rest\nmore"), "5 rest\n");
}

fn no_error() -> Json5Error {
    Json5Error { message: "bad".to_string(), position: Some((0, 2)), code: None }
}

const SOURCE: &str = "// c\nmod_version = '1.2'\n\n#define A 1\n.origin = 0x10 // x\n\tnop \"//\"\n";

#[test]
fn pieces_of_a_source() {
    assert_eq!(
        split(SOURCE),
        Some(vec![
            Piece::Option { start: 5, name_end: 16, value: 19, end: 26 },
            Piece::Directive { start: 26, end: 37 },
            Piece::Code { start: 38, end: 52 },
            Piece::Code { start: 59, end: 67 },
        ])
    );
    assert_eq!(
        find_options(SOURCE),
        Some(vec![("mod_version".to_string(), "'1.2'\n\n".to_string())])
    );
    assert_eq!(split("a = 'open"), None);
    assert_eq!(split(" \n\t "), Some(vec![]));
}

#[test]
fn statements_of_a_source() {
    let value = NxpchOption::ModVersion(ModVersionOption("1.2".to_string()));
    let code = PreParsedCode::parse(SOURCE, vec![Ok(value)]).unwrap();
    assert_eq!(code.diagnostics, []);
    let ranges: Vec<_> = code.statements.iter().map(|(range, _)| range.clone()).collect();
    assert_eq!(ranges, [5..24, 26..37, 38..52, 59..67]);
    assert_eq!(
        code.statements[0].1,
        PreParsedStatement::Option(
            NxpchOption::ModVersion(ModVersionOption("1.2".to_string())),
            SourceSpan::new(5, 11),
        )
    );
    assert!(matches!(
        &code.statements[1].1,
        PreParsedStatement::Preprocessor(d)
            if matches!(d.instruction, PreprocessorDirectiveInstruction::Define(_))
    ));
    assert_eq!(
        code.statements[2].1,
        PreParsedStatement::Code(".origin = 0x10".to_string(), SourceSpan::new(38, 14))
    );
    assert_eq!(
        code.statements[3].1,
        PreParsedStatement::Code("nop \"//\"".to_string(), SourceSpan::new(59, 8))
    );
    for window in ranges.windows(2) {
        assert!(window[0].end <= window[1].start);
    }
}

#[test]
fn wrong_statements() {
    let source = "target_biuld = 5 \n#nonsense\noutput_format = 'x' \n";
    let code = PreParsedCode::parse(source, vec![Err(no_error()), Err(no_error())]).unwrap();
    assert_eq!(code.statements.len(), 0);
    assert_eq!(
        code.diagnostics[0],
        PreParseDiagnostic::UnknownOption {
            option: "target_biuld".to_string(),
            closest: "target_build",
            at: SourceSpan::new(0, 12),
        }
    );
    assert!(matches!(
        code.diagnostics[1],
        PreParseDiagnostic::Preprocessor(PreprocessorDiagnostic::UnknownDirective { .. })
    ));
    assert_eq!(
        code.diagnostics[2],
        PreParseDiagnostic::InvalidOptionValue {
            option: "output_format".to_string(),
            cause: no_error(),
            at: 46,
        }
    );
    assert!(PreParsedCode::parse("a = \"open", vec![]).is_none());
}

#[test]
fn kinds_of_options() {
    for (name, kind) in [
        ("target_build", OptionKind::TargetBuild),
        ("target_builds", OptionKind::TargetBuilds),
        ("pointer_offset", OptionKind::PointerOffset),
        ("user_settings", OptionKind::UserSettings),
        ("output_format", OptionKind::OutputFormat),
        ("mod_name", OptionKind::ModName),
        ("mod_version", OptionKind::ModVersion),
    ] {
        assert_eq!(option_kind(name), Some(kind));
    }
    assert_eq!(option_kind("mod"), None);
    let format = || NxpchOption::OutputFormat(OutputFormatOption(OutputFormat::Ips));
    assert_eq!(NxpchOption::parse("output_format", Ok(format())), Ok(format()));
    assert_eq!(
        NxpchOption::parse("output_format", Err(no_error())),
        Err(OptionParseError::InvalidOption(no_error()))
    );
    assert_eq!(
        NxpchOption::parse("pointer_ofset", Ok(format())),
        Err(OptionParseError::UnknownOption { closest: "pointer_offset" })
    );
    assert_eq!(format().kind(), OptionKind::OutputFormat);
    assert!(value_fits("output_format", &Ok(format())));
    assert!(value_fits("output_format", &Err(no_error())));
    assert!(value_fits("pointer_ofset", &Ok(format())));
    assert!(!value_fits("mod_name", &Ok(format())));
    assert!(PreParsedCode::parse("mod_name = 'a' \n", vec![Ok(format())]).is_none());
}

fn entry(id: u128, defines: &[&str]) -> TargetBuildMatrixEntry {
    TargetBuildMatrixEntry {
        id,
        defines: defines.iter().map(|d| MacroDefine::from_str(d).unwrap()).collect(),
    }
}

#[test]
fn macros_in_options_are_placed_in_the_source() {
    let source = "\ntarget_builds = [{id: 1, defines: [\"A 1\",\n 'BC 2']}, {id: 2}] \n";
    let value = || {
        NxpchOption::TargetBuilds(TargetBuildsOption(vec![
            entry(1, &["A 1", "BC 2"]),
            entry(2, &[]),
        ]))
    };
    let code = PreParsedCode::parse(source, vec![Ok(value())]).unwrap();
    let PreParsedStatement::Option(NxpchOption::TargetBuilds(builds), _) = &code.statements[0].1
    else {
        panic!()
    };
    let a = source.find("A 1").unwrap();
    let bc = source.find("BC 2").unwrap();
    assert_eq!(builds.0[0].defines[0].declaration_range, (a, 1));
    assert_eq!(builds.0[0].defines[0].expansion_offset, a + 2);
    assert_eq!(builds.0[0].defines[1].declaration_range, (bc, 2));
    assert_eq!(builds.0[0].defines[1].expansion_offset, bc + 3);

    let mut mismatched = value();
    assert!(!mismatched.update_offsets("{}", 0));
    assert!(!mismatched.update_offsets("[1]", 0));
    assert!(!mismatched.update_offsets("[{defines: 1}]", 0));
    assert!(!mismatched.update_offsets("[{defines: [1]}]", 0));
    assert!(mismatched.update_offsets("[]", 0));
    assert_eq!(mismatched, value());
    let mut offset = NxpchOption::PointerOffset(PointerOffsetOption(5));
    assert!(offset.update_offsets("5", 0));
    let mut build = NxpchOption::TargetBuild(TargetBuildOption(5));
    assert!(build.place(None, "5", 0));
}

#[test]
fn macros_in_settings_are_placed_in_the_source() {
    let json = "[{layer: 0, name: 'x', defines: ['ON']}]";
    let mut settings = NxpchOption::UserSettings(UserSettingsOption(vec![UserSetting {
        layer: 0,
        name: "x".to_string(),
        defines: vec![MacroDefine::from_str("ON").unwrap()],
    }]));
    assert!(settings.update_offsets(json, 1000));
    let NxpchOption::UserSettings(settings) = settings else { panic!() };
    let at = 1000 + json.find("ON").unwrap();
    assert_eq!(settings.0[0].defines[0].declaration_range, (at, 2));
}
