use nxpch::distribution::{
    choose_single, emulator_segments, hardware_segments, part_targets, same_build, single_format,
    split_extension, SingleFormat,
};
use nxpch::ips::IpsGenerateError;
use nxpch::option::OutputFormat;
use nxpch::output::{generate_ips, generate_pchtxt, PatchVec};
use nxpch::parse::{BuildTarget, CodeAddress, ParsedCode, ParsedCodeInstruction, ParsingResult};
use nxpch::utils::SourceSpan;
use nxpch::zip_gen::{
    choose_format, generate_zip, generate_zip_filename, Choice, PathSegment, ZipEntry,
    ZipGenerateDiagnostic,
};

fn result(id: u128, settings: &[&str], format: Option<OutputFormat>) -> ParsingResult {
    ParsingResult {
        build_target: BuildTarget::Emulator,
        mod_name: Some("mod".to_string()),
        mod_version: "1.0".to_string(),
        target_build: id,
        forced_output_format: format,
        user_settings: settings.iter().map(|s| s.to_string()).collect(),
        code: vec![],
        labels: vec![],
    }
}

fn patch(address: u32) -> PatchVec {
    let mut vec = PatchVec::new();
    vec.put(address, &[1, 2, 3]);
    vec
}

const UNSAFE: u32 = 0x4545_4F46;

fn directory(path: &str) -> ZipEntry {
    ZipEntry::Directory(path.to_string())
}

#[test]
fn an_archive_has_each_directory_once() {
    let patches = vec![
        (result(0xABC, &["one"], None), patch(0)),
        (result(0xDEF, &["one"], None), patch(UNSAFE)),
        (result(0x1, &["two"], Some(OutputFormat::Pchtxt)), patch(8)),
    ];
    let (entries, diags) = generate_zip(
        &patches,
        "fallback",
        &[PathSegment::ModName, PathSegment::Static("exefs")],
        PathSegment::BuildId,
        false,
    );
    assert_eq!(diags, []);
    assert_eq!(
        entries,
        [
            directory("one/"),
            directory("one/mod/"),
            directory("one/mod/exefs/"),
            ZipEntry::File {
                path: "one/mod/exefs/ABC.ips".to_string(),
                content: generate_ips(&patch(0)).unwrap(),
            },
            ZipEntry::File {
                path: "one/mod/exefs/DEF.pchtxt".to_string(),
                content: generate_pchtxt(&patch(UNSAFE), 0xDEF),
            },
            directory("two/"),
            directory("two/mod/"),
            directory("two/mod/exefs/"),
            ZipEntry::File {
                path: "two/mod/exefs/1.pchtxt".to_string(),
                content: generate_pchtxt(&patch(8), 1),
            },
        ]
    );
}

#[test]
fn formats_that_clash() {
    let settings = || vec!["s".to_string()];
    let cause = IpsGenerateError::HasEofHunk;
    let patches = vec![
        (result(1, &["s"], None), patch(UNSAFE)),
        (result(2, &["s"], Some(OutputFormat::Pchtxt)), patch(0)),
        (result(3, &["s"], Some(OutputFormat::Ips)), patch(0)),
    ];
    let (entries, diags) = generate_zip(&patches, "", &[], PathSegment::BuildId, true);
    assert_eq!(
        diags,
        [
            ZipGenerateDiagnostic::PchtxtRequired { settings: settings(), cause },
            ZipGenerateDiagnostic::PchtxtPartiallyRequested { settings: settings() },
        ]
    );
    assert_eq!(entries.len(), 2);

    let patches = vec![(result(1, &["s"], Some(OutputFormat::Ips)), patch(UNSAFE))];
    let (_, diags) = generate_zip(&patches, "", &[], PathSegment::BuildId, false);
    assert_eq!(diags, [ZipGenerateDiagnostic::IpsError { settings: settings(), cause }]);

    let patches = vec![(result(1, &[], Some(OutputFormat::Pchtxt)), patch(0))];
    let (entries, diags) = generate_zip(&patches, "", &[], PathSegment::BuildId, true);
    assert_eq!(diags, []);
    assert!(matches!(&entries[..], [ZipEntry::File { path, .. }] if path == "1.pchtxt"));

    assert_eq!(choose_format(None, true, false), Choice::Pchtxt);
    assert_eq!(choose_format(None, false, true), Choice::Ips);
}

#[test]
fn names_of_archives() {
    let mut second = result(2, &["x"], None);
    second.mod_name = None;
    let mut third = result(3, &["y"], None);
    third.mod_version = "2.0".to_string();
    let (name, diags) =
        generate_zip_filename(&vec![result(1, &[], None), second, third], "file", "emulator");
    assert_eq!(name, "mod-1.0+emulator.zip");
    assert_eq!(
        diags,
        [
            ZipGenerateDiagnostic::InconsistentModNames {
                first_name: "mod".to_string(),
                second_name: "<unspecified>".to_string(),
                second_settings: vec!["x".to_string()],
            },
            ZipGenerateDiagnostic::InconsistentModVersions {
                first_version: "1.0".to_string(),
                second_version: "2.0".to_string(),
                second_settings: vec!["y".to_string()],
            },
        ]
    );
    let mut unnamed = result(1, &[], None);
    unnamed.mod_name = None;
    assert_eq!(
        generate_zip_filename(&vec![unnamed], "file", "hardware"),
        ("file-1.0+hardware.zip".to_string(), vec![])
    );
}

fn with_code(instruction: ParsedCodeInstruction) -> ParsingResult {
    let mut r = result(1, &["a"], None);
    r.code.push(ParsedCode {
        line_span: SourceSpan::new(0, 1),
        address: CodeAddress::new(4).unwrap(),
        instruction,
        instruction_span: SourceSpan::new(0, 1),
    });
    r.labels.push(("l".to_string(), CodeAddress::new(4).unwrap()));
    r
}

#[test]
fn builds_are_compared() {
    let float = |v: f32| with_code(ParsedCodeInstruction::Float(v.to_bits()));
    let double = |v: f64| with_code(ParsedCodeInstruction::Double(v.to_bits()));
    assert!(same_build(&float(0.0), &float(-0.0)));
    assert!(same_build(&float(f32::NAN), &float(-f32::NAN)));
    assert!(!same_build(&float(1.0), &float(-1.0)));
    assert!(!same_build(&float(f32::INFINITY), &float(f32::NAN)));
    assert!(same_build(&double(0.0), &double(-0.0)));
    assert!(same_build(&double(f64::NAN), &double(-f64::NAN)));
    assert!(!same_build(&double(1.0), &double(f64::INFINITY)));
    let byte = || with_code(ParsedCodeInstruction::Byte(1));
    let mut other = byte();
    other.build_target = BuildTarget::Hardware;
    assert!(same_build(&byte(), &other));
    other.labels.clear();
    assert!(!same_build(&byte(), &other));
    assert!(!same_build(&byte(), &with_code(ParsedCodeInstruction::Short(1))));
    let mut renamed = byte();
    renamed.mod_name = None;
    assert!(!same_build(&byte(), &renamed));
}

#[test]
fn a_single_build_is_chosen() {
    let byte = |v: u8| with_code(ParsedCodeInstruction::Byte(v));
    assert_eq!(choose_single(vec![byte(1)], vec![byte(1)]), Ok(byte(1)));
    assert_eq!(choose_single(vec![byte(1)], vec![byte(2)]), Err(2));
    assert_eq!(choose_single(vec![byte(1)], vec![]), Ok(byte(1)));
    assert_eq!(choose_single(vec![], vec![byte(2)]), Ok(byte(2)));
    assert_eq!(choose_single(vec![], vec![]), Err(0));
    assert_eq!(choose_single(vec![byte(1), byte(2)], vec![byte(3)]), Err(3));
    let mut hardware = byte(2);
    hardware.build_target = BuildTarget::Hardware;
    let (emulator, rest) = part_targets(vec![byte(1), hardware, byte(3)]);
    assert_eq!(emulator, [byte(1), byte(3)]);
    assert_eq!(rest.len(), 1);
}

#[test]
fn paths_and_formats() {
    assert_eq!(split_extension("a.b.ips"), ("a.b", Some("ips")));
    assert_eq!(split_extension("ab"), ("ab", None));
    assert_eq!(single_format(Some("ips"), false), SingleFormat::Ips);
    assert_eq!(single_format(Some("pchtxt"), true), SingleFormat::Pchtxt);
    assert_eq!(single_format(Some("zip"), true), SingleFormat::Unknown);
    assert_eq!(single_format(None, true), SingleFormat::AddIps);
    assert_eq!(single_format(None, false), SingleFormat::AddPchtxt);
    assert!(matches!(
        &emulator_segments()[..],
        [PathSegment::ModName, PathSegment::Static("exefs")]
    ));
    let pchtxt = || result(1, &[], Some(OutputFormat::Pchtxt));
    assert!(matches!(
        &hardware_segments(&vec![pchtxt()])[..],
        [PathSegment::Static("switch"), PathSegment::Static("ipswitch"), PathSegment::ModName]
    ));
    assert!(matches!(
        &hardware_segments(&vec![pchtxt(), result(2, &[], None)])[..],
        [
            PathSegment::Static("atmosphere"),
            PathSegment::Static("exefs_patches"),
            PathSegment::ModName
        ]
    ));
}
