use nxpch::numbers::IntParseError;
use nxpch::output::{generate_pchtxt, PatchVec};
use nxpch::pchtxt::{
    offset_shift, pchtxt_is_readable, pchtxt_to_patches, PchtxtDianostic, PchtxtFlag,
    PchtxtLineData, PchtxtParseIter,
};
use nxpch::pchtxt_nxpch::{instruction_line, pchtxt_to_nxpch};

const FILE: &str = "@nsobid-00000000000000000000000000000ABC\n\
// first\n\
@flag offset_shift 0x100\n\
@enabled\n\
00000010 1F2003D5 // c\n\
00000020 \"a\\n\"\n\
@disabled\n\
00000030 FF\n\
@stop\n\
00000040 11\n";

fn bytes(vec: &PatchVec) -> Vec<(u32, Vec<u8>)> {
    let mut hunks = vec.iter_hunks(4096);
    let mut found = vec![];
    while let Some((address, hunk)) = hunks.next() {
        found.push((address, hunk.as_slice().to_vec()));
    }
    found
}

#[test]
fn a_file_becomes_a_patch() {
    assert!(pchtxt_is_readable(FILE));
    let ((vec, build_id), diags) = pchtxt_to_patches(FILE);
    assert_eq!(build_id, 0xABC);
    assert_eq!(
        bytes(&vec),
        [(0x110, vec![0x1F, 0x20, 0x03, 0xD5]), (0x120, vec![b'a', b'\n', 0])]
    );
    assert_eq!(
        diags,
        [PchtxtDianostic::PatchEnabled { message: "// first".to_string(), at: (75, 8) }]
    );
}

#[test]
fn a_file_becomes_a_source() {
    let (source, diags) = pchtxt_to_nxpch(FILE);
    assert_eq!(
        source,
        "target_build = 0xABC\n\
         // first\n\
         pointer_offset = 0x100\n\
         // @enabled\n\
         0x00000010 = nop // c\n\
         0x00000020 = \"a\\n\"\n\
         #if 0\n\
         0x00000030 = .byte 255\n\
         // @stop\n\
         //00000040 11\n\
         #endif\n"
    );
    assert_eq!(diags, []);
}

#[test]
fn data_in_a_source_is_as_wide_as_it_can_be() {
    let file = "@nsobid-01\n@enabled\n\
        00000000 FFFFFFFF1F2003D5\n\
        00000001 0102030405060708090A0B0C0D0E0F\n\
        #say \"hi\"\n\
        / one slash\n\
        @little-endian\n";
    let (source, _) = pchtxt_to_nxpch(file);
    assert_eq!(
        source,
        "target_build = 0x1\n\
         // @enabled\n\
         0x00000000 = .int 4294967295\n\
         0x00000004 = nop\n\
         0x00000001 = .long 578437695752307201\n\
         0x00000009 = .int 202050057\n\
         0x0000000D = .short 3597\n\
         0x0000000F = .byte 15\n\
         #warning \"say \\\"hi\\\"\"\n\
         // one slash\n\
         // @little-endian\n"
    );
}

#[test]
fn instructions_and_words() {
    let found = Some(("mov".to_string(), "x0, x1".to_string()));
    assert_eq!(instruction_line(&found, 5), b"mov x0, x1");
    let bare = Some(("nop".to_string(), "".to_string()));
    assert_eq!(instruction_line(&bare, 5), b"nop");
    assert_eq!(instruction_line(&None, 5), b".int 5");
}

fn said(line: &str) -> Vec<PchtxtDianostic> {
    let file = format!("@nsobid-00\n{}\n", line);
    assert!(pchtxt_is_readable(&file));
    pchtxt_to_patches(&file).1
}

#[test]
fn every_diagnostic() {
    assert_eq!(
        pchtxt_to_patches("@enabled\n").1,
        [
            PchtxtDianostic::MissingBuildId,
            PchtxtDianostic::PatchEnabled { message: "".to_string(), at: (0, 8) },
        ]
    );
    assert_eq!(
        pchtxt_to_patches("@nsobid-zz\n").1,
        [PchtxtDianostic::InvalidBuildId { cause: IntParseError::Empty, at: (8, 0) }]
    );
    assert_eq!(
        said("#hello"),
        [PchtxtDianostic::Information { message: "#hello".to_string(), at: (11, 6) }]
    );
    assert_eq!(said("@big-endian"), [PchtxtDianostic::BigEndian { at: (11, 11) }]);
    assert_eq!(said("@flag foo bar"), [PchtxtDianostic::UnknownFlag { at: (17, 3) }]);
    assert_eq!(
        said("zzzzzzzz 0102"),
        [PchtxtDianostic::InvalidOffset { cause: IntParseError::InvalidDigit, at: (11, 8) }]
    );
    assert_eq!(said("00000000é0102"), [PchtxtDianostic::UnexpectedUnicode { at: (19, 2) }]);
    assert_eq!(
        said("00000000 \"abc"),
        [PchtxtDianostic::UnterminatedStringLiteral { at: 24 }]
    );
    assert_eq!(said("00000000 123"), [PchtxtDianostic::OddHexValueLength { at: (20, 3) }]);
    assert_eq!(said("00000000 12zz"), [PchtxtDianostic::InvalidHexValue { at: (22, 1) }]);
    let ((vec, _), diags) =
        pchtxt_to_patches("@nsobid-00\n@flag offset_shift -0x10\n@enabled\n00000000 01\n");
    assert_eq!(bytes(&vec), [(0xFFFF_FFF0, vec![1])]);
    assert_eq!(
        diags[1],
        PchtxtDianostic::OverUnderFlow { offset_shift: -16, at: (45, 8) }
    );
    assert_eq!(
        pchtxt_to_nxpch("@nsobid-00\n00000000 01\n@flag offset_shift 4\n").1,
        [PchtxtDianostic::DisabledPointerOffset { at: (23, 20) }]
    );
}

#[test]
fn lines_one_by_one() {
    let mut lines = PchtxtParseIter::new("@nsobid-0F\r\n@flag print_values\n\n00000000 \"\\\"\"\n");
    let mut found = vec![];
    while let Some((line, start, end)) = lines.next() {
        found.push((line.data, start, end));
    }
    assert_eq!(found.len(), 4);
    assert_eq!(found[0], (PchtxtLineData::BuildId(15), 0, 10));
    assert_eq!(found[1], (PchtxtLineData::Flag(PchtxtFlag::PrintValues), 12, 30));
    assert_eq!(found[2], (PchtxtLineData::Ignored, 31, 31));
    assert_eq!(
        found[3].0,
        PchtxtLineData::Patch { offset: 0, patch: vec![b'"', 0], is_string: true }
    );
}

#[test]
fn shifts_that_are_no_numbers_count_as_none() {
    assert_eq!(offset_shift(Ok(-5)), -5);
    assert_eq!(offset_shift(Err(IntParseError::Empty)), 0);
    let ((vec, _), _) =
        pchtxt_to_patches("@nsobid-00\n@flag offset_shift zero\n@enabled\n00000004 01\n");
    assert_eq!(bytes(&vec), [(4, vec![1])]);
    for (shift, address) in
        [("12", 0x4C), ("0x1_0", 0x50), ("-4", 0x3C), ("-0x10", 0x30), ("2147483648", 0x40)]
    {
        let file = format!("@nsobid-00\n@flag offset_shift {}\n@enabled\n00000040 01\n", shift);
        let ((vec, _), _) = pchtxt_to_patches(&file);
        assert_eq!(bytes(&vec), [(address, vec![1])], "{}", shift);
    }
}

#[test]
fn files_that_cut_a_character_cannot_be_read() {
    assert!(!pchtxt_is_readable("@enableé\n"));
    assert!(pchtxt_is_readable("@enabled é\n"));
    assert!(!pchtxt_is_readable("@flag offset_shift -0x-80000000\n"));
    assert!(pchtxt_is_readable("@flag offset_shift -0x-7FFFFFFF\n"));
}

#[test]
fn every_line_is_walked() {
    let file = "@nsobid-01\r\nzzz\n@stop\n\n00000000 01\n@enabled";
    let mut lines = PchtxtParseIter::new(file);
    let mut found = vec![];
    while let Some((line, start, end)) = lines.next() {
        assert!(start <= line.rest.0 && line.rest.0 <= line.rest.1 && line.rest.1 == end);
        found.push((start, &file[start..end]));
    }
    let mut expected = vec![];
    for line in file.lines() {
        expected.push((line.as_ptr() as usize - file.as_ptr() as usize, line));
    }
    assert_eq!(found, expected);
}

#[test]
fn nothing_counts_behind_stop() {
    let before = "@nsobid-02\n@enabled\n00000004 01\n@stop\n";
    let after = format!("{}00000008 02\n@nsobid-03\n# said\n", before);
    let ((vec, id), diags) = pchtxt_to_patches(before);
    let ((again, again_id), again_diags) = pchtxt_to_patches(&after);
    assert_eq!(bytes(&vec), [(4, vec![1])]);
    assert_eq!(bytes(&again), bytes(&vec));
    assert_eq!((again_id, again_diags), (id, diags));
}

#[test]
fn a_written_file_reads_back() {
    let mut vec = PatchVec::new();
    vec.put(0x20, b"two\twords\0");
    vec.put(0x100, &[1, 2, 3, 4, 5]);
    let file = String::from_utf8(generate_pchtxt(&vec, 0xF00D)).unwrap();
    assert!(pchtxt_is_readable(&file));
    let ((again, build_id), diags) = pchtxt_to_patches(&file);
    assert_eq!(build_id, 0xF00D);
    assert_eq!(bytes(&again), bytes(&vec));
    assert_eq!(
        diags,
        [PchtxtDianostic::PatchEnabled { message: String::new(), at: (41, 8) }]
    );
}

#[test]
fn some_strings_do_not_read_back() {
    for text in [&b"a\x0bb\0"[..], b"path\\\0", b"\0"] {
        let mut vec = PatchVec::new();
        vec.put(0x20, text);
        let file = String::from_utf8(generate_pchtxt(&vec, 1)).unwrap();
        let ((again, _), _) = pchtxt_to_patches(&file);
        assert_ne!(bytes(&again), bytes(&vec));
    }
}
