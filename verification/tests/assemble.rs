use nxpch::assemble::debug::lines_fit;
use nxpch::assemble::{code_fits, AssembleDiagnostic, Assembler};
use nxpch::output::PatchVec;
use nxpch::parse::{CodeAddress, ParsedCode, ParsedCodeInstruction};
use nxpch::utils::SourceSpan;

fn at(address: u32) -> CodeAddress {
    CodeAddress::new(address).unwrap()
}

fn line(address: u32, instruction: ParsedCodeInstruction, offset: usize, len: usize) -> ParsedCode {
    ParsedCode {
        line_span: SourceSpan::new(offset, len),
        address: at(address),
        instruction,
        instruction_span: SourceSpan::new(offset, len),
    }
}

fn instruction(address: u32, text: &str) -> ParsedCode {
    line(address, ParsedCodeInstruction::Asm(text.to_string()), address as usize, 1)
}

fn data(address: u32, instruction: ParsedCodeInstruction) -> ParsedCode {
    line(address, instruction, 0, 0)
}

fn bytes(vec: &PatchVec) -> Vec<(u32, Vec<u8>)> {
    let mut hunks = vec.iter_hunks(4096);
    let mut found = vec![];
    while let Some((address, hunk)) = hunks.next() {
        found.push((address, hunk.as_slice().to_vec()));
    }
    found
}

#[test]
fn data_goes_into_the_patch() {
    let code = vec![
        data(0, ParsedCodeInstruction::Byte(1)),
        data(1, ParsedCodeInstruction::Short(0x0203)),
        data(3, ParsedCodeInstruction::Int(0x04050607)),
        data(7, ParsedCodeInstruction::Long(0x08090A0B0C0D0E0F)),
        data(0x100, ParsedCodeInstruction::Float(1.5f32.to_bits())),
        data(0x200, ParsedCodeInstruction::Double((-2.5f64).to_bits())),
        data(0x300, ParsedCodeInstruction::String("hi".to_string())),
    ];
    assert!(code_fits(&code));
    let assembler = Assembler::new(code, &vec![]);
    assert!(assembler.request().is_none());
    let (patch, diags) = assembler.finish();
    assert_eq!(diags, []);
    assert_eq!(
        bytes(&patch),
        [
            (0x100, vec![1, 3, 2, 7, 6, 5, 4, 15, 14, 13, 12, 11, 10, 9, 8]),
            (0x200, 1.5f32.to_le_bytes().to_vec()),
            (0x300, (-2.5f64).to_le_bytes().to_vec()),
            (0x400, vec![b'h', b'i', 0]),
        ]
    );
}

#[test]
fn runs_of_instructions_are_assembled_at_once() {
    let code = vec![
        instruction(0x10, "nop"),
        instruction(0x14, "ret"),
        instruction(0x20, "b end"),
        data(0x24, ParsedCodeInstruction::Byte(9)),
    ];
    let labels = vec![("end".to_string(), at(0x24)), ("zero".to_string(), at(0))];
    let mut assembler = Assembler::new(code, &labels);
    let request = assembler.request().unwrap();
    assert_eq!(request.source, "end=36\nzero=0\nnop\nret");
    assert_eq!(request.address, 0x10);
    assert!(!assembler.reply(Ok(vec![1, 2, 3])));
    assert!(assembler.reply(Ok(vec![1, 2, 3, 4, 5, 6, 7, 8])));
    let request = assembler.request().unwrap();
    assert_eq!((request.source.as_str(), request.address), ("end=36\nzero=0\nb end", 0x20));
    assert!(assembler.reply(Err("bad".to_string())));
    assert!(assembler.request().is_none());
    assert!(!assembler.reply(Ok(vec![])));
    let (patch, diags) = assembler.finish();
    assert_eq!(
        bytes(&patch),
        [(0x110, vec![1, 2, 3, 4, 5, 6, 7, 8]), (0x124, vec![9])]
    );
    assert_eq!(
        diags,
        [AssembleDiagnostic::InvalidAsm {
            message: "bad".to_string(),
            at: SourceSpan::new(0x20, 1)
        }]
    );
}

#[test]
fn a_run_that_fails_is_assembled_line_by_line() {
    let code = vec![instruction(0, "a"), instruction(4, "b"), instruction(8, "c")];
    let mut assembler = Assembler::new(code, &vec![]);
    let mut asked = vec![];
    let replies = [
        Err("all".to_string()),
        Ok(vec![1, 1, 1, 1]),
        Err("b is wrong".to_string()),
        Ok(vec![3, 3, 3, 3]),
    ];
    for reply in replies {
        let request = assembler.request().unwrap();
        asked.push((request.source, request.address));
        assert!(assembler.reply(reply));
    }
    assert_eq!(
        asked,
        [
            ("a\nb\nc".to_string(), 0),
            ("a".to_string(), 0),
            ("b".to_string(), 4),
            ("c".to_string(), 8),
        ]
    );
    assert!(assembler.request().is_none());
    let (patch, diags) = assembler.finish();
    assert_eq!(bytes(&patch), [(0x100, vec![1, 1, 1, 1]), (0x108, vec![3, 3, 3, 3])]);
    assert_eq!(
        diags,
        [AssembleDiagnostic::InvalidAsm {
            message: "b is wrong".to_string(),
            at: SourceSpan::new(4, 1)
        }]
    );
}

#[test]
fn all_replies_at_once() {
    let code = || vec![instruction(0, "a"), instruction(0x40, "b")];
    let done = Assembler::assemble(
        code(),
        &vec![],
        vec![Ok(vec![1, 2, 3, 4]), Ok(vec![5, 6, 7, 8])],
    )
    .unwrap();
    assert!(done.request().is_none());
    assert_eq!(
        bytes(&done.finish().0),
        [(0x100, vec![1, 2, 3, 4]), (0x140, vec![5, 6, 7, 8])]
    );
    let open = Assembler::assemble(code(), &vec![], vec![Ok(vec![1, 2, 3, 4])]).unwrap();
    assert_eq!(open.request().unwrap().source, "b");
    assert!(Assembler::assemble(code(), &vec![], vec![Ok(vec![1])]).is_none());
}

#[test]
fn a_string_at_the_very_end_has_no_zero() {
    let last = CodeAddress::MAX_ALLOWED_ADDR;
    assert!(!code_fits(&vec![data(last, ParsedCodeInstruction::String("x".to_string()))]));
    assert!(code_fits(&vec![data(last - 1, ParsedCodeInstruction::String("x".to_string()))]));
}

#[test]
fn a_patch_text_file_with_its_source() {
    let source = "// head\r\n\n0x10 = nop\n  0x20 = .short 0x1234 // c\n0x30 = .string \"a\\n\"\n0x40 = bad\n// tail";
    let spans: Vec<(usize, usize)> = [
        "0x10 = nop",
        "0x20 = .short 0x1234",
        "0x30 = .string \"a\\n\"",
        "0x40 = bad",
    ]
    .iter()
    .map(|l| (source.find(l).unwrap(), l.len()))
    .collect();
    let code = vec![
        line(0x10, ParsedCodeInstruction::Asm("nop".to_string()), spans[0].0, spans[0].1),
        line(0x20, ParsedCodeInstruction::Short(0x1234), spans[1].0, spans[1].1),
        line(0x30, ParsedCodeInstruction::String("a\n".to_string()), spans[2].0, spans[2].1),
        line(0x40, ParsedCodeInstruction::Asm("bad".to_string()), spans[3].0, spans[3].1),
    ];
    assert!(lines_fit(source, &code));
    let requests = Assembler::debug_pchtxt_requests(&code, &vec![("l".to_string(), at(7))]);
    let asked: Vec<_> = requests.iter().map(|r| (r.source.as_str(), r.address)).collect();
    assert_eq!(asked, [("l=7\nnop", 0x10), ("l=7\nbad", 0x40)]);
    let replies = vec![Ok(vec![0x1F, 0x20, 0x03, 0xD5]), Err("wrong".to_string())];
    let (file, diags) =
        Assembler::assemble_debug_pchtxt(source, 0xAB, &code, &replies).unwrap();
    assert_eq!(
        String::from_utf8(file).unwrap(),
        "@nsobid-000000000000000000000000000000AB\n\
         @flag offset_shift 0x100\n\
         @enabled\n\
         \n\
         // // head\n\
         \n\
         00000010 1F2003D5 // 0x10 = nop\n\
         //   \n\
         00000020 3412 // 0x20 = .short 0x1234//  // c\n\
         00000030 \"a\\n\" // 0x30 = .string \"a\\n\"\n\
         00000040  // 0x40 = bad\n\
         // // tail\n"
    );
    assert_eq!(
        diags,
        [AssembleDiagnostic::InvalidAsm {
            message: "wrong".to_string(),
            at: SourceSpan::new(spans[3].0, spans[3].1)
        }]
    );
    let short = vec![Ok(vec![1]), Err("wrong".to_string())];
    assert!(Assembler::assemble_debug_pchtxt(source, 0xAB, &code, &short).is_none());
    assert!(!lines_fit("short", &code));
}
