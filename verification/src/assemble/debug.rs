//! A patch text file with the source of the patch in its comments.

use crate::assemble;
use crate::assemble::{AsmRequest, AssembleDiagnostic, AssembleDiagnosticModel, Assembler};
use crate::option::BuildId;
use crate::parse::address::CodeAddress;
use crate::parse::types;
use crate::parse::types::{CodeInstructionModel, CodeModel, ParsedCode, ParsedCodeInstruction};
use crate::pchtxt_writer;
use crate::text;
use vstd::prelude::*;
use vstd::string::*;

verus! {

// ---------------------------------------------------------------------------------------------
// Model

/// The end of the line that ends with the line break at `n`, without the carriage return that
/// may stand before the line break.
pub open spec fn bare_line_end(b: Seq<u8>, i: int, n: int, end: int) -> int {
    if n < end && i < n && b[n - 1] == 0x0d {
        n - 1
    } else {
        n
    }
}

/// A line of the source as a comment. An empty line stays empty.
pub open spec fn comment(line: Seq<u8>) -> Seq<u8> {
    if line.len() == 0 {
        "\n".spec_bytes()
    } else {
        "// ".spec_bytes() + line + "\n".spec_bytes()
    }
}

/// The lines of `i..end` as comments.
pub open spec fn comments(b: Seq<u8>, i: int, end: int) -> Seq<u8>
    decreases end + 1 - i,
    when 0 <= i && end <= b.len()
{
    if i >= end {
        Seq::empty()
    } else {
        let n = text::find_byte(b, 0x0a, i, end);
        proof {
            text::lemma_find_byte(b, 0x0a, i, end);
        }
        comment(b.subrange(i, bare_line_end(b, i, n, end))) + comments(b, n + 1, end)
    }
}

/// The end of the line of the `n`th instruction; the start of the source before the first.
pub open spec fn line_end(code: Seq<CodeModel>, n: int) -> int {
    if n <= 0 {
        0
    } else {
        code[n - 1].line_span.offset + code[n - 1].line_span.len
    }
}

/// The lines of the first `n` instructions stand in the source one behind the other.
pub open spec fn lines_in_order(b: Seq<u8>, code: Seq<CodeModel>, n: int) -> bool {
    &&& forall|i: int|
        0 <= i < n ==> (#[trigger] code[i]).line_span.offset + code[i].line_span.len <= b.len()
    &&& forall|i: int, j: int|
        0 <= i < j < n ==> (#[trigger] code[i]).line_span.offset + code[i].line_span.len <= (
        #[trigger] code[j]).line_span.offset
}

/// The number of instructions for the assembler among the first `n`.
pub open spec fn asm_count(code: Seq<CodeModel>, n: int) -> int
    decreases n,
{
    if n <= 0 {
        0
    } else {
        asm_count(code, n - 1) + if code[n - 1].instruction is Asm {
            1int
        } else {
            0
        }
    }
}

/// Data as it stands in the file, the lowest byte first.
pub open spec fn data_text(i: CodeInstructionModel) -> Seq<u8> {
    match i {
        ParsedCodeInstruction::String(s) => "\"".spec_bytes() + pchtxt_writer::escaped(
            s,
            0,
            s.len() as int,
        ) + "\"".spec_bytes(),
        _ => {
            let bytes = assemble::data_bytes(i);
            pchtxt_writer::hex_bytes(bytes, 0, bytes.len() as int)
        },
    }
}

pub type ReplyModel = Result<Seq<u8>, Seq<u8>>;

/// The bytes of an instruction as they stand in the file; nothing for one that is wrong.
pub open spec fn reply_text(reply: ReplyModel) -> Seq<u8> {
    match reply {
        Ok(bytes) => pchtxt_writer::hex_bytes(bytes, 0, bytes.len() as int),
        Err(_) => Seq::empty(),
    }
}

/// What stands behind the address of the instruction at an index.
pub open spec fn code_text(code: Seq<CodeModel>, replies: Seq<ReplyModel>, i: int) -> Seq<u8> {
    if code[i].instruction is Asm {
        reply_text(replies[asm_count(code, i)])
    } else {
        data_text(code[i].instruction)
    }
}

/// What the first `n` instructions put into the file.
pub open spec fn debug_lines(
    b: Seq<u8>,
    code: Seq<CodeModel>,
    replies: Seq<ReplyModel>,
    n: int,
) -> Seq<u8>
    decreases n,
{
    if n <= 0 {
        Seq::empty()
    } else {
        let span = code[n - 1].line_span;
        debug_lines(b, code, replies, n - 1) + comments(
            b,
            line_end(code, n - 1),
            span.offset as int,
        ) + pchtxt_writer::hex_text(code[n - 1].address as int, 8) + " ".spec_bytes() + code_text(
            code,
            replies,
            n - 1,
        ) + " // ".spec_bytes() + b.subrange(span.offset as int, span.offset + span.len)
    }
}

/// The head of the file.
pub open spec fn debug_head(build_id: BuildId) -> Seq<u8> {
    "@nsobid-".spec_bytes() + pchtxt_writer::hex_text(build_id as int, 32)
        + "\n@flag offset_shift 0x100\n@enabled\n\n".spec_bytes()
}

/// The whole file.
pub open spec fn debug_file(
    b: Seq<u8>,
    build_id: BuildId,
    code: Seq<CodeModel>,
    replies: Seq<ReplyModel>,
) -> Seq<u8> {
    let n = code.len() as int;
    debug_head(build_id) + debug_lines(b, code, replies, n) + comments(
        b,
        line_end(code, n),
        b.len() as int,
    )
}

/// What is said about the first `n` instructions.
pub open spec fn debug_diagnostics(
    code: Seq<CodeModel>,
    replies: Seq<ReplyModel>,
    n: int,
) -> Seq<AssembleDiagnosticModel>
    decreases n,
{
    if n <= 0 {
        Seq::empty()
    } else {
        let before = debug_diagnostics(code, replies, n - 1);
        if code[n - 1].instruction is Asm {
            match replies[asm_count(code, n - 1)] {
                Ok(_) => before,
                Err(message) => before.push(
                    AssembleDiagnostic::InvalidAsm { message, at: code[n - 1].instruction_span },
                ),
            }
        } else {
            before
        }
    }
}

/// Every reply with bytes has those of one instruction.
pub open spec fn replies_fit(replies: Seq<ReplyModel>) -> bool {
    forall|i: int|
        0 <= i < replies.len() ==> ((#[trigger] replies[i]) matches Ok(bytes) ==> bytes.len() == 4)
}

pub open spec fn reply_models(v: Seq<Result<Vec<u8>, String>>) -> Seq<ReplyModel> {
    Seq::new(v.len(), |i: int| assemble::reply_view(v[i]))
}

/// What the first `n` instructions want assembled.
pub open spec fn debug_requests(code: Seq<CodeModel>, prefix: Seq<u8>, n: int) -> Seq<
    (Seq<u8>, u32),
>
    decreases n,
{
    if n <= 0 {
        Seq::empty()
    } else {
        let before = debug_requests(code, prefix, n - 1);
        match code[n - 1].instruction {
            ParsedCodeInstruction::Asm(line) => before.push((prefix + line, code[n - 1].address)),
            _ => before,
        }
    }
}

pub open spec fn request_models(v: Seq<AsmRequest>) -> Seq<(Seq<u8>, u32)> {
    Seq::new(v.len(), |i: int| (text::bytes_of(v[i].source), v[i].address))
}

// ---------------------------------------------------------------------------------------------
// Laws

proof fn lemma_debug_requests(code: Seq<CodeModel>, prefix: Seq<u8>, n: int)
    ensures
        debug_requests(code, prefix, n).len() == asm_count(code, n),
    decreases n,
{
    if n > 0 {
        lemma_debug_requests(code, prefix, n - 1);
    }
}

/// There is a request for each instruction that has to be assembled, and for nothing else.
pub proof fn law_debug_requests(code: Seq<CodeModel>, prefix: Seq<u8>)
    ensures
        debug_requests(code, prefix, code.len() as int).len() == asm_count(
            code,
            code.len() as int,
        ),
{
    lemma_debug_requests(code, prefix, code.len() as int);
}

// ---------------------------------------------------------------------------------------------
// Writing

fn push_text(out: &mut Vec<u8>, s: &str)
    ensures
        final(out)@ == old(out)@ + s.spec_bytes(),
{
    out.extend_from_slice(s.as_bytes());
}

fn push_range(out: &mut Vec<u8>, b: &[u8], i: usize, j: usize)
    requires
        i <= j <= b@.len(),
    ensures
        final(out)@ == old(out)@ + b@.subrange(i as int, j as int),
{
    let mut k: usize = i;
    while k < j
        invariant
            i <= k <= j <= b@.len(),
            out@ == old(out)@ + b@.subrange(i as int, k as int),
        decreases j - k,
    {
        out.push(b[k]);
        k += 1;
        assert(out@ =~= old(out)@ + b@.subrange(i as int, k as int));
    }
}

fn push_comments(out: &mut Vec<u8>, b: &[u8], start: usize, end: usize)
    requires
        start <= end <= b@.len(),
    ensures
        final(out)@ == old(out)@ + comments(b@, start as int, end as int),
{
    let mut i: usize = start;
    let ghost goal = old(out)@ + comments(b@, start as int, end as int);
    while i < end
        invariant
            start <= i,
            end <= b@.len(),
            goal == old(out)@ + comments(b@, start as int, end as int),
            goal == out@ + comments(b@, i as int, end as int),
        decreases end - i,
    {
        let ghost before = out@;
        proof {
            text::lemma_find_byte(b@, 0x0a, i as int, end as int);
        }
        let n = text::byte_position(b, 0x0a, i, end);
        let e = if n < end && i < n && b[n - 1] == 0x0d { n - 1 } else { n };
        if e > i {
            push_text(out, "// ");
            push_range(out, b, i, e);
            push_text(out, "\n");
        } else {
            push_text(out, "\n");
        }
        proof {
            let line = b@.subrange(i as int, e as int);
            assert(out@ =~= before + comment(line));
            let rest = comments(b@, n + 1, end as int);
            assert(before + (comment(line) + rest) =~= out@ + rest);
        }
        if n >= end {
            assert(out@ + comments(b@, n + 1, end as int) =~= out@);
            return;
        }
        i = n + 1;
    }
    assert(out@ + comments(b@, i as int, end as int) =~= out@);
}

fn push_data(out: &mut Vec<u8>, i: &ParsedCodeInstruction)
    ensures
        final(out)@ == old(out)@ + data_text(i@),
{
    match i {
        ParsedCodeInstruction::String(s) => {
            let b = s.as_str().as_bytes();
            push_text(out, "\"");
            pchtxt_writer::push_escaped(out, b, 0, b.len());
            push_text(out, "\"");
            assert(out@ =~= old(out)@ + data_text(i@));
        },
        _ => {
            let bytes = assemble::bytes_of_data(i);
            pchtxt_writer::push_hex_bytes(out, bytes.as_slice(), 0, bytes.len());
        },
    }
}

/// Whether the lines of the code stand in the source one behind the other.
pub fn lines_fit(original_source: &str, code: &Vec<ParsedCode>) -> (r: bool)
    ensures
        r == lines_in_order(
            original_source.spec_bytes(),
            types::code_models(code@),
            code@.len() as int,
        ),
{
    let ghost b = original_source.spec_bytes();
    let ghost models = types::code_models(code@);
    let len: usize = original_source.as_bytes().len();
    let mut last: usize = 0;
    let mut i: usize = 0;
    while i < code.len()
        invariant
            i <= code@.len(),
            b == original_source.spec_bytes(),
            len == b.len(),
            models == types::code_models(code@),
            last == line_end(models, i as int),
            last <= len,
            lines_in_order(b, models, i as int),
        decreases code@.len() - i,
    {
        assert(models[i as int] == code@[i as int]@);
        let span = code[i].line_span;
        if span.offset < last || span.offset > len || span.len > len - span.offset {
            proof {
                if i > 0 {
                    assert(models[i - 1].line_span.offset + models[i - 1].line_span.len == last);
                }
            }
            return false;
        }
        proof {
            lemma_line_end(b, models, i as int);
        }
        last = span.offset + span.len;
        i += 1;
    }
    true
}

impl Assembler {
    /// What has to be assembled for the patch text file of some code, one request for each
    /// instruction.
    pub fn debug_pchtxt_requests(code: &Vec<ParsedCode>, labels: &Vec<(String, CodeAddress)>) -> (r:
        Vec<AsmRequest>)
        ensures
            request_models(r@) == debug_requests(
                types::code_models(code@),
                assemble::label_lines(types::label_models(labels@), labels@.len() as int),
                code@.len() as int,
            ),
    {
        let prefix = assemble::define_labels(labels);
        let ghost models = types::code_models(code@);
        let ghost start = text::bytes_of(prefix);
        let mut r: Vec<AsmRequest> = Vec::new();
        assert(request_models(r@) =~= Seq::empty());
        let mut i: usize = 0;
        while i < code.len()
            invariant
                i <= code@.len(),
                models == types::code_models(code@),
                start == text::bytes_of(prefix),
                request_models(r@) == debug_requests(models, start, i as int),
            decreases code@.len() - i,
        {
            assert(models[i as int] == code@[i as int]@);
            if let ParsedCodeInstruction::Asm(line) = &code[i].instruction {
                let mut source = prefix.clone();
                text::append(&mut source, line.as_str());
                let q = AsmRequest { source, address: code[i].address.code_address() };
                let ghost before = r@;
                r.push(q);
                assert(request_models(r@) =~= request_models(before).push(
                    (text::bytes_of(source), q.address),
                ));
            }
            i += 1;
        }
        r
    }

    /// A patch text file with the source of the patch in its comments, given what came of the
    /// requests for its instructions. `None` where a reply does not have the four bytes of an
    /// instruction.
    pub fn assemble_debug_pchtxt(
        original_source: &str,
        build_id: BuildId,
        code: &Vec<ParsedCode>,
        replies: &Vec<Result<Vec<u8>, String>>,
    ) -> (r: Option<(Vec<u8>, Vec<AssembleDiagnostic>)>)
        requires
            lines_in_order(
                original_source.spec_bytes(),
                types::code_models(code@),
                code@.len() as int,
            ),
            replies@.len() == asm_count(types::code_models(code@), code@.len() as int),
        ensures
            r is Some <==> replies_fit(reply_models(replies@)),
            r matches Some((file, diags)) ==> {
                let models = types::code_models(code@);
                &&& file@ == debug_file(
                    original_source.spec_bytes(),
                    build_id,
                    models,
                    reply_models(replies@),
                )
                &&& assemble::diagnostics(diags@) == debug_diagnostics(
                    models,
                    reply_models(replies@),
                    models.len() as int,
                )
            },
    {
        let b = original_source.as_bytes();
        let ghost models = types::code_models(code@);
        let ghost told = reply_models(replies@);
        let mut k: usize = 0;
        while k < replies.len()
            invariant
                k <= replies@.len(),
                told == reply_models(replies@),
                forall|j: int|
                    0 <= j < k ==> ((#[trigger] told[j]) matches Ok(bytes) ==> bytes.len() == 4),
            decreases replies@.len() - k,
        {
            assert(told[k as int] == assemble::reply_view(replies@[k as int]));
            if let Ok(bytes) = &replies[k] {
                if bytes.len() != 4 {
                    return None;
                }
            }
            k += 1;
        }
        let mut out: Vec<u8> = Vec::new();
        let mut diags: Vec<AssembleDiagnostic> = Vec::new();
        push_text(&mut out, "@nsobid-");
        pchtxt_writer::push_hex(&mut out, build_id, 32);
        push_text(&mut out, "\n@flag offset_shift 0x100\n@enabled\n\n");
        let ghost head = debug_head(build_id);
        proof {
            assert(out@ =~= head);
            assert(out@ =~= head + debug_lines(b@, models, told, 0));
            assert(assemble::diagnostics(diags@) =~= Seq::empty());
        }
        let mut last: usize = 0;
        let mut asked: usize = 0;
        let mut i: usize = 0;
        while i < code.len()
            invariant
                i <= code@.len(),
                b@ == original_source.spec_bytes(),
                models == types::code_models(code@),
                told == reply_models(replies@),
                lines_in_order(b@, models, code@.len() as int),
                replies@.len() == asm_count(models, code@.len() as int),
                asked == asm_count(models, i as int),
                last == line_end(models, i as int),
                last <= b@.len(),
                out@ == head + debug_lines(b@, models, told, i as int),
                assemble::diagnostics(diags@) == debug_diagnostics(models, told, i as int),
            decreases code@.len() - i,
        {
            let c = &code[i];
            let ghost before = debug_lines(b@, models, told, i as int);
            assert(models[i as int] == c@);
            let span = c.line_span;
            assert(b.len() == b@.len() && replies.len() == replies@.len());
            proof {
                lemma_asm_count(models, i + 1, models.len() as int);
                if i > 0 {
                    assert(models[i - 1].line_span.offset + models[i - 1].line_span.len
                        <= models[i as int].line_span.offset);
                }
            }
            push_comments(&mut out, b, last, span.offset);
            pchtxt_writer::push_hex(&mut out, c.address.code_address() as u128, 8);
            push_text(&mut out, " ");
            let ghost so_far = out@;
            match &c.instruction {
                ParsedCodeInstruction::Asm(_) => {
                    assert(told[asked as int] == assemble::reply_view(replies@[asked as int]));
                    match &replies[asked] {
                        Ok(bytes) => {
                            pchtxt_writer::push_hex_bytes(
                                &mut out,
                                bytes.as_slice(),
                                0,
                                bytes.len(),
                            );
                        },
                        Err(message) => {
                            let ghost had = diags@;
                            let d = AssembleDiagnostic::InvalidAsm {
                                message: message.clone(),
                                at: c.instruction_span,
                            };
                            diags.push(d);
                            assert(assemble::diagnostics(diags@) =~= assemble::diagnostics(
                                had,
                            ).push(d@));
                        },
                    }
                    asked += 1;
                },
                _ => {
                    push_data(&mut out, &c.instruction);
                },
            }
            assert(out@ =~= so_far + code_text(models, told, i as int));
            push_text(&mut out, " // ");
            push_range(&mut out, b, span.offset, span.offset + span.len);
            last = span.offset + span.len;
            i += 1;
            assert(out@ =~= head + debug_lines(b@, models, told, i as int));
        }
        push_comments(&mut out, b, last, b.len());
        Some((out, diags))
    }
}

/// No line before the `n`th instruction ends behind the one right before it.
proof fn lemma_line_end(b: Seq<u8>, code: Seq<CodeModel>, n: int)
    requires
        0 <= n <= code.len(),
        lines_in_order(b, code, n),
    ensures
        forall|i: int|
            0 <= i < n ==> (#[trigger] code[i]).line_span.offset + code[i].line_span.len
                <= line_end(code, n),
{
    if n > 0 {
        assert forall|i: int| 0 <= i < n implies (#[trigger] code[i]).line_span.offset
            + code[i].line_span.len <= line_end(code, n) by {
            if i < n - 1 {
                assert(code[i].line_span.offset + code[i].line_span.len
                    <= code[n - 1].line_span.offset);
            }
        }
    }
}

proof fn lemma_asm_count(code: Seq<CodeModel>, n: int, m: int)
    requires
        n <= m,
    ensures
        asm_count(code, n) <= asm_count(code, m),
    decreases m,
{
    if n < m && m > 0 {
        lemma_asm_count(code, n, m - 1);
    }
}

} // verus!
