//! Turning the code of a build into a patch.
//!
//! Data is put into the patch as it is. Instructions go to an assembler outside of the library:
//! an `Assembler` says what it wants assembled, and is told what came of it.

use crate::parse::address::CodeAddress;
use crate::parse::types;
use crate::parse::types::{
    CodeInstructionModel, CodeModel, ParsedCode, ParsedCodeInstruction,
};
use crate::patches;
use crate::patches::PatchVec;
use crate::text;
use crate::utils::SourceSpan;
use vstd::prelude::*;
use vstd::string::*;

pub mod debug;
pub mod debug_laws;
pub mod patch_laws;

verus! {

#[derive(Debug, PartialEq, Eq)]
pub enum AssembleDiagnostic<Text = String> {
    InvalidAsm { message: Text, at: SourceSpan },
}

pub type AssembleDiagnosticModel = AssembleDiagnostic<Seq<u8>>;

impl View for AssembleDiagnostic<String> {
    type V = AssembleDiagnostic<Seq<u8>>;

    open spec fn view(&self) -> AssembleDiagnostic<Seq<u8>> {
        match *self {
            AssembleDiagnostic::InvalidAsm { message, at } => AssembleDiagnostic::InvalidAsm {
                message: text::bytes_of(message),
                at,
            },
        }
    }
}

pub open spec fn diagnostics(v: Seq<AssembleDiagnostic>) -> Seq<AssembleDiagnosticModel> {
    Seq::new(v.len(), |i: int| v[i]@)
}

/// Instructions to assemble, and the address that they are for.
#[derive(Debug, PartialEq, Eq)]
pub struct AsmRequest {
    pub source: String,
    pub address: u32,
}

/// What an assembler is waiting for.
#[derive(Clone, Copy, Debug, PartialEq, Eq, Structural)]
pub enum Wait {
    /// Nothing: all the code has been assembled.
    Done,
    /// The bytes of a run of instructions.
    Group { len: usize },
    /// The bytes of one instruction of a run that did not assemble as a whole.
    Line { len: usize, line: usize },
}

/// What came of a request: the bytes, or the message of an error.
pub open spec fn reply_view(r: Result<Vec<u8>, String>) -> Result<Seq<u8>, Seq<u8>> {
    match r {
        Ok(bytes) => Ok(bytes@),
        Err(message) => Err(text::bytes_of(message)),
    }
}

// ---------------------------------------------------------------------------------------------
// Model

/// The lowest `n` bytes of a number, the lowest one first.
pub open spec fn le_bytes(v: int, n: nat) -> Seq<u8>
    decreases n,
{
    if n == 0 {
        Seq::empty()
    } else {
        seq![(v % 256) as u8] + le_bytes(v / 256, (n - 1) as nat)
    }
}

/// The bytes that data stands for.
pub open spec fn data_bytes(i: CodeInstructionModel) -> Seq<u8> {
    match i {
        ParsedCodeInstruction::Byte(v) => seq![v],
        ParsedCodeInstruction::Short(v) => le_bytes(v as int, 2),
        ParsedCodeInstruction::Int(v) => le_bytes(v as int, 4),
        ParsedCodeInstruction::Long(v) => le_bytes(v as int, 8),
        ParsedCodeInstruction::Float(v) => le_bytes(v as int, 4),
        ParsedCodeInstruction::Double(v) => le_bytes(v as int, 8),
        ParsedCodeInstruction::String(s) => s,
        ParsedCodeInstruction::Asm(_) => Seq::empty(),
    }
}

/// The address in the file for an address in the code.
pub open spec fn file_address(address: u32) -> u32 {
    (address + CodeAddress::NSO_HEADER_LEN) as u32
}

/// The address in the file of the zero behind a string.
pub open spec fn zero_address(c: CodeModel) -> int {
    file_address(c.address) + data_bytes(c.instruction).len() as u32
}

/// The zero behind every string has an address.
pub open spec fn zeros_fit(code: Seq<CodeModel>) -> bool {
    forall|i: int|
        0 <= i < code.len() && (#[trigger] code[i]).instruction is String ==> zero_address(code[i])
            <= u32::MAX
}

/// The patch with data put into it. A zero follows a string.
pub open spec fn with_data(patch: Map<u32, u8>, c: CodeModel) -> Map<u32, u8> {
    let put = patches::put_all(patch, file_address(c.address), data_bytes(c.instruction));
    if c.instruction is String {
        put.insert(zero_address(c) as u32, 0)
    } else {
        put
    }
}

/// The index of the next instruction from `at` on, and the patch with the data before it.
pub open spec fn settled(code: Seq<CodeModel>, at: int, patch: Map<u32, u8>) -> (
    int,
    Map<u32, u8>,
)
    decreases code.len() - at,
{
    if at < 0 || at >= code.len() || code[at].instruction is Asm {
        (at, patch)
    } else {
        settled(code, at + 1, with_data(patch, code[at]))
    }
}

/// Of the run of instructions that starts at `at`, each four bytes behind the one before it: its
/// end, when it reaches from `at` to `j` at least.
pub open spec fn group_end(code: Seq<CodeModel>, at: int, j: int) -> int
    decreases code.len() - j,
{
    if 0 <= j < code.len() && code[j].instruction is Asm && code[j].address == code[at].address + 4
        * (j - at) {
        group_end(code, at, j + 1)
    } else {
        j
    }
}

/// The state of an assembler.
#[verifier::ext_equal]
pub struct AssemblerModel {
    pub code: Seq<CodeModel>,
    pub prefix: Seq<u8>,
    pub at: int,
    pub wait: Wait,
    pub patch: Map<u32, u8>,
    pub diags: Seq<AssembleDiagnosticModel>,
}

impl AssemblerModel {
    /// The assembler with the data from `at` on put into the patch, waiting for the next run of
    /// instructions.
    pub open spec fn settle(self, at: int, patch: Map<u32, u8>) -> AssemblerModel {
        let (next, after) = settled(self.code, at, patch);
        AssemblerModel {
            at: next,
            wait: if next < self.code.len() {
                Wait::Group { len: (group_end(self.code, next, next + 1) - next) as usize }
            } else {
                Wait::Done
            },
            patch: after,
            ..self
        }
    }

    pub open spec fn told(self, message: Seq<u8>, i: int) -> AssemblerModel {
        AssemblerModel {
            diags: self.diags.push(
                AssembleDiagnostic::InvalidAsm { message, at: self.code[i].instruction_span },
            ),
            ..self
        }
    }

    /// The patch with bytes at the address of the code at an index.
    pub open spec fn put(self, i: int, bytes: Seq<u8>) -> Map<u32, u8> {
        patches::put_all(self.patch, file_address(self.code[i].address), bytes)
    }

    /// The request that the assembler waits for.
    pub open spec fn request(self) -> Option<(Seq<u8>, u32)> {
        match self.wait {
            Wait::Done => None,
            Wait::Group { len } => Some(
                (
                    self.prefix + joined_lines(self.code, self.at, self.at + len),
                    self.code[self.at].address,
                ),
            ),
            Wait::Line { len, line } => Some(
                (
                    self.prefix + (self.code[self.at + line].instruction->Asm_0),
                    self.code[self.at + line].address,
                ),
            ),
        }
    }

    /// The assembler after a reply; `None` where no reply is due, or where it does not have four
    /// bytes for each instruction.
    pub open spec fn replied(self, reply: Result<Seq<u8>, Seq<u8>>) -> Option<AssemblerModel> {
        match self.wait {
            Wait::Done => None,
            Wait::Group { len } => match reply {
                Ok(bytes) => if bytes.len() == 4 * len {
                    Some(self.settle(self.at + len, self.put(self.at, bytes)))
                } else {
                    None
                },
                Err(message) => if len == 1 {
                    Some(self.told(message, self.at).settle(self.at + 1, self.patch))
                } else {
                    Some(AssemblerModel { wait: Wait::Line { len, line: 0 }, ..self })
                },
            },
            Wait::Line { len, line } => {
                let i = self.at + line;
                let after = match reply {
                    Ok(bytes) => if bytes.len() == 4 {
                        Some(AssemblerModel { patch: self.put(i, bytes), ..self })
                    } else {
                        None
                    },
                    Err(message) => Some(self.told(message, i)),
                };
                match after {
                    None => None,
                    Some(m) => if line + 1 < len {
                        Some(
                            AssemblerModel {
                                wait: Wait::Line { len, line: (line + 1) as usize },
                                ..m
                            },
                        )
                    } else {
                        Some(m.settle(self.at + len, m.patch))
                    },
                }
            },
        }
    }

    /// The assembler waits for a run of instructions that is as long as it can be, or for one of
    /// its lines.
    pub open spec fn sound(self) -> bool {
        &&& 0 <= self.at <= self.code.len()
        &&& self.wait is Done <==> self.at == self.code.len()
        &&& self.wait matches Wait::Group { len } ==> is_group(self.code, self.at, len as int)
        &&& self.wait matches Wait::Line { len, line } ==> {
            &&& is_group(self.code, self.at, len as int)
            &&& line < len
            &&& len > 1
        }
    }

    /// How much is left to do at the present run of instructions.
    pub open spec fn left(self) -> int {
        match self.wait {
            Wait::Done => 0,
            Wait::Group { len } => len + 1,
            Wait::Line { len, line } => len - line,
        }
    }
}

/// There are `len` instructions from `at` on, each four bytes behind the one before it, and no
/// more.
pub open spec fn is_group(code: Seq<CodeModel>, at: int, len: int) -> bool {
    &&& 0 < len <= code.len() - at
    &&& len == group_end(code, at, at + 1) - at
    &&& forall|j: int|
        at <= j < at + len ==> (#[trigger] code[j]).instruction is Asm && code[j].address
            == code[at].address + 4 * (j - at)
}

/// The lines of the instructions `i..j`, with a line break between each two.
pub open spec fn joined_lines(code: Seq<CodeModel>, i: int, j: int) -> Seq<u8>
    decreases j - i,
{
    if i >= j {
        Seq::empty()
    } else if i + 1 == j {
        code[i].instruction->Asm_0
    } else {
        joined_lines(code, i, j - 1) + "\n".spec_bytes() + (code[j - 1].instruction->Asm_0)
    }
}

/// A number in decimal.
pub open spec fn decimal(n: nat) -> Seq<u8>
    decreases n,
{
    if n < 10 {
        text::digit_text(n as int)
    } else {
        decimal(n / 10) + text::digit_text((n % 10) as int)
    }
}

/// The lines that define the first `n` labels.
pub open spec fn label_lines(labels: Seq<(Seq<u8>, u32)>, n: int) -> Seq<u8>
    decreases n,
{
    if n <= 0 {
        Seq::empty()
    } else {
        label_lines(labels, n - 1) + labels[n - 1].0 + "=".spec_bytes() + decimal(
            labels[n - 1].1 as nat,
        ) + "\n".spec_bytes()
    }
}

/// The state that an assembler of some code starts in.
pub open spec fn started(code: Seq<CodeModel>, labels: Seq<(Seq<u8>, u32)>) -> AssemblerModel {
    AssemblerModel {
        code,
        prefix: label_lines(labels, labels.len() as int),
        at: 0,
        wait: Wait::Done,
        patch: Map::empty(),
        diags: Seq::empty(),
    }.settle(0, Map::empty())
}

/// The assembler after the first `n` of some replies; `None` where one of them is not taken.
pub open spec fn after_replies(
    m: AssemblerModel,
    replies: Seq<Result<Seq<u8>, Seq<u8>>>,
    n: int,
) -> Option<AssemblerModel>
    decreases n,
{
    if n <= 0 {
        Some(m)
    } else {
        match after_replies(m, replies, n - 1) {
            None => None,
            Some(before) => before.replied(replies[n - 1]),
        }
    }
}

// ---------------------------------------------------------------------------------------------
// Laws

proof fn lemma_none_stays(
    m: AssemblerModel,
    replies: Seq<Result<Seq<u8>, Seq<u8>>>,
    i: int,
    n: int,
)
    requires
        0 <= i <= n,
        after_replies(m, replies, i) is None,
    ensures
        after_replies(m, replies, n) is None,
    decreases n,
{
    if i < n {
        lemma_none_stays(m, replies, i, n - 1);
    }
}

proof fn lemma_settled(code: Seq<CodeModel>, at: int, patch: Map<u32, u8>)
    requires
        0 <= at <= code.len(),
    ensures
        at <= settled(code, at, patch).0 <= code.len(),
        settled(code, at, patch).0 < code.len() ==> code[settled(
            code,
            at,
            patch,
        ).0].instruction is Asm,
    decreases code.len() - at,
{
    if at < code.len() && !(code[at].instruction is Asm) {
        lemma_settled(code, at + 1, with_data(patch, code[at]));
    }
}

proof fn lemma_group_end(code: Seq<CodeModel>, at: int, j: int)
    requires
        0 <= at < j <= code.len(),
        forall|k: int|
            at <= k < j ==> (#[trigger] code[k]).instruction is Asm && code[k].address
                == code[at].address + 4 * (k - at),
    ensures
        j <= group_end(code, at, j) <= code.len(),
        forall|k: int|
            at <= k < group_end(code, at, j) ==> (#[trigger] code[k]).instruction is Asm
                && code[k].address == code[at].address + 4 * (k - at),
    decreases code.len() - j,
{
    if j < code.len() && code[j].instruction is Asm && code[j].address == code[at].address + 4 * (j
        - at) {
        lemma_group_end(code, at, j + 1);
    }
}

/// Once the data from an index on is in the patch, the assembler waits for a run of instructions
/// or is done.
pub proof fn law_settle_is_sound(m: AssemblerModel, at: int, patch: Map<u32, u8>)
    requires
        0 <= at <= m.code.len() <= usize::MAX,
    ensures
        m.settle(at, patch).sound(),
        at <= m.settle(at, patch).at,
{
    lemma_settled(m.code, at, patch);
    let next = settled(m.code, at, patch).0;
    if next < m.code.len() {
        lemma_group_end(m.code, next, next + 1);
    }
}

/// Every reply that is taken leads on: to a later run of instructions, or to less that is left of
/// the present one. So the code is assembled after a finite number of requests.
pub proof fn law_reply_leads_on(m: AssemblerModel, reply: Result<Seq<u8>, Seq<u8>>)
    requires
        m.sound(),
        m.code.len() <= usize::MAX,
    ensures
        m.replied(reply) matches Some(n) ==> {
            &&& n.sound()
            &&& n.code == m.code && n.prefix == m.prefix
            &&& m.at < n.at || (m.at == n.at && 0 < n.left() < m.left())
        },
        !(m.wait is Done) && reply is Err ==> m.replied(reply) is Some,
{
    match m.wait {
        Wait::Done => {},
        Wait::Group { len } => {
            match reply {
                Ok(bytes) => law_settle_is_sound(m, m.at + len, m.put(m.at, bytes)),
                Err(message) => law_settle_is_sound(m.told(message, m.at), m.at + 1, m.patch),
            }
        },
        Wait::Line { len, line } => {
            let i = m.at + line;
            match reply {
                Ok(bytes) => {
                    let n = AssemblerModel { patch: m.put(i, bytes), ..m };
                    law_settle_is_sound(n, m.at + len, n.patch);
                },
                Err(message) => law_settle_is_sound(m.told(message, i), m.at + len, m.patch),
            }
        },
    }
}

/// Code without instructions needs no assembler.
pub proof fn law_data_needs_no_request(
    code: Seq<CodeModel>,
    at: int,
    patch: Map<u32, u8>,
)
    requires
        0 <= at <= code.len(),
        forall|i: int| at <= i < code.len() ==> !((#[trigger] code[i]).instruction is Asm),
    ensures
        settled(code, at, patch).0 == code.len(),
    decreases code.len() - at,
{
    if at < code.len() {
        law_data_needs_no_request(code, at + 1, with_data(patch, code[at]));
    }
}

// ---------------------------------------------------------------------------------------------
// The assembler

/// Appends the lowest `n` bytes of a number to a list, the lowest one first.
pub(crate) fn push_le(out: &mut Vec<u8>, v: u64, n: usize)
    ensures
        final(out)@ == old(out)@ + le_bytes(v as int, n as nat),
{
    let mut rest: u64 = v;
    let mut k: usize = n;
    while k > 0
        invariant
            k <= n,
            out@ + le_bytes(rest as int, k as nat) == old(out)@ + le_bytes(v as int, n as nat),
        decreases k,
    {
        let ghost before = out@;
        let low: u8 = (rest % 256) as u8;
        out.push(low);
        proof {
            assert(before + le_bytes(rest as int, k as nat) =~= out@ + le_bytes(
                rest as int / 256,
                (k - 1) as nat,
            ));
        }
        rest = rest / 256;
        k -= 1;
    }
    assert(out@ + le_bytes(rest as int, 0) =~= out@);
}

/// The bytes that data stands for.
pub(crate) fn bytes_of_data(i: &ParsedCodeInstruction) -> (r: Vec<u8>)
    ensures
        r@ == data_bytes(i@),
{
    let mut out: Vec<u8> = Vec::new();
    match i {
        ParsedCodeInstruction::Byte(v) => out.push(*v),
        ParsedCodeInstruction::Short(v) => push_le(&mut out, *v as u64, 2),
        ParsedCodeInstruction::Int(v) => push_le(&mut out, *v as u64, 4),
        ParsedCodeInstruction::Long(v) => push_le(&mut out, *v, 8),
        ParsedCodeInstruction::Float(v) => push_le(&mut out, *v as u64, 4),
        ParsedCodeInstruction::Double(v) => push_le(&mut out, *v, 8),
        ParsedCodeInstruction::String(s) => {
            out.extend_from_slice(s.as_str().as_bytes());
        },
        ParsedCodeInstruction::Asm(_) => {},
    }
    assert(out@ =~= data_bytes(i@));
    out
}

/// Whether the zero behind every string has an address.
pub fn code_fits(code: &Vec<ParsedCode>) -> (r: bool)
    ensures
        r == zeros_fit(types::code_models(code@)),
{
    let ghost models = types::code_models(code@);
    let mut i: usize = 0;
    while i < code.len()
        invariant
            i <= code@.len(),
            models == types::code_models(code@),
            forall|k: int|
                0 <= k < i && (#[trigger] models[k]).instruction is String ==> zero_address(
                    models[k],
                ) <= u32::MAX,
        decreases code@.len() - i,
    {
        assert(models[i as int] == code@[i as int]@);
        if let ParsedCodeInstruction::String(s) = &code[i].instruction {
            let len: u32 = s.as_str().as_bytes().len() as u32;
            if len > u32::MAX - code[i].address.nso_address() {
                return false;
            }
        }
        i += 1;
    }
    true
}

fn append_decimal(s: &mut String, n: u32)
    ensures
        text::bytes_of(*final(s)) == text::bytes_of(*old(s)) + decimal(n as nat),
    decreases n,
{
    if n >= 10 {
        append_decimal(s, n / 10);
    }
    text::append_digit(s, (n % 10) as u8);
    assert(text::bytes_of(*s) =~= text::bytes_of(*old(s)) + decimal(n as nat));
}

/// The lines that define labels.
pub(crate) fn define_labels(labels: &Vec<(String, CodeAddress)>) -> (r: String)
    ensures
        text::bytes_of(r) == label_lines(types::label_models(labels@), labels@.len() as int),
{
    let ghost models = types::label_models(labels@);
    let mut s = text::own("");
    proof {
        reveal_strlit("");
        assert(text::bytes_of(s) =~= Seq::empty());
    }
    let mut i: usize = 0;
    while i < labels.len()
        invariant
            i <= labels@.len(),
            models == types::label_models(labels@),
            text::bytes_of(s) == label_lines(models, i as int),
        decreases labels@.len() - i,
    {
        text::append(&mut s, labels[i].0.as_str());
        text::append(&mut s, "=");
        append_decimal(&mut s, labels[i].1.code_address());
        text::append(&mut s, "\n");
        i += 1;
    }
    s
}

/// Assembles the code of a build. It says what it wants assembled, one request after the other.
#[derive(Debug)]
pub struct Assembler {
    code: Vec<ParsedCode>,
    prefix: String,
    at: usize,
    wait: Wait,
    patch: PatchVec,
    diags: Vec<AssembleDiagnostic>,
}

impl View for Assembler {
    type V = AssemblerModel;

    closed spec fn view(&self) -> AssemblerModel {
        AssemblerModel {
            code: types::code_models(self.code@),
            prefix: text::bytes_of(self.prefix),
            at: self.at as int,
            wait: self.wait,
            patch: self.patch@,
            diags: diagnostics(self.diags@),
        }
    }
}

impl Assembler {
    /// The invariant: the assembler waits for a run of instructions or a line of one.
    pub closed spec fn wf(&self) -> bool {
        self@.sound() && zeros_fit(self@.code)
    }

    /// What the invariant says of the view.
    pub proof fn lemma_wf(&self)
        requires
            self.wf(),
        ensures
            self@.sound(),
    {
    }

    fn group_len(&self) -> (r: usize)
        requires
            self.at < self.code@.len(),
        ensures
            r == group_end(self@.code, self.at as int, self.at + 1) - self.at,
            r > 0,
    {
        let ghost models = self@.code;
        let start: u64 = self.code[self.at].address.code_address() as u64;
        assert(self.code.len() == self.code@.len());
        let mut j: usize = self.at + 1;
        let mut address: u64 = start + 4;
        while j < self.code.len()
            invariant
                self.at < j <= self.code@.len(),
                models == types::code_models(self.code@),
                start == models[self.at as int].address,
                start <= u32::MAX,
                address == start + 4 * (j - self.at),
                address <= u32::MAX + 4,
                group_end(models, self.at as int, self.at + 1) == group_end(
                    models,
                    self.at as int,
                    j as int,
                ),
            decreases self.code@.len() - j,
        {
            assert(models[j as int] == self.code@[j as int]@);
            let next = match &self.code[j].instruction {
                ParsedCodeInstruction::Asm(_) => true,
                _ => false,
            };
            if !next || self.code[j].address.code_address() as u64 != address {
                return j - self.at;
            }
            address += 4;
            j += 1;
        }
        j - self.at
    }

    /// Puts the data from an index on into the patch, and waits for the next run of instructions.
    fn settle(&mut self, from: usize)
        requires
            from <= old(self).code@.len(),
            zeros_fit(old(self)@.code),
        ensures
            final(self)@ == old(self)@.settle(from as int, old(self)@.patch),
            final(self).wf(),
    {
        let ghost m = self@;
        let ghost models = self@.code;
        let ghost goal = settled(models, from as int, m.patch);
        let len: usize = self.code.len();
        let mut i: usize = from;
        while i < len
            invariant
                i <= len,
                len == self.code@.len(),
                models == types::code_models(self.code@),
                zeros_fit(models),
                goal == settled(models, i as int, self.patch@),
                self@ == (AssemblerModel { patch: self.patch@, ..m }),
            ensures
                i == goal.0,
                self.patch@ == goal.1,
            decreases len - i,
        {
            assert(models[i as int] == self.code@[i as int]@);
            let is_asm = match &self.code[i].instruction {
                ParsedCodeInstruction::Asm(_) => true,
                _ => false,
            };
            if is_asm {
                break;
            }
            let address = self.code[i].address.nso_address();
            let bytes = bytes_of_data(&self.code[i].instruction);
            self.patch.put(address, bytes.as_slice());
            let is_string = match &self.code[i].instruction {
                ParsedCodeInstruction::String(_) => true,
                _ => false,
            };
            if is_string {
                self.patch.put_byte(address + bytes.len() as u32, 0);
            }
            i += 1;
        }
        self.at = i;
        self.wait = if i < len { Wait::Group { len: self.group_len() } } else { Wait::Done };
        proof {
            law_settle_is_sound(m, from as int, m.patch);
            assert(self@ =~= m.settle(from as int, m.patch));
        }
    }

    /// Starts to assemble some code. Where a string ends at the very last address, there is no
    /// place for the zero behind it.
    pub fn new(code: Vec<ParsedCode>, labels: &Vec<(String, CodeAddress)>) -> (r: Self)
        requires
            zeros_fit(types::code_models(code@)),
        ensures
            r.wf(),
            r@ == started(types::code_models(code@), types::label_models(labels@)),
    {
        let mut r = Assembler {
            code,
            prefix: define_labels(labels),
            at: 0,
            wait: Wait::Done,
            patch: PatchVec::new(),
            diags: Vec::new(),
        };
        assert(diagnostics(r.diags@) =~= Seq::empty());
        assert(r@.patch == Map::<u32, u8>::empty());
        r.settle(0);
        r
    }

    fn append_line(&self, s: &mut String, i: usize)
        requires
            i < self.code@.len(),
            self@.code[i as int].instruction is Asm,
        ensures
            text::bytes_of(*final(s)) == text::bytes_of(*old(s)) + (
            self@.code[i as int].instruction->Asm_0),
    {
        assert(self@.code[i as int] == self.code@[i as int]@);
        if let ParsedCodeInstruction::Asm(line) = &self.code[i].instruction {
            text::append(s, line.as_str());
        }
    }

    /// What is to be assembled next.
    pub fn request(&self) -> (r: Option<AsmRequest>)
        requires
            self.wf(),
        ensures
            r is Some <==> self@.request() is Some,
            r matches Some(q) ==> (text::bytes_of(q.source), q.address) == self@.request()->0,
    {
        let mut source = self.prefix.clone();
        let ghost prefix = text::bytes_of(self.prefix);
        assert(self.code.len() == self@.code.len());
        match self.wait {
            Wait::Done => None,
            Wait::Group { len } => {
                assert(self@.code[self.at as int] == self.code@[self.at as int]@);
                self.append_line(&mut source, self.at);
                let mut k: usize = 1;
                while k < len
                    invariant
                        1 <= k <= len,
                        self.wf(),
                        self.at + len <= usize::MAX,
                        is_group(self@.code, self.at as int, len as int),
                        text::bytes_of(source) == prefix + joined_lines(
                            self@.code,
                            self.at as int,
                            self.at + k,
                        ),
                    decreases len - k,
                {
                    assert(self@.code[self.at + k].instruction is Asm);
                    text::append(&mut source, "\n");
                    self.append_line(&mut source, self.at + k);
                    k += 1;
                    assert(text::bytes_of(source) =~= prefix + joined_lines(
                        self@.code,
                        self.at as int,
                        self.at + k,
                    ));
                }
                Some(AsmRequest { source, address: self.code[self.at].address.code_address() })
            },
            Wait::Line { len, line } => {
                let i: usize = self.at + line;
                assert(self@.code[i as int] == self.code@[i as int]@);
                self.append_line(&mut source, i);
                Some(AsmRequest { source, address: self.code[i].address.code_address() })
            },
        }
    }

    fn tell(&mut self, message: String, i: usize)
        requires
            i < old(self).code@.len(),
        ensures
            final(self)@ == old(self)@.told(text::bytes_of(message), i as int),
            final(self).code == old(self).code,
            final(self).at == old(self).at,
            final(self).wait == old(self).wait,
    {
        assert(self@.code[i as int] == self.code@[i as int]@);
        let at = self.code[i].instruction_span;
        let ghost before = self.diags@;
        let d = AssembleDiagnostic::InvalidAsm { message, at };
        self.diags.push(d);
        assert(diagnostics(self.diags@) =~= diagnostics(before).push(d@));
        assert(self@ =~= old(self)@.told(text::bytes_of(message), i as int));
    }

    /// Takes what came of a request. `false` where no reply is due, or where it does not have
    /// four bytes for each instruction.
    pub fn reply(&mut self, reply: Result<Vec<u8>, String>) -> (r: bool)
        requires
            old(self).wf(),
        ensures
            r == old(self)@.replied(reply_view(reply)) is Some,
            r ==> final(self)@ == old(self)@.replied(reply_view(reply))->0,
            final(self).wf(),
            !r ==> final(self)@ == old(self)@,
    {
        let ghost m = self@;
        let code_len: usize = self.code.len();
        proof {
            law_reply_leads_on(m, reply_view(reply));
        }
        match self.wait {
            Wait::Done => false,
            Wait::Group { len } => {
                let at = self.at;
                assert(m.code[at as int] == self.code@[at as int]@);
                match reply {
                    Ok(bytes) => {
                        if bytes.len() % 4 != 0 || bytes.len() / 4 != len {
                            return false;
                        }
                        let address = self.code[at].address.nso_address();
                        self.patch.put(address, bytes.as_slice());
                        assert(self@ =~= AssemblerModel { patch: m.put(at as int, bytes@), ..m });
                        self.settle(at + len);
                        assert(self@ =~= m.settle(at + len, m.put(at as int, bytes@)));
                        true
                    },
                    Err(message) => {
                        if len == 1 {
                            self.tell(message, at);
                            self.settle(at + 1);
                        } else {
                            self.wait = Wait::Line { len, line: 0 };
                            assert(self@ =~= m.replied(reply_view(reply))->0);
                        }
                        true
                    },
                }
            },
            Wait::Line { len, line } => {
                let i: usize = self.at + line;
                assert(m.code[i as int] == self.code@[i as int]@);
                let at = self.at;
                match reply {
                    Ok(bytes) => {
                        if bytes.len() != 4 {
                            return false;
                        }
                        let address = self.code[i].address.nso_address();
                        self.patch.put(address, bytes.as_slice());
                        assert(self@ =~= AssemblerModel { patch: m.put(i as int, bytes@), ..m });
                    },
                    Err(message) => {
                        self.tell(message, i);
                    },
                }
                let ghost after = self@;
                if line + 1 < len {
                    self.wait = Wait::Line { len, line: line + 1 };
                    assert(self@ =~= AssemblerModel {
                        wait: Wait::Line { len, line: (line + 1) as usize },
                        ..after
                    });
                } else {
                    self.settle(at + len);
                }
                true
            },
        }
    }

    /// The patch, and what was said about the code.
    pub fn finish(self) -> (r: (PatchVec, Vec<AssembleDiagnostic>))
        ensures
            r.0@ == self@.patch,
            diagnostics(r.1@) == self@.diags,
    {
        (self.patch, self.diags)
    }
}

pub open spec fn reply_models(v: Seq<Result<Vec<u8>, String>>) -> Seq<Result<Seq<u8>, Seq<u8>>> {
    Seq::new(v.len(), |i: int| reply_view(v[i]))
}

impl Assembler {
    /// The assembler of some code after some replies; `None` where one of them is not taken. It
    /// is done where it asks for nothing more.
    pub fn assemble(
        code: Vec<ParsedCode>,
        labels: &Vec<(String, CodeAddress)>,
        replies: Vec<Result<Vec<u8>, String>>,
    ) -> (r: Option<Self>)
        requires
            zeros_fit(types::code_models(code@)),
        ensures
            ({
                let m = after_replies(
                    started(types::code_models(code@), types::label_models(labels@)),
                    reply_models(replies@),
                    replies@.len() as int,
                );
                &&& r is Some <==> m is Some
                &&& r matches Some(a) ==> a.wf() && a@ == m->0
            }),
    {
        let ghost all = replies@;
        let ghost models = reply_models(all);
        let mut r = Self::new(code, labels);
        let ghost start = r@;
        let mut rest = replies;
        let mut k: Ghost<int> = Ghost(0);
        assert(rest@ =~= all.subrange(0, all.len() as int));
        while rest.len() > 0
            invariant
                0 <= k@ <= all.len(),
                all == replies@,
                models == reply_models(all),
                rest@ == all.subrange(k@, all.len() as int),
                r.wf(),
                start == started(types::code_models(code@), types::label_models(labels@)),
                after_replies(start, models, k@) == Some(r@),
            decreases rest@.len(),
        {
            let reply = rest.remove(0);
            assert(reply_view(reply) == models[k@]);
            let taken = r.reply(reply);
            proof {
                k@ = k@ + 1;
            }
            if !taken {
                proof {
                    lemma_none_stays(start, models, k@, all.len() as int);
                }
                return None;
            }
        }
        Some(r)
    }
}

} // verus!
