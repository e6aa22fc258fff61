//! Which patches of a patch text file count, and where they stand in the source that the file
//! becomes.

use crate::patches;
use crate::pchtxt;
use crate::pchtxt::{
    ItemModel, LineModel, PatchesModel, PchtxtDianostic, PchtxtFlag, PchtxtLineData,
};
use crate::pchtxt_nxpch;
use crate::pchtxt_nxpch::{NxpchModel, Status};
use crate::text;
use vstd::prelude::*;
use vstd::string::*;

verus! {

// ---------------------------------------------------------------------------------------------
// What counts

/// Whether patches count behind the first `k` lines: the last line that switches them on or off
/// decides, and before any such line it is as `on` says.
pub open spec fn enabled_from(w: Seq<ItemModel>, on: bool, k: int) -> bool
    decreases k,
{
    if k <= 0 {
        on
    } else {
        match w[k - 1].line.data {
            PchtxtLineData::Enable => true,
            PchtxtLineData::Disable => false,
            _ => enabled_from(w, on, k - 1),
        }
    }
}

/// The shift of addresses behind the first `k` lines: that of the last line that sets one.
pub open spec fn shift_from(w: Seq<ItemModel>, shift: i32, k: int) -> i32
    decreases k,
{
    if k <= 0 {
        shift
    } else {
        match w[k - 1].line.data {
            PchtxtLineData::Flag(PchtxtFlag::OffsetShift(s)) => s,
            _ => shift_from(w, shift, k - 1),
        }
    }
}

/// What the first `k` lines put: every patch that counts where it stands, moved by the shift that
/// holds there.
pub open spec fn counted_patches(
    w: Seq<ItemModel>,
    put: Map<u32, u8>,
    on: bool,
    shift: i32,
    k: int,
) -> Map<u32, u8>
    decreases k,
{
    if k <= 0 {
        put
    } else {
        let before = counted_patches(w, put, on, shift, k - 1);
        match w[k - 1].line.data {
            PchtxtLineData::Patch { offset, patch, is_string } => if enabled_from(w, on, k - 1) {
                patches::put_all(
                    before,
                    offset.wrapping_add_signed(shift_from(w, shift, k - 1)),
                    patch,
                )
            } else {
                before
            },
            _ => before,
        }
    }
}

proof fn lemma_shifted(
    x: ItemModel,
    rest: Seq<ItemModel>,
    put: Map<u32, u8>,
    on: bool,
    shift: i32,
    k: int,
)
    requires
        0 <= k <= rest.len(),
    ensures
        ({
            let w = seq![x] + rest;
            let on1 = enabled_from(w, on, 1);
            let shift1 = shift_from(w, shift, 1);
            let put1 = counted_patches(w, put, on, shift, 1);
            &&& enabled_from(w, on, k + 1) == enabled_from(rest, on1, k)
            &&& shift_from(w, shift, k + 1) == shift_from(rest, shift1, k)
            &&& counted_patches(w, put, on, shift, k + 1) == counted_patches(
                rest,
                put1,
                on1,
                shift1,
                k,
            )
        }),
    decreases k,
{
    let w = seq![x] + rest;
    if k > 0 {
        lemma_shifted(x, rest, put, on, shift, k - 1);
        assert(w[k] == rest[k - 1]);
    }
}

proof fn lemma_ignored(b: Seq<u8>, i: int, put: Map<u32, u8>, on: bool, shift: i32, k: int)
    requires
        0 <= k <= pchtxt::walk(b, i, false, true).len(),
    ensures
        counted_patches(pchtxt::walk(b, i, false, true), put, on, shift, k) == put,
    decreases b.len() - i, k,
{
    let w = pchtxt::walk(b, i, false, true);
    if k > 0 {
        let (e, next) = pchtxt::line_ends(b, i);
        let line = pchtxt::line_at(b, i, e, false, true);
        let rest = pchtxt::walk(b, next, false, true);
        let x = ItemModel { line, start: i, end: e };
        assert(w == seq![x] + rest);
        lemma_shifted(x, rest, put, on, shift, k - 1);
        reveal_with_fuel(counted_patches, 2);
        lemma_ignored(
            b,
            next,
            put,
            enabled_from(w, on, 1),
            shift_from(w, shift, 1),
            k - 1,
        );
    }
}

proof fn lemma_patches_from(b: Seq<u8>, i: int, first: bool, st: PatchesModel)
    ensures
        ({
            let w = pchtxt::walk(b, i, first, false);
            pchtxt::patches_from(b, i, first, st).patches == counted_patches(
                w,
                st.patches,
                st.enabled,
                st.shift,
                w.len() as int,
            )
        }),
    decreases b.len() - i,
{
    let w = pchtxt::walk(b, i, first, false);
    if 0 <= i < b.len() {
        let (e, next) = pchtxt::line_ends(b, i);
        let line = pchtxt::line_at(b, i, e, first, false);
        if next <= i || next > b.len() {
        } else {
            let x = ItemModel { line, start: i, end: e };
            let rest = pchtxt::walk(b, next, false, line.data is Stop);
            assert(w == seq![x] + rest);
            assert(w.len() == rest.len() + 1);
            lemma_shifted(x, rest, st.patches, st.enabled, st.shift, rest.len() as int);
            reveal_with_fuel(counted_patches, 2);
            reveal_with_fuel(enabled_from, 2);
            reveal_with_fuel(shift_from, 2);
            if line.data is Stop {
                lemma_ignored(b, next, st.patches, st.enabled, st.shift, rest.len() as int);
            } else {
                let after = st.with_line(line, b.subrange(i, e), i as usize);
                lemma_patches_from(b, next, false, after);
                assert(w[0] == x);
                assert(after.enabled == enabled_from(w, st.enabled, 1));
                assert(after.shift == shift_from(w, st.shift, 1));
                assert(after.patches == counted_patches(w, st.patches, st.enabled, st.shift, 1));
            }
        }
    }
}

/// The patches of a file are those of its lines that count where they stand, in their order: a
/// patch counts when a line before it switched patches on and none since switched them off. Each
/// is moved by the last shift before it.
pub proof fn law_counted_patches(b: Seq<u8>)
    ensures
        ({
            let w = pchtxt::walk(b, 0, true, false);
            pchtxt::pchtxt_patches(b).0.0 == counted_patches(
                w,
                Map::empty(),
                false,
                0,
                w.len() as int,
            )
        }),
{
    lemma_patches_from(b, 0, true, PatchesModel::start());
}

// ---------------------------------------------------------------------------------------------
// What is said

/// What one line adds to what is said about a file: what is wrong with it; the text of a line that
/// is shown; for a line that enables patches, the comment that stands before it; and for a patch
/// that counts, a shift that moves it out of the addresses. Nothing else is said.
pub proof fn law_line_says(st: PatchesModel, line: LineModel, t: Seq<u8>, at: usize)
    ensures
        ({
            let after = st.with_line(line, t, at);
            let n = st.diags.len() as int;
            let own: int = if line.diag is Some {
                1
            } else {
                0
            };
            let moved_out = match line.data {
                PchtxtLineData::Patch { offset, patch, is_string } => st.enabled && !(0 <= offset
                    + st.shift <= u32::MAX),
                _ => false,
            };
            let more: int = if line.data is Information || line.data is Enable || moved_out {
                1
            } else {
                0
            };
            &&& after.diags.len() == n + own + more
            &&& after.diags.subrange(0, n) == st.diags
            &&& line.diag matches Some(d) ==> after.diags[n] == d
            &&& line.data is Information ==> after.diags.last() == (PchtxtDianostic::Information {
                message: t,
                at: (at, t.len() as usize),
            })
            &&& line.data is Enable ==> after.diags.last() == (PchtxtDianostic::PatchEnabled {
                message: st.comment,
                at: (at, t.len() as usize),
            })
            &&& moved_out ==> after.diags.last() == (PchtxtDianostic::<Seq<u8>>::OverUnderFlow {
                offset_shift: st.shift,
                at: (at, 8),
            })
            &&& line.data is Comment ==> after.comment == t
            &&& !(line.data is Comment) ==> after.comment == st.comment
        }),
{
    let after = st.with_line(line, t, at);
    assert(after.diags.subrange(0, st.diags.len() as int) =~= st.diags);
}

/// Only the first line of a file names a build.
proof fn lemma_no_build(b: Seq<u8>, s: int, e: int, finished: bool)
    ensures
        !(pchtxt::line_at(b, s, e, false, finished).data is BuildId),
{
}

proof fn lemma_build_stays(b: Seq<u8>, i: int, st: PatchesModel)
    ensures
        pchtxt::patches_from(b, i, false, st).build_id == st.build_id,
    decreases b.len() - i,
{
    if 0 <= i < b.len() {
        let (e, next) = pchtxt::line_ends(b, i);
        let line = pchtxt::line_at(b, i, e, false, false);
        lemma_no_build(b, i, e, false);
        if next <= i || next > b.len() {
        } else if line.data is Stop {
        } else {
            let after = st.with_line(line, b.subrange(i, e), i as usize);
            assert(after.build_id == st.build_id);
            lemma_build_stays(b, next, after);
        }
    }
}

/// The build of a file is the one that its first line names. Where it names none, the build is 0,
/// and that it is missing is said before all else.
pub proof fn law_build(b: Seq<u8>)
    ensures
        ({
            let w = pchtxt::walk(b, 0, true, false);
            let ((_, id), said) = pchtxt::pchtxt_patches(b);
            &&& w.len() > 0 && w[0].line.data is BuildId ==> w[0].line.data
                == PchtxtLineData::<Seq<u8>>::BuildId(id)
            &&& !(w.len() > 0 && w[0].line.data is BuildId) ==> id == 0 && said.len() > 0
                && said[0] is MissingBuildId
        }),
{
    let st = PatchesModel::start();
    if b.len() > 0 {
        let (e, next) = pchtxt::line_ends(b, 0);
        let line = pchtxt::line_at(b, 0, e, true, false);
        if next <= 0 || next > b.len() {
        } else if line.data is Stop {
        } else {
            let after = st.with_line(line, b.subrange(0, e), 0);
            lemma_build_stays(b, next, after);
        }
    }
}

// ---------------------------------------------------------------------------------------------
// Blocks

pub open spec fn joined(chunks: Seq<Seq<u8>>) -> Seq<u8>
    decreases chunks.len(),
{
    if chunks.len() == 0 {
        Seq::empty()
    } else {
        chunks[0] + joined(chunks.subrange(1, chunks.len() as int))
    }
}

/// A text starts with `#if 0`.
pub open spec fn opens(t: Seq<u8>) -> bool {
    t.len() >= 5 && t.subrange(0, 5) == seq![0x23u8, 0x69, 0x66, 0x20, 0x30]
}

/// A text starts with `#endif`.
pub open spec fn closes(t: Seq<u8>) -> bool {
    t.len() >= 6 && t.subrange(0, 6) == seq![0x23u8, 0x65, 0x6e, 0x64, 0x69, 0x66]
}

/// How many blocks are open behind the first `k` of some texts, where `d` were before them.
pub open spec fn level(chunks: Seq<Seq<u8>>, d: int, k: int) -> int
    decreases k,
{
    if k <= 0 {
        d
    } else {
        level(chunks, d, k - 1) + (if opens(chunks[k - 1]) {
            1int
        } else {
            0
        }) - (if closes(chunks[k - 1]) {
            1int
        } else {
            0
        })
    }
}

/// What becomes of a line, in terms of the blocks of `#if 0` and `#endif` around it: they are
/// never nested, a block is opened where none is open and closed where one is, and a patch ends up
/// in a block exactly when it does not count.
pub open spec fn well_placed(x: ItemModel, on: bool, before: int, t: Seq<u8>, after: int) -> bool {
    &&& t.len() > 0 && t.last() == 0x0a
    &&& after == 0 || after == 1
    &&& opens(t) ==> before == 0
    &&& closes(t) ==> before == 1
    &&& on ==> before == 0
    &&& x.line.data is Enable ==> after == 0
    &&& x.line.data is Disable ==> after == 1
    &&& x.line.data matches PchtxtLineData::Patch { offset, patch, is_string } ==> {
        let written = pchtxt_nxpch::patch_text(offset, patch, is_string);
        let lead: int = if opens(t) {
            6
        } else {
            0
        };
        &&& after == 1 <==> !on
        &&& !closes(t)
        &&& opens(t) ==> t[5] == 0x0a
        &&& t.len() > lead + written.len()
        &&& t.subrange(lead, lead + written.len()) == written
    }
    &&& !(x.line.data is Enable) && !(x.line.data is Disable) && !(x.line.data is Patch) ==> after
        == before && !opens(t) && !closes(t)
}

proof fn lemma_level_shifted(c: Seq<u8>, rest: Seq<Seq<u8>>, d: int, k: int)
    requires
        0 <= k <= rest.len(),
    ensures
        level(seq![c] + rest, d, k + 1) == level(rest, level(seq![c] + rest, d, 1), k),
    decreases k,
{
    if k > 0 {
        lemma_level_shifted(c, rest, d, k - 1);
        assert((seq![c] + rest)[k] == rest[k - 1]);
    }
}

spec fn status_of(on: bool, d: int) -> Status {
    if d == 1 {
        Status::Disabled
    } else if on {
        Status::Enabled
    } else {
        Status::PreEnabled
    }
}

/// The comment at the end of a line is written behind what is there, and starts no directive.
proof fn lemma_with_comment(out: Seq<u8>, x: Seq<u8>) -> (t: Seq<u8>)
    ensures
        pchtxt_nxpch::with_comment(out, x) == out + t,
        t.len() > 0 ==> t[0] != 0x23,
{
    let i = text::skip_space(x, 0, x.len() as int);
    text::lemma_skip_space(x, 0, x.len() as int);
    if i >= x.len() {
        assert(out =~= out + Seq::<u8>::empty());
        Seq::empty()
    } else {
        assert(x[0] != 0x23 || i == 0) by {
            if i > 0 {
                assert(text::space_width(x, 0, x.len() as int) > 0);
            }
        }
        if x[i] == 0x2f && i + 1 < x.len() && x[i + 1] == 0x2f {
            x
        } else if x[i] == 0x2f {
            let t = x.subrange(0, i) + seq![0x2fu8] + x.subrange(i, x.len() as int);
            assert(out + x.subrange(0, i) + seq![0x2fu8] + x.subrange(i, x.len() as int) =~= out
                + t);
            t
        } else {
            let gap = if out.len() > 0 && out.last() != 0x0a {
                seq![0x20u8]
            } else {
                Seq::<u8>::empty()
            };
            let t = gap + seq![0x2fu8, 0x2f] + x;
            assert(out + gap + seq![0x2fu8, 0x2f] + x =~= out + t);
            t
        }
    }
}

proof fn lemma_ended(st: NxpchModel, head: Seq<u8>, rest: Seq<u8>) -> (t: Seq<u8>)
    ensures
        st.writing(head).ended(rest).out == st.out + (head + t),
        st.writing(head).ended(rest).status == st.status,
        t.len() > 0,
        t.last() == 0x0a,
        t[0] != 0x23,
{
    let tail = lemma_with_comment(st.out + head, rest);
    let t = tail.push(0x0a);
    assert((st.out + head + tail).push(0x0a) =~= st.out + (head + t));
    t
}

proof fn lemma_patch_text(offset: u32, patch: Seq<u8>, is_string: bool)
    ensures
        pchtxt_nxpch::patch_text(offset, patch, is_string).len() > 0,
        pchtxt_nxpch::patch_text(offset, patch, is_string)[0] != 0x23,
{
    reveal_strlit("0x");
    is_ascii_spec_bytes("0x");
    reveal_strlit("// ");
    is_ascii_spec_bytes("// ");
    let target = pchtxt_nxpch::target(offset);
    assert(target.len() >= 2 && target[0] == 0x30);
    if patch.len() > 0 && !is_string && offset % 4 == 0 && patch.len() % 4 == 0 {
        assert(patch.len() >= 4);
    }
}

proof fn lemma_literals()
    ensures
        "#endif".spec_bytes() == seq![0x23u8, 0x65, 0x6e, 0x64, 0x69, 0x66],
        "#endif\n".spec_bytes() == seq![0x23u8, 0x65, 0x6e, 0x64, 0x69, 0x66, 0x0a],
        "#if 0".spec_bytes() == seq![0x23u8, 0x69, 0x66, 0x20, 0x30],
        "#if 0\n".spec_bytes() == seq![0x23u8, 0x69, 0x66, 0x20, 0x30, 0x0a],
        "// ".spec_bytes() == seq![0x2fu8, 0x2f, 0x20],
        "target_build = 0x".spec_bytes().len() > 0,
        "target_build = 0x".spec_bytes()[0] == 0x74,
        "pointer_offset = 0x".spec_bytes().len() > 0,
        "pointer_offset = 0x".spec_bytes()[0] == 0x70,
        "#warning \"".spec_bytes().len() > 2,
        "#warning \"".spec_bytes()[1] == 0x77,
        "\"\n".spec_bytes() == seq![0x22u8, 0x0a],
{
    reveal_strlit("#endif");
    is_ascii_spec_bytes("#endif");
    assert("#endif".spec_bytes() =~= seq![0x23u8, 0x65, 0x6e, 0x64, 0x69, 0x66]);
    reveal_strlit("#endif\n");
    is_ascii_spec_bytes("#endif\n");
    assert("#endif\n".spec_bytes() =~= seq![0x23u8, 0x65, 0x6e, 0x64, 0x69, 0x66, 0x0a]);
    reveal_strlit("#if 0");
    is_ascii_spec_bytes("#if 0");
    assert("#if 0".spec_bytes() =~= seq![0x23u8, 0x69, 0x66, 0x20, 0x30]);
    reveal_strlit("#if 0\n");
    is_ascii_spec_bytes("#if 0\n");
    assert("#if 0\n".spec_bytes() =~= seq![0x23u8, 0x69, 0x66, 0x20, 0x30, 0x0a]);
    reveal_strlit("// ");
    is_ascii_spec_bytes("// ");
    assert("// ".spec_bytes() =~= seq![0x2fu8, 0x2f, 0x20]);
    reveal_strlit("target_build = 0x");
    is_ascii_spec_bytes("target_build = 0x");
    reveal_strlit("pointer_offset = 0x");
    is_ascii_spec_bytes("pointer_offset = 0x");
    reveal_strlit("#warning \"");
    is_ascii_spec_bytes("#warning \"");
    reveal_strlit("\"\n");
    is_ascii_spec_bytes("\"\n");
    assert("\"\n".spec_bytes() =~= seq![0x22u8, 0x0a]);
}

proof fn lemma_first_byte(t: Seq<u8>)
    ensures
        t.len() > 0 && t[0] != 0x23 ==> !opens(t) && !closes(t),
        t.len() > 1 && t[1] != 0x69 ==> !opens(t),
        t.len() > 1 && t[1] != 0x65 ==> !closes(t),
{
    if opens(t) {
        assert(t.subrange(0, 5)[0] == 0x23);
        assert(t.subrange(0, 5)[1] == 0x69);
        assert(t[1] == 0x69);
    }
    if closes(t) {
        assert(t.subrange(0, 6)[0] == 0x23);
        assert(t.subrange(0, 6)[1] == 0x65);
        assert(t[1] == 0x65);
    }
}

/// What one line becomes.
#[verifier::spinoff_prover]
#[verifier::rlimit(60)]
proof fn lemma_step(
    st: NxpchModel,
    x: ItemModel,
    words: Seq<u8>,
    rest: Seq<u8>,
    at: usize,
    on: bool,
    d: int,
) -> (t: Seq<u8>)
    requires
        d == 0 || d == 1,
        d == 1 ==> !on,
        st.status == status_of(on, d),
        x.line.data is Comment ==> words.len() > 0 && words[0] == 0x2f,
    ensures
        ({
            let after = st.with_line(x.line, words, rest, at);
            let d1 = level(seq![t], d, 1);
            &&& after.out == st.out + t
            &&& after.status == status_of(enabled_from(seq![x], on, 1), d1)
            &&& well_placed(x, on, d, t, d1)
        }),
{
    lemma_literals();
    reveal_with_fuel(enabled_from, 2);
    reveal_with_fuel(level, 2);
    let said = match x.line.diag {
        None => st,
        Some(m) => NxpchModel { diags: st.diags.push(m), ..st },
    };
    let after = st.with_line(x.line, words, rest, at);
    let slashes = "// ".spec_bytes() + words + seq![0x0au8];
    lemma_first_byte(slashes);
    match x.line.data {
        PchtxtLineData::Ignored => {
            let t = lemma_ended(said, Seq::empty(), rest);
            assert(Seq::<u8>::empty() + t =~= t);
            assert(said.writing(Seq::empty()).out =~= said.out);
            lemma_first_byte(t);
            t
        },
        PchtxtLineData::BuildId(id) => {
            let head = "target_build = 0x".spec_bytes() + pchtxt_nxpch::short_hex(id as int);
            let t = lemma_ended(said, head, rest);
            lemma_first_byte(head + t);
            head + t
        },
        PchtxtLineData::Information => {
            let t = "#warning \"".spec_bytes() + pchtxt_nxpch::debug_escaped(
                words.subrange(1, words.len() as int),
            ) + "\"\n".spec_bytes();
            lemma_first_byte(t);
            t
        },
        PchtxtLineData::BigEndian
        | PchtxtLineData::LittleEndian
        | PchtxtLineData::Flag(PchtxtFlag::PrintValues)
        | PchtxtLineData::Stop => { slashes },
        PchtxtLineData::Comment => {
            let head = (if words.len() >= 2 && words[0] == 0x2f && words[1] == 0x2f {
                Seq::empty()
            } else {
                seq![0x2fu8]
            }) + words;
            assert(head[0] == 0x2f);
            let t = lemma_ended(said, head, rest);
            lemma_first_byte(head + t);
            head + t
        },
        PchtxtLineData::Enable => {
            if st.status == Status::Disabled {
                let head = "#endif".spec_bytes();
                let t = lemma_ended(NxpchModel { status: Status::Enabled, ..said }, head, rest);
                assert((head + t).subrange(0, 6) =~= head);
                lemma_first_byte(head + t);
                head + t
            } else {
                slashes
            }
        },
        PchtxtLineData::Flag(PchtxtFlag::OffsetShift(shift)) => {
            let head = "pointer_offset = 0x".spec_bytes() + pchtxt_nxpch::short_hex(
                shift as u32 as int,
            );
            let told = if said.status == Status::Disabled {
                NxpchModel {
                    diags: said.diags.push(
                        PchtxtDianostic::DisabledPointerOffset {
                            at: (at, words.len() as usize),
                        },
                    ),
                    ..said
                }
            } else {
                said
            };
            let t = lemma_ended(told, head, rest);
            lemma_first_byte(head + t);
            head + t
        },
        PchtxtLineData::Disable => {
            if st.status != Status::Disabled {
                let head = "#if 0".spec_bytes();
                let t = lemma_ended(NxpchModel { status: Status::Disabled, ..said }, head, rest);
                assert((head + t).subrange(0, 5) =~= head);
                lemma_first_byte(head + t);
                head + t
            } else {
                slashes
            }
        },
        PchtxtLineData::Patch { offset, patch, is_string } => {
            let written = pchtxt_nxpch::patch_text(offset, patch, is_string);
            lemma_patch_text(offset, patch, is_string);
            if st.status == Status::PreEnabled {
                let lead = "#if 0\n".spec_bytes();
                let open = NxpchModel { status: Status::Disabled, ..said };
                let t = lemma_ended(open, lead + written, rest);
                let all = lead + written + t;
                assert(open.writing(lead).writing(written).out =~= open.writing(
                    lead + written,
                ).out);
                assert(all.subrange(0, 5) =~= seq![0x23u8, 0x69, 0x66, 0x20, 0x30]);
                assert(all.subrange(6, 6 + written.len() as int) =~= written);
                lemma_first_byte(all);
                all
            } else {
                let t = lemma_ended(said, written, rest);
                let all = written + t;
                lemma_first_byte(all);
                assert(all.subrange(0, 0 + written.len() as int) =~= written);
                all
            }
        },
    }
}

/// Every line becomes a text that is well placed.
pub open spec fn all_placed(
    w: Seq<ItemModel>,
    on: bool,
    d: int,
    chunks: Seq<Seq<u8>>,
) -> bool {
    &&& chunks.len() == w.len()
    &&& forall|k: int|
        0 <= k < w.len() ==> well_placed(
            w[k],
            enabled_from(w, on, k),
            level(chunks, d, k),
            #[trigger] chunks[k],
            level(chunks, d, k + 1),
        )
}

/// A comment starts with a slash.
proof fn lemma_comment_line(b: Seq<u8>, s: int, e: int, first: bool, finished: bool)
    requires
        0 <= s,
        e <= b.len(),
    ensures
        pchtxt::line_at(b, s, e, first, finished).data is Comment ==> b.subrange(s, e).len() > 0
            && b.subrange(s, e)[0] == 0x2f,
{
}

/// A line before others, with what it becomes.
proof fn lemma_prepend(
    x: ItemModel,
    rest: Seq<ItemModel>,
    t: Seq<u8>,
    later: Seq<Seq<u8>>,
    on: bool,
    d: int,
)
    requires
        well_placed(x, on, d, t, level(seq![t], d, 1)),
        all_placed(rest, enabled_from(seq![x], on, 1), level(seq![t], d, 1), later),
    ensures
        ({
            let w = seq![x] + rest;
            let chunks = seq![t] + later;
            let n = rest.len() as int;
            &&& all_placed(w, on, d, chunks)
            &&& joined(chunks) == t + joined(later)
            &&& enabled_from(w, on, n + 1) == enabled_from(
                rest,
                enabled_from(seq![x], on, 1),
                n,
            )
            &&& level(chunks, d, n + 1) == level(later, level(seq![t], d, 1), n)
        }),
{
    let w = seq![x] + rest;
    let chunks = seq![t] + later;
    assert(enabled_from(w, on, 1) == enabled_from(seq![x], on, 1)) by {
        reveal_with_fuel(enabled_from, 2);
        assert(w[0] == seq![x][0]);
    }
    assert(level(chunks, d, 1) == level(seq![t], d, 1)) by {
        reveal_with_fuel(level, 2);
        assert(chunks[0] == seq![t][0]);
    }
    assert(enabled_from(w, on, 0) == on);
    assert(level(chunks, d, 0) == d);
    assert forall|k: int| 0 <= k < w.len() implies well_placed(
        w[k],
        enabled_from(w, on, k),
        level(chunks, d, k),
        #[trigger] chunks[k],
        level(chunks, d, k + 1),
    ) by {
        if k > 0 {
            lemma_shifted(x, rest, Map::empty(), on, 0, k - 1);
            lemma_level_shifted(t, later, d, k - 1);
            lemma_level_shifted(t, later, d, k);
            assert(chunks[k] == later[k - 1]);
            assert(w[k] == rest[k - 1]);
        }
    }
    lemma_shifted(x, rest, Map::empty(), on, 0, rest.len() as int);
    lemma_level_shifted(t, later, d, rest.len() as int);
    assert(chunks.subrange(1, chunks.len() as int) =~= later);
}

#[verifier::opaque]
spec fn lines_of(b: Seq<u8>, i: int, first: bool, finished: bool) -> Seq<ItemModel> {
    pchtxt::walk(b, i, first, finished)
}

#[verifier::opaque]
spec fn rewritten(
    b: Seq<u8>,
    i: int,
    first: bool,
    finished: bool,
    st: NxpchModel,
) -> NxpchModel {
    pchtxt_nxpch::nxpch_from(b, i, first, finished, st)
}

/// A line starts at `i`.
#[verifier::opaque]
spec fn more(b: Seq<u8>, i: int) -> bool {
    let (e, next) = pchtxt::line_ends(b, i);
    0 <= i < b.len() && i < next <= b.len()
}

/// A line and what it becomes, and what is left behind it.
struct Part {
    x: ItemModel,
    next: int,
    done: bool,
    mid: NxpchModel,
    t: Seq<u8>,
}

#[verifier::spinoff_prover]
#[verifier::rlimit(40)]
proof fn lemma_unfold(
    b: Seq<u8>,
    i: int,
    first: bool,
    finished: bool,
    st: NxpchModel,
    on: bool,
    d: int,
) -> (p: Part)
    requires
        more(b, i),
        d == 0 || d == 1,
        d == 1 ==> !on,
        st.status == status_of(on, d),
    ensures
        i < p.next <= b.len(),
        lines_of(b, i, first, finished) == seq![p.x] + lines_of(b, p.next, false, p.done),
        rewritten(b, i, first, finished, st) == rewritten(b, p.next, false, p.done, p.mid),
        p.mid.out == st.out + p.t,
        p.mid.status == status_of(enabled_from(seq![p.x], on, 1), level(seq![p.t], d, 1)),
        well_placed(p.x, on, d, p.t, level(seq![p.t], d, 1)),
{
    reveal(lines_of);
    reveal(rewritten);
    reveal(more);
    let (e, next) = pchtxt::line_ends(b, i);
    let line = pchtxt::line_at(b, i, e, first, finished);
    let x = ItemModel { line, start: i, end: e };
    let words = b.subrange(i, e);
    let rest_text = b.subrange(line.rest.0 as int, line.rest.1 as int);
    lemma_comment_line(b, i, e, first, finished);
    let t = lemma_step(st, x, words, rest_text, i as usize, on, d);
    Part {
        x,
        next,
        done: finished || line.data is Stop,
        mid: st.with_line(line, words, rest_text, i as usize),
        t,
    }
}

proof fn lemma_unfold_end(b: Seq<u8>, i: int, first: bool, finished: bool, st: NxpchModel)
    requires
        !more(b, i),
    ensures
        lines_of(b, i, first, finished).len() == 0,
        rewritten(b, i, first, finished, st) == st,
{
    reveal(lines_of);
    reveal(rewritten);
    reveal(more);
}

proof fn lemma_levels(on: bool, d: int, chunks: Seq<Seq<u8>>, x: ItemModel)
    requires
        well_placed(x, on, d, chunks[0], level(chunks, d, 1)),
        chunks.len() == 1,
        d == 0 || d == 1,
        d == 1 ==> !on,
    ensures
        level(chunks, d, 1) == 0 || level(chunks, d, 1) == 1,
        level(chunks, d, 1) == 1 ==> !enabled_from(seq![x], on, 1),
{
    reveal_with_fuel(enabled_from, 2);
}

proof fn lemma_blocks(
    b: Seq<u8>,
    i: int,
    first: bool,
    finished: bool,
    st: NxpchModel,
    on: bool,
    d: int,
) -> (chunks: Seq<Seq<u8>>)
    requires
        d == 0 || d == 1,
        d == 1 ==> !on,
        st.status == status_of(on, d),
    ensures
        ({
            let w = lines_of(b, i, first, finished);
            let after = rewritten(b, i, first, finished, st);
            &&& all_placed(w, on, d, chunks)
            &&& after.out == st.out + joined(chunks)
            &&& after.status == status_of(
                enabled_from(w, on, w.len() as int),
                level(chunks, d, w.len() as int),
            )
        }),
    decreases b.len() - i,
{
    if !more(b, i) {
        lemma_unfold_end(b, i, first, finished, st);
        assert(st.out + joined(Seq::empty()) =~= st.out);
        Seq::empty()
    } else {
        let p = lemma_unfold(b, i, first, finished, st, on, d);
        let on1 = enabled_from(seq![p.x], on, 1);
        let d1 = level(seq![p.t], d, 1);
        let rest = lines_of(b, p.next, false, p.done);
        lemma_levels(on, d, seq![p.t], p.x);
        assert(more(b, i) ==> i < b.len()) by {
            reveal(more);
        }
        let later = lemma_blocks(b, p.next, false, p.done, p.mid, on1, d1);
        lemma_prepend(p.x, rest, p.t, later, on, d);
        assert(st.out + p.t + joined(later) =~= st.out + (p.t + joined(later)));
        seq![p.t] + later
    }
}

/// The source that a file becomes is what its lines become, one behind the other, and a last
/// `#endif` where a block is still open. The texts that start with `#if 0` and `#endif` alternate,
/// starting with `#if 0`, and with the last `#endif` they are equal in number. A patch stands
/// between the two exactly when it does not count where it stands.
pub proof fn law_blocks(b: Seq<u8>) -> (chunks: Seq<Seq<u8>>)
    ensures
        ({
            let w = pchtxt::walk(b, 0, true, false);
            let open = level(chunks, 0, w.len() as int);
            &&& all_placed(w, false, 0, chunks)
            &&& open == 0 || open == 1
            &&& open == 0 ==> pchtxt_nxpch::pchtxt_nxpch(b).0 == joined(chunks)
            &&& open == 1 ==> pchtxt_nxpch::pchtxt_nxpch(b).0 == joined(chunks) + seq![
                0x23u8,
                0x65,
                0x6e,
                0x64,
                0x69,
                0x66,
                0x0a,
            ]
        }),
{
    let w = pchtxt::walk(b, 0, true, false);
    let chunks = lemma_blocks(b, 0, true, false, NxpchModel::start(), false, 0);
    reveal(lines_of);
    reveal(rewritten);
    lemma_literals();
    assert(NxpchModel::start().out + joined(chunks) =~= joined(chunks));
    if w.len() > 0 {
        assert(well_placed(
            w[w.len() - 1],
            enabled_from(w, false, w.len() - 1),
            level(chunks, 0, w.len() - 1),
            chunks[w.len() - 1],
            level(chunks, 0, w.len() as int),
        ));
    }
    chunks
}

} // verus!
