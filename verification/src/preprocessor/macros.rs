//! Macros: their definitions and their expansion.

use crate::preprocessor::table::MacroTable;
use crate::text;
use crate::utils::{AsSpan, Combine, SourceSpan};
use vstd::prelude::*;
use vstd::string::*;
use vstd::utf8::*;

verus! {

// ---------------------------------------------------------------------------------------------
// Model

/// What a macro definition says.
#[verifier::ext_equal]
pub struct MacroModel {
    pub name: Seq<u8>,
    pub args: Option<Seq<Seq<u8>>>,
    pub expansion: Seq<u8>,
    pub declaration_range: (usize, usize),
    pub expansion_offset: usize,
}

#[derive(Clone, Copy, Debug, PartialEq, Eq, Hash)]
pub enum MacroDiagnostic {
    InvalidMacro { at: (usize, usize) },
    InvalidArg { at: (usize, usize) },
    WrongNumberOfMacroArgs {
        expected: usize,
        found: usize,
        call_site: (usize, usize),
        declaration_site: (usize, usize),
    },
}

/// The offsets of `n` bytes, the first of them at `start`. They wrap around behind the highest
/// one.
pub open spec fn offsets_from(start: usize, n: int) -> Seq<usize> {
    Seq::new(n as nat, |k: int| start.wrapping_add(k as usize))
}

/// The texts of a list of strings.
pub open spec fn texts(v: Seq<String>) -> Seq<Seq<u8>> {
    Seq::new(v.len(), |i: int| text::bytes_of(v[i]))
}

/// A byte that may stand between the parentheses of a macro definition.
pub open spec fn is_arg_byte(x: u8) -> bool {
    text::is_name_byte(x) || x == 0x2c || text::is_blank(x)
}

/// The end of the run of bytes from `i` on that may stand between the parentheses.
pub open spec fn args_end(b: Seq<u8>, i: int) -> int
    decreases b.len() - i,
{
    if i < b.len() && is_arg_byte(b[i]) {
        args_end(b, i + 1)
    } else {
        i
    }
}

/// Where the name and the argument list end and where the expansion starts, in a text that is a
/// name, maybe an argument list in parentheses right behind it, and maybe blanks and an
/// expansion without zero bytes.
pub open spec fn define_shape(b: Seq<u8>) -> Option<(int, int, int)> {
    let len = b.len() as int;
    if len == 0 || !text::is_name_start(b[0]) {
        None
    } else {
        let n = text::skip_name(b, 0, len);
        let c = args_end(b, n + 1);
        let parenthesis = n < len && b[n] == 0x28;
        if parenthesis && !(c < len && b[c] == 0x29) {
            None
        } else {
            let d = if parenthesis {
                c + 1
            } else {
                n
            };
            let x = text::skip_blank(b, d, len);
            if d >= len {
                Some((n, d, d))
            } else if text::is_blank(b[d]) && forall|k: int| x <= k < len ==> #[trigger] b[k] != 0 {
                Some((n, d, x))
            } else {
                None
            }
        }
    }
}

/// The pieces of `i..end` between commas, without the white space at their ends.
pub open spec fn split_list(b: Seq<u8>, i: int, end: int) -> Seq<(usize, usize)>
    decreases end - i,
{
    let f = text::find_byte(b, 0x2c, i, end);
    if i <= f && f < end {
        let t = text::trimmed(b, i, f);
        seq![(t.0 as usize, t.1 as usize)] + split_list(b, f + 1, end)
    } else {
        let t = text::trimmed(b, i, end);
        seq![(t.0 as usize, t.1 as usize)]
    }
}

/// The bytes `i..j` are a name.
pub open spec fn is_name(b: Seq<u8>, i: int, j: int) -> bool {
    i < j && text::is_name_start(b[i]) && text::skip_name(b, i, j) == j
}

/// The arguments in a definition whose name ends at `n` and whose argument list ends at `d`.
pub open spec fn arg_ranges(b: Seq<u8>, n: int, d: int) -> Seq<(usize, usize)> {
    if d - n < 3 {
        Seq::empty()
    } else {
        split_list(b, n + 1, d - 1)
    }
}

/// The texts of the ranges.
pub open spec fn range_texts(b: Seq<u8>, rs: Seq<(usize, usize)>) -> Seq<Seq<u8>> {
    Seq::new(rs.len(), |i: int| b.subrange(rs[i].0 as int, rs[i].1 as int))
}

/// A diagnostic for each of the ranges from `k` on that is not a name.
pub open spec fn arg_diagnostics(
    b: Seq<u8>,
    rs: Seq<(usize, usize)>,
    offset: usize,
    k: int,
) -> Seq<MacroDiagnostic>
    decreases rs.len() - k,
{
    if k >= rs.len() {
        Seq::empty()
    } else {
        (if is_name(b, rs[k].0 as int, rs[k].1 as int) {
            Seq::empty()
        } else {
            seq![MacroDiagnostic::InvalidArg {
                at: ((offset + rs[k].0) as usize, (rs[k].1 - rs[k].0) as usize),
            }]
        }) + arg_diagnostics(b, rs, offset, k + 1)
    }
}

/// What a definition at `offset` defines, and the diagnostics that it draws.
pub open spec fn defined_by(b: Seq<u8>, offset: usize) -> (Option<MacroModel>, Seq<
    MacroDiagnostic,
>) {
    match define_shape(b) {
        None => (None, seq![MacroDiagnostic::InvalidMacro { at: (offset, b.len() as usize) }]),
        Some((n, d, x)) => {
            let rs = arg_ranges(b, n, d);
            (
                Some(
                    MacroModel {
                        name: b.subrange(0, n),
                        args: if d > n {
                            Some(range_texts(b, rs))
                        } else {
                            None
                        },
                        expansion: b.subrange(x, b.len() as int),
                        declaration_range: (offset, d as usize),
                        expansion_offset: (offset + x) as usize,
                    },
                ),
                if d > n {
                    arg_diagnostics(b, rs, offset, 0)
                } else {
                    Seq::empty()
                },
            )
        },
    }
}

/// The first offset from `i` on at which a name can start, or the end.
pub open spec fn next_name(b: Seq<u8>, i: int) -> int
    decreases b.len() - i,
{
    if i < b.len() && !text::is_name_start(b[i]) {
        next_name(b, i + 1)
    } else {
        i
    }
}

/// The last of the first `k` arguments with a name.
pub open spec fn arg_index(args: Seq<Seq<u8>>, name: Seq<u8>, k: int) -> Option<int>
    decreases k,
{
    if k <= 0 {
        None
    } else if args[k - 1] == name {
        Some(k - 1)
    } else {
        arg_index(args, name, k - 1)
    }
}

/// The expansion of a macro from `i` on, with each argument name replaced by the value given for
/// it, and the offset that each byte comes from.
pub open spec fn substituted(m: MacroModel, vals: Seq<(Seq<u8>, usize)>, i: int) -> (
    Seq<u8>,
    Seq<usize>,
)
    decreases m.expansion.len() - i,
{
    let e = m.expansion;
    let len = e.len() as int;
    let s = next_name(e, i);
    let end = text::skip_name(e, s, len);
    if s >= len || s < i || end <= s || end > len {
        (
            e.subrange(i, len),
            offsets_from(m.expansion_offset.wrapping_add(i as usize), len - i),
        )
    } else {
        let word = e.subrange(s, end);
        let rest = substituted(m, vals, end);
        let mid = match arg_index(m.args->0, word, m.args->0.len() as int) {
            Some(k) => (vals[k].0, offsets_from(vals[k].1, vals[k].0.len() as int)),
            None => (
                word,
                offsets_from(m.expansion_offset.wrapping_add(s as usize), end - s),
            ),
        };
        (
            e.subrange(i, s) + mid.0 + rest.0,
            offsets_from(m.expansion_offset.wrapping_add(i as usize), s - i) + mid.1 + rest.1,
        )
    }
}

/// The expansion of one use of a macro, and the offset that each byte comes from; `None` where
/// the number of values is not the number of arguments.
pub open spec fn expanded(m: MacroModel, vals: Option<Seq<(Seq<u8>, usize)>>) -> Option<
    (Seq<u8>, Seq<usize>),
> {
    match (vals, m.args) {
        (None, None) => Some(
            (m.expansion, offsets_from(m.expansion_offset, m.expansion.len() as int)),
        ),
        (Some(vals), Some(args)) => if vals.len() == args.len() {
            Some(substituted(m, vals, 0))
        } else {
            None
        },
        _ => None,
    }
}

/// The offset behind the parenthesis that closes `depth` open ones, from `i` on.
pub open spec fn close_parens(b: Seq<u8>, i: int, depth: int) -> Option<int>
    decreases b.len() - i,
{
    if depth <= 0 {
        Some(i)
    } else if i >= b.len() {
        None
    } else if b[i] == 0x28 {
        close_parens(b, i + 1, depth + 1)
    } else if b[i] == 0x29 {
        close_parens(b, i + 1, depth - 1)
    } else {
        close_parens(b, i + 1, depth)
    }
}

/// A use of a macro: where its name starts and ends, where the use ends, and the ranges of the
/// values that it passes, if any.
pub struct MacroUse {
    pub start: int,
    pub name_end: int,
    pub end: int,
    pub args: Option<Seq<(usize, usize)>>,
}

/// The values passed between the parentheses at `name_end` and `end - 1`.
pub open spec fn use_args(b: Seq<u8>, name_end: int, end: int) -> Seq<(usize, usize)> {
    if end - 1 == name_end + 1 {
        Seq::empty()
    } else {
        split_list(b, name_end + 1, end - 1)
    }
}

/// The first use of a macro from `i` on. A macro with arguments is used only with an opening
/// parenthesis right behind its name; where that one is never closed, the search ends.
pub open spec fn find_use(table: Map<Seq<u8>, MacroModel>, b: Seq<u8>, i: int) -> Option<MacroUse>
    decreases b.len() - i,
{
    let len = b.len() as int;
    let s = next_name(b, i);
    let e = text::skip_name(b, s, len);
    if s < i || s >= len || e <= s || e > len {
        None
    } else {
        let name = b.subrange(s, e);
        if !table.contains_key(name) {
            find_use(table, b, e)
        } else if table[name].args is None {
            Some(MacroUse { start: s, name_end: e, end: e, args: None })
        } else if e < len && b[e] == 0x28 {
            match close_parens(b, e + 1, 1) {
                None => None,
                Some(end) => Some(
                    MacroUse { start: s, name_end: e, end, args: Some(use_args(b, e, end)) },
                ),
            }
        } else {
            find_use(table, b, e)
        }
    }
}

/// The state of an expansion: the text so far, the offset that each byte comes from, and where
/// the search for the next use of a macro starts.
#[verifier::ext_equal]
pub struct Expansion {
    pub text: Seq<u8>,
    pub offsets: Seq<usize>,
    pub skip: int,
}

/// The values that a use passes.
pub open spec fn use_values(st: Expansion, args: Option<Seq<(usize, usize)>>) -> Option<
    Seq<(Seq<u8>, usize)>,
> {
    match args {
        None => None,
        Some(rs) => Some(
            Seq::new(
                rs.len(),
                |i: int|
                    (
                        st.text.subrange(rs[i].0 as int, rs[i].1 as int),
                        st.offsets[rs[i].0 as int],
                    ),
            ),
        ),
    }
}

/// The state after the next use of a macro is expanded, or passed over with a diagnostic when
/// the number of values is wrong; `None` when there is no use left.
pub open spec fn expand_step(table: Map<Seq<u8>, MacroModel>, st: Expansion) -> Option<
    (Expansion, Seq<MacroDiagnostic>),
> {
    match find_use(table, st.text, st.skip) {
        None => None,
        Some(u) => {
            let m = table[st.text.subrange(u.start, u.name_end)];
            match expanded(m, use_values(st, u.args)) {
                Some((new_text, new_offsets)) => Some(
                    (
                        Expansion {
                            text: st.text.subrange(0, u.start) + new_text + st.text.subrange(
                                u.end,
                                st.text.len() as int,
                            ),
                            offsets: st.offsets.subrange(0, u.start) + new_offsets
                                + st.offsets.subrange(u.end, st.offsets.len() as int),
                            skip: u.start,
                        },
                        Seq::empty(),
                    ),
                ),
                None => Some(
                    (
                        Expansion { text: st.text, offsets: st.offsets, skip: u.end },
                        seq![MacroDiagnostic::WrongNumberOfMacroArgs {
                            expected: m.args->0.len() as usize,
                            found: u.args->0.len() as usize,
                            call_site: (st.offsets[u.start], (u.end - u.start) as usize),
                            declaration_site: m.declaration_range,
                        }],
                    ),
                ),
            }
        },
    }
}

/// The text, the offsets and the diagnostics after the macros have been expanded in no more than
/// `n` steps; `None` where that takes more.
pub open spec fn expand_steps(
    table: Map<Seq<u8>, MacroModel>,
    st: Expansion,
    n: nat,
) -> Option<(Seq<u8>, Seq<usize>, Seq<MacroDiagnostic>)>
    decreases n,
{
    match expand_step(table, st) {
        None => Some((st.text, st.offsets, Seq::empty())),
        Some((next, diags)) => if n == 0 {
            None
        } else {
            match expand_steps(table, next, (n - 1) as nat) {
                None => None,
                Some((t, o, rest)) => Some((t, o, diags + rest)),
            }
        },
    }
}

/// The state in which the expansion of a text at `offset` starts.
pub open spec fn unexpanded(b: Seq<u8>, offset: usize) -> Expansion {
    Expansion { text: b, offsets: offsets_from(offset, b.len() as int), skip: 0 }
}

/// The expansion of the text comes to an end.
pub open spec fn expands(table: Map<Seq<u8>, MacroModel>, b: Seq<u8>, offset: usize) -> bool {
    exists|n: nat| #[trigger] expand_steps(table, unexpanded(b, offset), n) is Some
}

/// The text at `offset` with all macros expanded, the offset that each byte comes from, and the
/// diagnostics; `None` where the expansion never ends.
pub open spec fn expand_all(table: Map<Seq<u8>, MacroModel>, b: Seq<u8>, offset: usize) -> Option<
    (Seq<u8>, Seq<usize>, Seq<MacroDiagnostic>),
> {
    if expands(table, b, offset) {
        expand_steps(
            table,
            unexpanded(b, offset),
            choose|n: nat| #[trigger] expand_steps(table, unexpanded(b, offset), n) is Some,
        )
    } else {
        None
    }
}

// ---------------------------------------------------------------------------------------------
// Facts about the model

proof fn lemma_args_end(b: Seq<u8>, i: int)
    requires
        0 <= i <= b.len(),
    ensures
        i <= args_end(b, i) <= b.len(),
    decreases b.len() - i,
{
    if i < b.len() && is_arg_byte(b[i]) {
        lemma_args_end(b, i + 1);
    }
}

proof fn lemma_define_shape(b: Seq<u8>)
    requires
        valid_utf8(b),
        define_shape(b) is Some,
    ensures
        ({
            let (n, d, x) = define_shape(b)->0;
            &&& 0 < n <= d <= x <= b.len()
            &&& text::cut_point(b, 0)
            &&& text::cut_point(b, n)
            &&& text::cut_point(b, d)
            &&& text::cut_point(b, x)
            &&& text::cut_point(b, b.len() as int)
            &&& d > n ==> d >= n + 2 && b[n] == 0x28 && b[d - 1] == 0x29
        }),
{
    let len = b.len() as int;
    is_char_boundary_start_end_of_seq(b);
    text::lemma_skip_name(b, 0, len);
    let n = text::skip_name(b, 0, len);
    if n < len && b[n] == 0x28 {
        lemma_args_end(b, n + 1);
        text::lemma_ascii_boundary(b, args_end(b, n + 1));
    }
    let d = (define_shape(b)->0).1;
    text::lemma_skip_blank(b, d, len);
    assert(n > 0) by {
        reveal_with_fuel(text::skip_name, 2);
        text::lemma_skip_name(b, 1, len);
    }
}

proof fn lemma_split_list(b: Seq<u8>, i: int, end: int)
    requires
        0 <= i <= end <= b.len() <= usize::MAX,
    ensures
        split_list(b, i, end).len() > 0,
        forall|k: int|
            0 <= k < split_list(b, i, end).len() ==> {
                let r = #[trigger] split_list(b, i, end)[k];
                &&& i <= r.0 <= r.1 <= end
                &&& text::cut_point(b, i) && text::cut_point(b, end) ==> text::cut_point(
                    b,
                    r.0 as int,
                ) && text::cut_point(b, r.1 as int)
            },
    decreases end - i,
{
    text::lemma_find_byte(b, 0x2c, i, end);
    let f = text::find_byte(b, 0x2c, i, end);
    let all = split_list(b, i, end);
    if f < end {
        text::lemma_trimmed(b, i, f);
        lemma_split_list(b, f + 1, end);
        let rest = split_list(b, f + 1, end);
        assert forall|k: int| 0 <= k < all.len() implies {
            let r = #[trigger] all[k];
            &&& i <= r.0 <= r.1 <= end
            &&& text::cut_point(b, i) && text::cut_point(b, end) ==> text::cut_point(b, r.0 as int)
                && text::cut_point(b, r.1 as int)
        } by {
            if text::cut_point(b, i) {
                text::lemma_ascii_boundary(b, f);
            }
            if k > 0 {
                assert(all[k] == rest[k - 1]);
            }
        }
    } else {
        text::lemma_trimmed(b, i, end);
    }
}

pub proof fn lemma_next_name(b: Seq<u8>, i: int)
    requires
        0 <= i <= b.len(),
    ensures
        i <= next_name(b, i) <= b.len(),
        next_name(b, i) < b.len() ==> text::is_name_start(b[next_name(b, i)]),
        forall|k: int| i <= k < next_name(b, i) ==> !text::is_name_start(#[trigger] b[k]),
        valid_utf8(b) ==> text::cut_point(b, next_name(b, i)),
    decreases b.len() - i,
{
    if valid_utf8(b) {
        is_char_boundary_start_end_of_seq(b);
    }
    if i < b.len() {
        if !text::is_name_start(b[i]) {
            lemma_next_name(b, i + 1);
        } else if valid_utf8(b) {
            text::lemma_ascii_boundary(b, i);
        }
    }
}

/// A word: from where the next name starts to where it ends.
pub proof fn lemma_next_word(b: Seq<u8>, i: int)
    requires
        0 <= i <= b.len(),
        next_name(b, i) < b.len(),
    ensures
        next_name(b, i) < text::skip_name(b, next_name(b, i), b.len() as int) <= b.len(),
        valid_utf8(b) ==> text::cut_point(
            b,
            text::skip_name(b, next_name(b, i), b.len() as int),
        ),
{
    lemma_next_name(b, i);
    let s = next_name(b, i);
    text::lemma_skip_name(b, s, b.len() as int);
    assert(text::skip_name(b, s, b.len() as int) == text::skip_name(b, s + 1, b.len() as int));
    text::lemma_skip_name(b, s + 1, b.len() as int);
}

proof fn lemma_close_parens(b: Seq<u8>, i: int, depth: int)
    requires
        0 <= i <= b.len(),
        depth > 0,
    ensures
        close_parens(b, i, depth) matches Some(end) ==> i < end <= b.len() && b[end - 1] == 0x29,
    decreases b.len() - i,
{
    if i < b.len() {
        if b[i] == 0x28 {
            lemma_close_parens(b, i + 1, depth + 1);
        } else if b[i] == 0x29 {
            if depth > 1 {
                lemma_close_parens(b, i + 1, depth - 1);
            }
        } else {
            lemma_close_parens(b, i + 1, depth);
        }
    }
}

pub proof fn lemma_find_use(table: Map<Seq<u8>, MacroModel>, b: Seq<u8>, i: int)
    requires
        0 <= i <= b.len() <= usize::MAX,
    ensures
        find_use(table, b, i) matches Some(u) ==> {
            &&& i <= u.start < u.name_end <= u.end <= b.len()
            &&& table.contains_key(b.subrange(u.start, u.name_end))
            &&& u.args is Some <==> table[b.subrange(u.start, u.name_end)].args is Some
            &&& u.args matches Some(rs) ==> forall|k: int|
                0 <= k < rs.len() ==> (#[trigger] rs[k]).0 <= rs[k].1 < b.len()
            &&& valid_utf8(b) ==> text::cut_point(b, u.start) && text::cut_point(b, u.end)
            &&& valid_utf8(b) && u.args is Some ==> forall|k: int|
                0 <= k < (u.args->0).len() ==> text::cut_point(b, (#[trigger] (u.args->0)[k]).0
                    as int) && text::cut_point(b, (u.args->0)[k].1 as int)
        },
    decreases b.len() - i,
{
    let len = b.len() as int;
    lemma_next_name(b, i);
    let s = next_name(b, i);
    if s < len {
        lemma_next_word(b, i);
        let e = text::skip_name(b, s, len);
        let name = b.subrange(s, e);
        if !table.contains_key(name) {
            lemma_find_use(table, b, e);
        } else if table[name].args is Some {
            if e < len && b[e] == 0x28 {
                lemma_close_parens(b, e + 1, 1);
                if close_parens(b, e + 1, 1) is Some {
                    let end = close_parens(b, e + 1, 1)->0;
                    if valid_utf8(b) {
                        text::lemma_ascii_boundary(b, e);
                        text::lemma_ascii_boundary(b, end - 1);
                    }
                    lemma_split_list(b, e + 1, end - 1);
                }
            } else {
                lemma_find_use(table, b, e);
            }
        }
    }
}

proof fn lemma_substituted_len(m: MacroModel, vals: Seq<(Seq<u8>, usize)>, i: int)
    requires
        0 <= i <= m.expansion.len(),
    ensures
        substituted(m, vals, i).0.len() == substituted(m, vals, i).1.len(),
    decreases m.expansion.len() - i,
{
    let e = m.expansion;
    lemma_next_name(e, i);
    if next_name(e, i) < e.len() {
        lemma_next_word(e, i);
        lemma_substituted_len(m, vals, text::skip_name(e, next_name(e, i), e.len() as int));
    }
}

proof fn lemma_expand_step_len(table: Map<Seq<u8>, MacroModel>, st: Expansion)
    requires
        st.text.len() == st.offsets.len() <= usize::MAX,
        0 <= st.skip <= st.text.len(),
    ensures
        expand_step(table, st) matches Some((next, diags)) ==> {
            &&& next.text.len() == next.offsets.len()
            &&& 0 <= next.skip <= next.text.len()
        },
{
    lemma_find_use(table, st.text, st.skip);
    if find_use(table, st.text, st.skip) is Some {
        let u = find_use(table, st.text, st.skip)->0;
        let m = table[st.text.subrange(u.start, u.name_end)];
        let vals = use_values(st, u.args);
        if vals is Some && m.args is Some {
            lemma_substituted_len(m, vals->0, 0);
        }
    }
}

/// Every byte of an expanded text has the offset that it comes from.
pub proof fn law_expansion_offsets(
    table: Map<Seq<u8>, MacroModel>,
    m: MacroModel,
    vals: Option<Seq<(Seq<u8>, usize)>>,
)
    ensures
        expanded(m, vals) matches Some((t, o)) ==> t.len() == o.len(),
{
    if vals is Some {
        lemma_substituted_len(m, vals->0, 0);
    }
}

/// An expansion that ends within some number of steps has the same result with more.
pub proof fn law_expansion_steps_agree(
    table: Map<Seq<u8>, MacroModel>,
    st: Expansion,
    n: nat,
    k: nat,
)
    requires
        expand_steps(table, st, n) is Some,
        n <= k,
    ensures
        expand_steps(table, st, k) == expand_steps(table, st, n),
    decreases n,
{
    match expand_step(table, st) {
        None => {},
        Some((next, diags)) => {
            law_expansion_steps_agree(table, next, (n - 1) as nat, (k - 1) as nat);
        },
    }
}

/// The result of an expansion is the one that any sufficient number of steps gives.
pub proof fn lemma_expand_all(
    table: Map<Seq<u8>, MacroModel>,
    b: Seq<u8>,
    offset: usize,
    n: nat,
)
    requires
        expand_steps(table, unexpanded(b, offset), n) is Some,
    ensures
        expand_all(table, b, offset) == expand_steps(table, unexpanded(b, offset), n),
{
    let st = unexpanded(b, offset);
    let k = choose|n: nat| #[trigger] expand_steps(table, st, n) is Some;
    if n <= k {
        law_expansion_steps_agree(table, st, n, k);
    } else {
        law_expansion_steps_agree(table, st, k, n);
    }
}

/// A text in which no macro is used is left as it is.
pub proof fn law_expansion_without_macros(b: Seq<u8>, offset: usize)
    requires
        b.len() <= usize::MAX,
    ensures
        expand_all(Map::empty(), b, offset) == Some(
            (b, offsets_from(offset, b.len() as int), Seq::<MacroDiagnostic>::empty()),
        ),
{
    lemma_no_use(b, 0);
    let st = unexpanded(b, offset);
    assert(expand_steps(Map::empty(), st, 0) is Some);
    lemma_expand_all(Map::empty(), b, offset, 0);
}

proof fn lemma_no_use(b: Seq<u8>, i: int)
    requires
        0 <= i <= b.len() <= usize::MAX,
    ensures
        find_use(Map::empty(), b, i) is None,
    decreases b.len() - i,
{
    lemma_next_name(b, i);
    if next_name(b, i) < b.len() {
        lemma_next_word(b, i);
        lemma_no_use(b, text::skip_name(b, next_name(b, i), b.len() as int));
    }
}

// ---------------------------------------------------------------------------------------------
// Definitions

/// A macro: its name, the names of its arguments if it takes any, what it expands to, and where
/// these were declared.
#[derive(Debug, PartialEq, Eq)]
pub struct MacroDefine {
    pub name: String,
    pub args: Option<Vec<String>>,
    pub expansion: String,
    pub declaration_range: (usize, usize),
    pub expansion_offset: usize,
}

impl View for MacroDefine {
    type V = MacroModel;

    open spec fn view(&self) -> MacroModel {
        MacroModel {
            name: text::bytes_of(self.name),
            args: match self.args {
                None => None,
                Some(args) => Some(texts(args@)),
            },
            expansion: text::bytes_of(self.expansion),
            declaration_range: self.declaration_range,
            expansion_offset: self.expansion_offset,
        }
    }
}

pub(crate) fn copy_strings(v: &Vec<String>) -> (r: Vec<String>)
    ensures
        r@ == v@,
{
    let mut r: Vec<String> = Vec::new();
    let mut i: usize = 0;
    while i < v.len()
        invariant
            i <= v@.len(),
            r@ == v@.subrange(0, i as int),
        decreases v@.len() - i,
    {
        r.push(v[i].clone());
        i += 1;
        assert(r@ =~= v@.subrange(0, i as int));
    }
    assert(v@.subrange(0, v@.len() as int) =~= v@);
    r
}

impl Clone for MacroDefine {
    fn clone(&self) -> (r: Self)
        ensures
            r@ == self@,
    {
        MacroDefine {
            name: self.name.clone(),
            args: match &self.args {
                None => None,
                Some(args) => Some(copy_strings(args)),
            },
            expansion: self.expansion.clone(),
            declaration_range: self.declaration_range,
            expansion_offset: self.expansion_offset,
        }
    }
}

fn arg_list_end(b: &[u8], i: usize) -> (r: usize)
    requires
        i <= b@.len(),
    ensures
        r == args_end(b@, i as int),
        i <= r <= b@.len(),
{
    let mut k: usize = i;
    while k < b.len() && (text::name_byte(b[k]) || b[k] == 0x2c || b[k] == 0x20 || b[k] == 0x09)
        invariant
            i <= k <= b@.len(),
            args_end(b@, i as int) == args_end(b@, k as int),
        decreases b@.len() - k,
    {
        k += 1;
    }
    k
}

fn find_shape(b: &[u8]) -> (r: Option<(usize, usize, usize)>)
    ensures
        r is Some <==> define_shape(b@) is Some,
        r matches Some(s) ==> (s.0 as int, s.1 as int, s.2 as int) == define_shape(b@)->0,
{
    let len: usize = b.len();
    if len == 0 || !text::name_start(b[0]) {
        return None;
    }
    let n = text::name_end(b, 0, len);
    let mut d: usize = n;
    if n < len && b[n] == 0x28 {
        let c = arg_list_end(b, n + 1);
        if c >= len || b[c] != 0x29 {
            return None;
        }
        d = c + 1;
    }
    if d >= len {
        return Some((n, d, d));
    }
    if b[d] != 0x20 && b[d] != 0x09 {
        return None;
    }
    let x = text::blank_end(b, d, len);
    let zero = text::byte_position(b, 0, x, len);
    proof {
        text::lemma_find_byte(b@, 0, x as int, len as int);
    }
    if zero < len {
        assert(b@[zero as int] == 0);
        return None;
    }
    Some((n, d, x))
}

fn split_at_commas(b: &[u8], start: usize, end: usize) -> (r: Vec<(usize, usize)>)
    requires
        start <= end <= b@.len(),
    ensures
        r@ == split_list(b@, start as int, end as int),
{
    let mut r: Vec<(usize, usize)> = Vec::new();
    let mut i: usize = start;
    assert(r@ + split_list(b@, start as int, end as int) =~= split_list(
        b@,
        start as int,
        end as int,
    ));
    loop
        invariant
            start <= i <= end <= b@.len(),
            r@ + split_list(b@, i as int, end as int) == split_list(b@, start as int, end as int),
        decreases end - i,
    {
        let ghost before = r@;
        let f = text::byte_position(b, 0x2c, i, end);
        r.push(text::trim(b, i, f));
        if f >= end {
            assert(r@ =~= before + split_list(b@, i as int, end as int));
            return r;
        }
        assert(r@ + split_list(b@, f + 1, end as int) =~= before + split_list(
            b@,
            i as int,
            end as int,
        ));
        i = f + 1;
    }
}

/// The first name from `i` on: where it starts and where it ends.
pub(crate) fn find_name(b: &[u8], i: usize) -> (r: Option<(usize, usize)>)
    requires
        i <= b@.len(),
    ensures
        r is Some <==> next_name(b@, i as int) < b@.len(),
        r matches Some((s, e)) ==> {
            &&& s == next_name(b@, i as int)
            &&& e == text::skip_name(b@, s as int, b@.len() as int)
            &&& i <= s < e <= b@.len()
        },
{
    let mut k: usize = i;
    while k < b.len() && !text::name_start(b[k])
        invariant
            i <= k <= b@.len(),
            next_name(b@, i as int) == next_name(b@, k as int),
        decreases b@.len() - k,
    {
        k += 1;
    }
    if k < b.len() {
        proof {
            lemma_next_word(b@, i as int);
        }
        Some((k, text::name_end(b, k, b.len())))
    } else {
        None
    }
}

/// A name stands somewhere in the text.
pub open spec fn has_name(b: Seq<u8>) -> bool {
    exists|k: int| 0 <= k < b.len() && text::is_name_start(#[trigger] b[k])
}

/// Whether a name stands somewhere in the text.
pub fn contains_name(s: &str) -> (r: bool)
    ensures
        r == has_name(s.spec_bytes()),
{
    proof {
        lemma_next_name(s.spec_bytes(), 0);
    }
    match find_name(s.as_bytes(), 0) {
        Some((i, _)) => {
            assert(text::is_name_start(s.spec_bytes()[i as int]));
            true
        },
        None => false,
    }
}

impl MacroDefine {
    /// Parses the text behind `#define`, which stands at `offset` of the source.
    pub fn parse(s: &str, offset: usize, diags: &mut Vec<MacroDiagnostic>) -> (r: Option<Self>)
        requires
            offset + s.spec_bytes().len() <= usize::MAX,
        ensures
            r is Some <==> defined_by(s.spec_bytes(), offset).0 is Some,
            r matches Some(m) ==> m@ == defined_by(s.spec_bytes(), offset).0->0,
            final(diags)@ == old(diags)@ + defined_by(s.spec_bytes(), offset).1,
    {
        let b = s.as_bytes();
        proof {
            text::lemma_str_valid(s@);
        }
        let (n, d, x) = match find_shape(b) {
            None => {
                diags.push(MacroDiagnostic::InvalidMacro { at: (offset, b.len()) });
                assert(diags@ =~= old(diags)@ + defined_by(b@, offset).1);
                return None;
            },
            Some(shape) => shape,
        };
        proof {
            lemma_define_shape(b@);
        }
        let mut args: Option<Vec<String>> = None;
        if d > n {
            let ranges = if d - n < 3 {
                Vec::new()
            } else {
                split_at_commas(b, n + 1, d - 1)
            };
            proof {
                if d - n >= 3 {
                    text::lemma_ascii_boundary(b@, n as int);
                    text::lemma_ascii_boundary(b@, d - 1);
                    lemma_split_list(b@, n + 1, d - 1);
                }
                assert(ranges@ =~= arg_ranges(b@, n as int, d as int));
            }
            let mut names: Vec<String> = Vec::new();
            let mut k: usize = 0;
            while k < ranges.len()
                invariant
                    k <= ranges@.len(),
                    b@ == s.spec_bytes(),
                    offset + b@.len() <= usize::MAX,
                    ranges@ == arg_ranges(b@, n as int, d as int),
                    forall|j: int|
                        0 <= j < ranges@.len() ==> {
                            let r = #[trigger] ranges@[j];
                            r.0 <= r.1 <= b@.len() && text::cut_point(b@, r.0 as int)
                                && text::cut_point(b@, r.1 as int)
                        },
                    texts(names@) == range_texts(b@, ranges@).subrange(0, k as int),
                    names@.len() == k,
                    diags@ + arg_diagnostics(b@, ranges@, offset, k as int) == old(diags)@
                        + arg_diagnostics(b@, ranges@, offset, 0),
                decreases ranges@.len() - k,
            {
                let (i, j) = ranges[k];
                let ghost before = diags@;
                let ghost so_far = names@;
                let valid = i < j && text::name_start(b[i]) && text::name_end(b, i, j) == j;
                if !valid {
                    diags.push(MacroDiagnostic::InvalidArg { at: (offset + i, j - i) });
                }
                names.push(text::cut(s, i, j));
                k += 1;
                proof {
                    assert(diags@ + arg_diagnostics(b@, ranges@, offset, k as int) =~= before
                        + arg_diagnostics(b@, ranges@, offset, k - 1));
                    assert(texts(names@) =~= texts(so_far).push(b@.subrange(i as int, j as int)));
                    assert(texts(names@) =~= range_texts(b@, ranges@).subrange(0, k as int));
                }
            }
            proof {
                assert(diags@ + arg_diagnostics(b@, ranges@, offset, k as int) =~= diags@);
                assert(texts(names@) =~= range_texts(b@, ranges@));
            }
            args = Some(names);
        } else {
            assert(diags@ =~= old(diags)@ + Seq::<MacroDiagnostic>::empty());
        }
        Some(
            MacroDefine {
                name: text::cut(s, 0, n),
                args,
                expansion: text::cut(s, x, b.len()),
                declaration_range: (offset, d),
                expansion_offset: offset + x,
            },
        )
    }

    /// A macro that takes no arguments and was not declared in the source.
    pub fn create_const(name: &str, value: &str) -> (r: Self)
        ensures
            r@ == (MacroModel {
                name: name.spec_bytes(),
                args: None,
                expansion: value.spec_bytes(),
                declaration_range: (0, 0),
                expansion_offset: 0,
            }),
    {
        MacroDefine {
            name: text::own(name),
            args: None,
            expansion: text::own(value),
            declaration_range: (0, 0),
            expansion_offset: 0,
        }
    }

    /// The span of the declaration and the expansion.
    pub fn full_span(&self) -> (r: SourceSpan)
        ensures
            r == self@.declaration_range.combined(
                (self@.expansion_offset, self@.expansion.len() as usize),
            ),
    {
        self.declaration_range.combine(
            (self.expansion_offset, self.expansion.as_str().as_bytes().len()),
        )
    }

    /// The offsets of `len` bytes, the first of them at `start`.
    pub fn len_vec(start: usize, len: usize) -> (r: Vec<usize>)
        ensures
            r@ == offsets_from(start, len as int),
    {
        let mut r: Vec<usize> = Vec::new();
        push_offsets(&mut r, start, len);
        assert(r@ =~= offsets_from(start, len as int));
        r
    }
}

fn push_offsets(r: &mut Vec<usize>, start: usize, len: usize)
    ensures
        final(r)@ == old(r)@ + offsets_from(start, len as int),
{
    let mut k: usize = 0;
    assert(r@ =~= old(r)@ + offsets_from(start, 0));
    while k < len
        invariant
            k <= len,
            r@ == old(r)@ + offsets_from(start, k as int),
        decreases len - k,
    {
        r.push(start.wrapping_add(k));
        k += 1;
        assert(r@ =~= old(r)@ + offsets_from(start, k as int));
    }
}

// ---------------------------------------------------------------------------------------------
// Expansion

/// The texts and offsets of the values that a use passes.
pub open spec fn value_texts(v: Seq<(&str, usize)>) -> Seq<(Seq<u8>, usize)> {
    Seq::new(v.len(), |i: int| (v[i].0.spec_bytes(), v[i].1))
}

fn last_arg_named(args: &Vec<String>, name: &[u8]) -> (r: Option<usize>)
    ensures
        r is Some <==> arg_index(texts(args@), name@, args@.len() as int) is Some,
        r matches Some(k) ==> k < args@.len() && k == arg_index(
            texts(args@),
            name@,
            args@.len() as int,
        )->0,
{
    let mut k: usize = args.len();
    while k > 0
        invariant
            k <= args@.len(),
            arg_index(texts(args@), name@, args@.len() as int) == arg_index(
                texts(args@),
                name@,
                k as int,
            ),
        decreases k,
    {
        assert(texts(args@)[k - 1] == text::bytes_of(args@[k - 1]));
        if text::bytes_eq(args[k - 1].as_str().as_bytes(), name) {
            return Some(k - 1);
        }
        k -= 1;
    }
    None
}

impl MacroDefine {
    /// Replaces the names of the arguments in the expansion by the values given for them. Each
    /// byte of the result comes with the offset that it comes from. `None` when the number of
    /// values is not the number of arguments.
    pub fn expand_parsed(&self, arg_values: Option<&[(&str, usize)]>) -> (r: Option<
        (String, Vec<usize>),
    >)
        ensures
            ({
                let vals = match arg_values {
                    None => None,
                    Some(v) => Some(value_texts(v@)),
                };
                &&& r is Some <==> expanded(self@, vals) is Some
                &&& r matches Some((t, o)) ==> {
                    &&& text::bytes_of(t) == (expanded(self@, vals)->0).0
                    &&& o@ == (expanded(self@, vals)->0).1
                }
            }),
    {
        let expansion = self.expansion.as_str();
        let b = expansion.as_bytes();
        match (arg_values, &self.args) {
            (None, None) => Some(
                (self.expansion.clone(), Self::len_vec(self.expansion_offset, b.len())),
            ),
            (Some(values), Some(args)) => {
                if values.len() != args.len() {
                    return None;
                }
                let ghost m = self@;
                let ghost vals = value_texts(values@);
                let ghost whole = substituted(m, vals, 0);
                let mut result = String::new();
                let mut offsets: Vec<usize> = Vec::new();
                let mut i: usize = 0;
                proof {
                    text::lemma_str_valid(expansion@);
                    assert(text::bytes_of(result) =~= Seq::empty());
                    assert(text::bytes_of(result) + whole.0 =~= whole.0);
                    assert(offsets@ + whole.1 =~= whole.1);
                }
                loop
                    invariant
                        i <= b@.len(),
                        b@ == expansion.spec_bytes(),
                        b@ == m.expansion,
                        m == self@,
                        valid_utf8(b@),
                        text::cut_point(b@, i as int),
                        text::cut_point(b@, b@.len() as int),
                        m.args == Some(texts(args@)),
                        vals == value_texts(values@),
                        values@.len() == args@.len(),
                        arg_values is Some,
                        (arg_values->0)@ == values@,
                        whole == substituted(m, vals, 0),
                        text::bytes_of(result) + substituted(m, vals, i as int).0 == whole.0,
                        offsets@ + substituted(m, vals, i as int).1 == whole.1,
                    decreases b@.len() - i,
                {
                    let ghost before = text::bytes_of(result);
                    let ghost before_offsets = offsets@;
                    let ghost now = substituted(m, vals, i as int);
                    let base: usize = self.expansion_offset.wrapping_add(i);
                    proof {
                        lemma_next_name(b@, i as int);
                    }
                    match find_name(b, i) {
                        None => {
                            text::append(&mut result, text::slice(expansion, i, b.len()));
                            push_offsets(&mut offsets, base, b.len() - i);
                            proof {
                                assert(text::bytes_of(result) =~= whole.0);
                                assert(offsets@ =~= whole.1);
                            }
                            return Some((result, offsets));
                        },
                        Some((s, e)) => {
                            proof {
                                lemma_next_word(b@, i as int);
                            }
                            let word = text::slice(expansion, s, e);
                            text::append(&mut result, text::slice(expansion, i, s));
                            push_offsets(&mut offsets, base, s - i);
                            match last_arg_named(args, word.as_bytes()) {
                                Some(k) => {
                                    let (value, value_offset) = values[k];
                                    text::append(&mut result, value);
                                    push_offsets(
                                        &mut offsets,
                                        value_offset,
                                        value.as_bytes().len(),
                                    );
                                },
                                None => {
                                    text::append(&mut result, word);
                                    push_offsets(
                                        &mut offsets,
                                        self.expansion_offset.wrapping_add(s),
                                        e - s,
                                    );
                                },
                            }
                            proof {
                                let rest = substituted(m, vals, e as int);
                                assert(text::bytes_of(result) + rest.0 =~= before + now.0);
                                assert(offsets@ + rest.1 =~= before_offsets + now.1);
                            }
                            i = e;
                        },
                    }
                }
            },
            _ => None,
        }
    }
}

fn closing_end(b: &[u8], start: usize) -> (r: Option<usize>)
    requires
        1 <= start <= b@.len(),
    ensures
        r is Some <==> close_parens(b@, start as int, 1) is Some,
        r matches Some(end) ==> end == close_parens(b@, start as int, 1)->0 && start < end
            <= b@.len(),
{
    let len: usize = b.len();
    let mut end: usize = start;
    let mut depth: usize = 1;
    proof {
        lemma_close_parens(b@, start as int, 1);
    }
    while end < len && depth > 0
        invariant
            len == b@.len(),
            1 <= start <= end <= len,
            depth <= end - start + 1,
            close_parens(b@, start as int, 1) == close_parens(b@, end as int, depth as int),
        decreases b@.len() - end,
    {
        match b[end] {
            0x28 => {
                depth += 1;
            },
            0x29 => {
                depth -= 1;
            },
            _ => {},
        }
        end += 1;
    }
    if depth > 0 {
        None
    } else {
        Some(end)
    }
}

/// A use of a macro that was found in a text.
struct FoundUse<'a> {
    define: &'a MacroDefine,
    start: usize,
    name_end: usize,
    end: usize,
    args: Option<Vec<(usize, usize)>>,
}

fn find_first_macro_use<'a>(s: &str, skip_index: usize, table: &'a MacroTable) -> (r: Option<
    FoundUse<'a>,
>)
    requires
        table.wf(),
        skip_index <= s.spec_bytes().len(),
    ensures
        ({
            let u = find_use(table@, s.spec_bytes(), skip_index as int);
            &&& r is Some <==> u is Some
            &&& r matches Some(f) ==> {
                &&& f.start == u->0.start
                &&& f.name_end == u->0.name_end
                &&& f.end == u->0.end
                &&& f.define@ == table@[s.spec_bytes().subrange(
                    f.start as int,
                    f.name_end as int,
                )]
                &&& f.args is Some <==> (u->0).args is Some
                &&& f.args matches Some(rs) ==> rs@ == (u->0).args->0
            }
        }),
{
    let b = s.as_bytes();
    let len: usize = b.len();
    proof {
        text::lemma_str_valid(s@);
        lemma_find_use(table@, b@, skip_index as int);
    }
    let mut i: usize = skip_index;
    loop
        invariant
            i <= b@.len(),
            b@ == s.spec_bytes(),
            valid_utf8(b@),
            table.wf(),
            find_use(table@, b@, skip_index as int) == find_use(table@, b@, i as int),
        decreases b@.len() - i,
    {
        proof {
            lemma_next_name(b@, i as int);
        }
        let (start, name_end) = match find_name(b, i) {
            None => {
                return None;
            },
            Some(found) => found,
        };
        proof {
            lemma_next_word(b@, i as int);
        }
        match table.get(text::slice(s, start, name_end)) {
            None => {
                i = name_end;
            },
            Some(define) => {
                assert(define@ == table@[b@.subrange(start as int, name_end as int)]);
                if define.args.is_none() {
                    return Some(
                        FoundUse { define, start, name_end, end: name_end, args: None },
                    );
                }
                if name_end < b.len() && b[name_end] == 0x28 {
                    match closing_end(b, name_end + 1) {
                        None => {
                            return None;
                        },
                        Some(end) => {
                            let args = if end - 1 == name_end + 1 {
                                Vec::new()
                            } else {
                                split_at_commas(b, name_end + 1, end - 1)
                            };
                            assert(args@ =~= use_args(b@, name_end as int, end as int));
                            return Some(
                                FoundUse { define, start, name_end, end, args: Some(args) },
                            );
                        },
                    }
                }
                i = name_end;
            },
        }
    }
}

fn replaced_offsets(v: &Vec<usize>, start: usize, end: usize, new: &Vec<usize>) -> (r: Vec<usize>)
    requires
        start <= end <= v@.len(),
    ensures
        r@ == v@.subrange(0, start as int) + new@ + v@.subrange(end as int, v@.len() as int),
{
    let mut r: Vec<usize> = Vec::new();
    r.extend_from_slice(vstd::slice::slice_subrange(v.as_slice(), 0, start));
    r.extend_from_slice(new.as_slice());
    r.extend_from_slice(vstd::slice::slice_subrange(v.as_slice(), end, v.len()));
    assert(r@ =~= v@.subrange(0, start as int) + new@ + v@.subrange(end as int, v@.len() as int));
    r
}

fn replaced_text(s: &str, start: usize, end: usize, new: &str) -> (r: String)
    requires
        start <= end <= s.spec_bytes().len(),
        text::cut_point(s.spec_bytes(), start as int),
        text::cut_point(s.spec_bytes(), end as int),
    ensures
        text::bytes_of(r) == s.spec_bytes().subrange(0, start as int) + new.spec_bytes()
            + s.spec_bytes().subrange(end as int, s.spec_bytes().len() as int),
{
    proof {
        text::lemma_str_valid(s@);
    }
    let mut r = text::cut(s, 0, start);
    text::append(&mut r, new);
    text::append(&mut r, text::slice(s, end, s.as_bytes().len()));
    r
}

/// Expands the next use of a macro, or passes it over. `None` when there is none.
fn expand_once(
    s: &str,
    offsets: &Vec<usize>,
    skip: usize,
    table: &MacroTable,
    diags: &mut Vec<MacroDiagnostic>,
) -> (r: Option<(String, Vec<usize>, usize)>)
    requires
        table.wf(),
        offsets@.len() == s.spec_bytes().len(),
        skip <= s.spec_bytes().len(),
    ensures
        ({
            let st = Expansion { text: s.spec_bytes(), offsets: offsets@, skip: skip as int };
            let next = expand_step(table@, st);
            &&& r is Some <==> next is Some
            &&& r is None ==> final(diags)@ == old(diags)@
            &&& r matches Some((t, o, k)) ==> {
                &&& (next->0).0 == (Expansion { text: text::bytes_of(t), offsets: o@, skip: k as int })
                &&& final(diags)@ == old(diags)@ + (next->0).1
                &&& o@.len() == text::bytes_of(t).len()
                &&& k <= text::bytes_of(t).len()
            }
        }),
{
    let ghost st = Expansion { text: s.spec_bytes(), offsets: offsets@, skip: skip as int };
    let len: usize = offsets.len();
    proof {
        text::lemma_str_valid(s@);
        lemma_find_use(table@, s.spec_bytes(), skip as int);
        lemma_expand_step_len(table@, st);
    }
    let found = match find_first_macro_use(s, skip, table) {
        None => {
            return None;
        },
        Some(found) => found,
    };
    let ghost u = find_use(table@, s.spec_bytes(), skip as int)->0;
    let expansion = match &found.args {
        None => found.define.expand_parsed(None),
        Some(ranges) => {
            let mut values: Vec<(&str, usize)> = Vec::new();
            let mut k: usize = 0;
            while k < ranges.len()
                invariant
                    k <= ranges@.len(),
                    offsets@.len() == s.spec_bytes().len(),
                    forall|j: int|
                        0 <= j < ranges@.len() ==> (#[trigger] ranges@[j]).0 <= ranges@[j].1
                            < s.spec_bytes().len() && text::cut_point(
                            s.spec_bytes(),
                            ranges@[j].0 as int,
                        ) && text::cut_point(s.spec_bytes(), ranges@[j].1 as int),
                    values@.len() == k,
                    forall|j: int|
                        0 <= j < k ==> (#[trigger] values@[j]).0.spec_bytes()
                            == s.spec_bytes().subrange(ranges@[j].0 as int, ranges@[j].1 as int)
                            && values@[j].1 == offsets@[ranges@[j].0 as int],
                decreases ranges@.len() - k,
            {
                let (i, j) = ranges[k];
                values.push((text::slice(s, i, j), offsets[i]));
                k += 1;
            }
            assert(value_texts(values@) =~= use_values(st, Some(ranges@))->0);
            found.define.expand_parsed(Some(values.as_slice()))
        },
    };
    match expansion {
        Some((new_text, new_offsets)) => {
            let t = replaced_text(s, found.start, found.end, new_text.as_str());
            let o = replaced_offsets(offsets, found.start, found.end, &new_offsets);
            assert(diags@ =~= old(diags)@ + Seq::<MacroDiagnostic>::empty());
            Some((t, o, found.start))
        },
        None => {
            let expected: usize = match &found.define.args {
                Some(args) => args.len(),
                None => 0,
            };
            let given: usize = match &found.args {
                Some(args) => args.len(),
                None => 0,
            };
            let call_site = (offsets[found.start], found.end - found.start);
            diags.push(
                MacroDiagnostic::WrongNumberOfMacroArgs {
                    expected,
                    found: given,
                    call_site,
                    declaration_site: found.define.declaration_range,
                },
            );
            assert(diags@ =~= old(diags)@ + (expand_step(table@, st)->0).1);
            Some((text::own(s), replaced_offsets(offsets, 0, 0, &Vec::new()), found.end))
        },
    }
}

impl MacroDefine {
    /// Expands the macros in a text at `offset` of the source, also those that an expansion
    /// brings in. Each byte of the result comes with the offset that it comes from. The
    /// expansion has to come to an end.
    pub fn expand_all_in(
        s: &str,
        offset: usize,
        table: &MacroTable,
        diags: &mut Vec<MacroDiagnostic>,
    ) -> (r: (String, Vec<usize>))
        requires
            table.wf(),
            expand_all(table@, s.spec_bytes(), offset) is Some,
        ensures
            ({
                let e = expand_all(table@, s.spec_bytes(), offset)->0;
                &&& text::bytes_of(r.0) == e.0
                &&& r.1@ == e.1
                &&& r.1@.len() == text::bytes_of(r.0).len()
                &&& final(diags)@ == old(diags)@ + e.2
            }),
    {
        let ghost st = unexpanded(s.spec_bytes(), offset);
        let ghost n = choose|n: nat| #[trigger] expand_steps(table@, st, n) is Some;
        let ghost whole = expand_steps(table@, st, n)->0;
        let ghost mut left: nat = n;
        let mut result = text::own(s);
        let mut offsets = Self::len_vec(offset, s.as_bytes().len());
        let mut skip: usize = 0;
        loop
            invariant
                table.wf(),
                expand_all(table@, s.spec_bytes(), offset) == Some(whole),
                offsets@.len() == text::bytes_of(result).len(),
                skip <= text::bytes_of(result).len(),
                ({
                    let now = expand_steps(
                        table@,
                        Expansion {
                            text: text::bytes_of(result),
                            offsets: offsets@,
                            skip: skip as int,
                        },
                        left,
                    );
                    &&& now is Some
                    &&& (now->0).0 == whole.0
                    &&& (now->0).1 == whole.1
                    &&& diags@ + (now->0).2 == old(diags)@ + whole.2
                }),
            decreases left,
        {
            let ghost before = diags@;
            let ghost now = Expansion {
                text: text::bytes_of(result),
                offsets: offsets@,
                skip: skip as int,
            };
            match expand_once(result.as_str(), &offsets, skip, table, diags) {
                None => {
                    assert(diags@ + Seq::<MacroDiagnostic>::empty() =~= diags@);
                    return (result, offsets);
                },
                Some((t, o, k)) => {
                    proof {
                        let next = expand_step(table@, now)->0;
                        let rest = expand_steps(table@, next.0, (left - 1) as nat)->0;
                        assert(diags@ + rest.2 =~= before + (next.1 + rest.2));
                        left = (left - 1) as nat;
                    }
                    result = t;
                    offsets = o;
                    skip = k;
                },
            }
        }
    }

    /// Expands the macros in a text as `expand_all_in` does, in no more than `limit` steps;
    /// `None` when that does not do.
    pub fn expand_within(
        s: &str,
        offset: usize,
        table: &MacroTable,
        limit: usize,
        diags: &mut Vec<MacroDiagnostic>,
    ) -> (r: Option<(String, Vec<usize>)>)
        requires
            table.wf(),
        ensures
            r is Some <==> expand_steps(
                table@,
                unexpanded(s.spec_bytes(), offset),
                limit as nat,
            ) is Some,
            r matches Some((t, o)) ==> {
                let e = expand_all(table@, s.spec_bytes(), offset);
                &&& e is Some
                &&& text::bytes_of(t) == (e->0).0
                &&& o@ == (e->0).1
                &&& o@.len() == text::bytes_of(t).len()
                &&& final(diags)@ == old(diags)@ + (e->0).2
            },
            r is None ==> old(diags)@.is_prefix_of(final(diags)@),
    {
        let ghost st = unexpanded(s.spec_bytes(), offset);
        let ghost whole = expand_steps(table@, st, limit as nat);
        let mut left: usize = limit;
        let mut result = text::own(s);
        let mut offsets = Self::len_vec(offset, s.as_bytes().len());
        let mut skip: usize = 0;
        proof {
            if whole is Some {
                lemma_expand_all(table@, s.spec_bytes(), offset, limit as nat);
            }
        }
        loop
            invariant
                table.wf(),
                offsets@.len() == text::bytes_of(result).len(),
                skip <= text::bytes_of(result).len(),
                whole == expand_steps(table@, st, limit as nat),
                st == unexpanded(s.spec_bytes(), offset),
                whole is Some ==> expand_all(table@, s.spec_bytes(), offset) == whole,
                old(diags)@.is_prefix_of(diags@),
                ({
                    let now = expand_steps(
                        table@,
                        Expansion {
                            text: text::bytes_of(result),
                            offsets: offsets@,
                            skip: skip as int,
                        },
                        left as nat,
                    );
                    &&& now is Some <==> whole is Some
                    &&& now is Some ==> {
                        &&& (now->0).0 == (whole->0).0
                        &&& (now->0).1 == (whole->0).1
                        &&& diags@ + (now->0).2 == old(diags)@ + (whole->0).2
                    }
                }),
            decreases left,
        {
            let ghost before = diags@;
            let ghost now = Expansion {
                text: text::bytes_of(result),
                offsets: offsets@,
                skip: skip as int,
            };
            match expand_once(result.as_str(), &offsets, skip, table, diags) {
                None => {
                    assert(diags@ + Seq::<MacroDiagnostic>::empty() =~= diags@);
                    return Some((result, offsets));
                },
                Some((t, o, k)) => {
                    if left == 0 {
                        return None;
                    }
                    proof {
                        let next = expand_step(table@, now)->0;
                        let rest = expand_steps(table@, next.0, (left - 1) as nat);
                        if rest is Some {
                            assert(diags@ + (rest->0).2 =~= before + (next.1 + (rest->0).2));
                        }
                    }
                    left -= 1;
                    result = t;
                    offsets = o;
                    skip = k;
                },
            }
        }
    }
}

// ---------------------------------------------------------------------------------------------
// Definitions as text

/// The names of the arguments from `k` on, with a comma and a space before each but the first.
pub open spec fn listed_args(args: Seq<Seq<u8>>, k: int) -> Seq<u8>
    decreases args.len() - k,
{
    if k >= args.len() {
        Seq::empty()
    } else {
        (if k > 0 {
            ", ".spec_bytes()
        } else {
            Seq::empty()
        }) + args[k] + listed_args(args, k + 1)
    }
}

/// A macro as text: its name, its arguments if it takes any, and its expansion. The arguments stand
/// between two closing parentheses, so that the text of a macro that takes some, or an empty list
/// of them, does not define it.
pub open spec fn define_text(m: MacroModel) -> Seq<u8> {
    m.name + (match m.args {
        None => Seq::empty(),
        Some(args) => ")".spec_bytes() + listed_args(args, 0) + ")".spec_bytes(),
    }) + (if m.expansion.len() > 0 {
        " ".spec_bytes() + m.expansion
    } else {
        Seq::empty()
    })
}

/// The text of a macro that takes no arguments defines a macro with the same name and expansion.
/// This does not hold of a macro that takes arguments.
pub proof fn law_define_text_parses(m: MacroModel)
    requires
        m.args is None,
        is_name(m.name, 0, m.name.len() as int),
        m.expansion.len() > 0 ==> !text::is_blank(m.expansion[0]),
        forall|k: int| 0 <= k < m.expansion.len() ==> #[trigger] m.expansion[k] != 0,
        define_text(m).len() <= usize::MAX,
    ensures
        ({
            let (parsed, diags) = defined_by(define_text(m), 0);
            &&& diags.len() == 0
            &&& parsed matches Some(p) && p.name == m.name && p.args == m.args && p.expansion
                == m.expansion
        }),
{
    let b = define_text(m);
    let len = b.len() as int;
    let n = m.name.len() as int;
    assert(" ".spec_bytes() =~= seq![0x20u8]) by {
        reveal_strlit(" ");
        is_ascii_spec_bytes(" ");
    }
    assert(m.name + Seq::<u8>::empty() =~= m.name);
    if m.expansion.len() > 0 {
        assert(b =~= m.name + (seq![0x20u8] + m.expansion));
        assert(b[n] == 0x20);
        lemma_same_name(m.name, b, 0, n, len);
        assert(b[n + 1] == m.expansion[0]);
        reveal_with_fuel(text::skip_blank, 3);
        assert(text::skip_blank(b, n, len) == n + 1);
        assert forall|k: int| n + 1 <= k < len implies #[trigger] b[k] != 0 by {
            assert(b[k] == m.expansion[k - n - 1]);
        }
        assert(define_shape(b) == Some((n, n, n + 1)));
        assert(b.subrange(n + 1, len) =~= m.expansion);
    } else {
        assert(b =~= m.name);
        assert(define_shape(b) == Some((n, n, n)));
        assert(b.subrange(n, len) =~= m.expansion);
    }
    assert(b.subrange(0, n) =~= m.name);
}

/// A name is found to end in the same place in a longer text that goes on with no name byte.
proof fn lemma_same_name(a: Seq<u8>, b: Seq<u8>, i: int, n: int, end: int)
    requires
        0 <= i <= n == a.len(),
        n < end <= b.len(),
        forall|k: int| 0 <= k < n ==> a[k] == b[k],
        !text::is_name_byte(b[n]),
        text::skip_name(a, i, n) == n,
    ensures
        text::skip_name(b, i, end) == n,
    decreases n - i,
{
    if i < n {
        lemma_same_name(a, b, i + 1, n, end);
    }
}

impl MacroDefine {
    /// The macro as text.
    pub fn to_text(&self) -> (r: String)
        ensures
            text::bytes_of(r) == define_text(self@),
    {
        let mut r = self.name.clone();
        let ghost name = text::bytes_of(r);
        let ghost mut list = Seq::<u8>::empty();
        if let Some(args) = &self.args {
            text::append(&mut r, ")");
            let ghost start = text::bytes_of(r);
            let ghost all = texts(args@);
            let mut k: usize = 0;
            assert(start + listed_args(all, 0) =~= text::bytes_of(r) + listed_args(all, 0));
            while k < args.len()
                invariant
                    k <= args@.len(),
                    all == texts(args@),
                    text::bytes_of(r) + listed_args(all, k as int) == start + listed_args(all, 0),
                decreases args@.len() - k,
            {
                let ghost before = text::bytes_of(r);
                if k > 0 {
                    text::append(&mut r, ", ");
                }
                text::append(&mut r, args[k].as_str());
                k += 1;
                proof {
                    assert(all[k - 1] == text::bytes_of(args@[k - 1]));
                    assert(text::bytes_of(r) + listed_args(all, k as int) =~= before
                        + listed_args(all, k - 1));
                }
            }
            assert(text::bytes_of(r) + listed_args(all, k as int) =~= text::bytes_of(r));
            text::append(&mut r, ")");
            proof {
                list = ")".spec_bytes() + listed_args(all, 0) + ")".spec_bytes();
                assert(text::bytes_of(r) =~= name + list);
            }
        } else {
            assert(text::bytes_of(r) =~= name + list);
        }
        if self.expansion.as_str().as_bytes().len() > 0 {
            text::append(&mut r, " ");
            text::append(&mut r, self.expansion.as_str());
        }
        assert(text::bytes_of(r) =~= define_text(self@));
        r
    }

    /// Parses a definition that stands on its own; the first diagnostic that it draws is the
    /// error.
    pub fn from_str(s: &str) -> (r: Result<Self, MacroDiagnostic>)
        ensures
            ({
                let (parsed, diags) = defined_by(s.spec_bytes(), 0);
                &&& r is Ok <==> diags.len() == 0
                &&& r matches Ok(m) ==> parsed == Some(m@)
                &&& r matches Err(e) ==> e == diags[0]
            }),
    {
        let mut diags: Vec<MacroDiagnostic> = Vec::new();
        let len: usize = s.as_bytes().len();
        let parsed = Self::parse(s, 0, &mut diags);
        assert(diags@ =~= defined_by(s.spec_bytes(), 0).1);
        if diags.len() > 0 {
            return Err(diags[0]);
        }
        match parsed {
            Some(m) => Ok(m),
            None => Err(MacroDiagnostic::InvalidMacro { at: (0, len) }),
        }
    }
}

} // verus!
