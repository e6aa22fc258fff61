//! What macros are defined as, and what stands in the place of their uses.

use crate::preprocessor::macros;
use crate::preprocessor::macros::{MacroDiagnostic, MacroModel};
use crate::text;
use vstd::prelude::*;

verus! {

// ---------------------------------------------------------------------------------------------
// Words

/// No name starts in a text.
pub open spec fn has_no_name(p: Seq<u8>) -> bool {
    forall|k: int| 0 <= k < p.len() ==> !text::is_name_start(#[trigger] p[k])
}

/// A text is a name.
pub open spec fn is_word(w: Seq<u8>) -> bool {
    &&& w.len() > 0
    &&& text::is_name_start(w[0])
    &&& forall|k: int| 0 <= k < w.len() ==> text::is_name_byte(#[trigger] w[k])
}

/// A name before a text ends there.
pub open spec fn ends_name(r: Seq<u8>) -> bool {
    r.len() == 0 || !text::is_name_byte(r[0])
}

proof fn lemma_next_name_is(b: Seq<u8>, i: int, s: int)
    requires
        0 <= i <= s <= b.len(),
        forall|k: int| i <= k < s ==> !text::is_name_start(#[trigger] b[k]),
        s == b.len() || text::is_name_start(b[s]),
    ensures
        macros::next_name(b, i) == s,
    decreases s - i,
{
    if i < s {
        assert(!text::is_name_start(b[i]));
        lemma_next_name_is(b, i + 1, s);
    }
}

proof fn lemma_skip_name_is(b: Seq<u8>, i: int, j: int, end: int)
    requires
        0 <= i <= j <= end <= b.len(),
        forall|k: int| i <= k < j ==> text::is_name_byte(#[trigger] b[k]),
        j == end || !text::is_name_byte(b[j]),
    ensures
        text::skip_name(b, i, end) == j,
    decreases j - i,
{
    if i < j {
        assert(text::is_name_byte(b[i]));
        lemma_skip_name_is(b, i + 1, j, end);
    }
}

/// The first word of a text.
proof fn lemma_first_word(p: Seq<u8>, w: Seq<u8>, r: Seq<u8>)
    requires
        has_no_name(p),
        is_word(w),
        ends_name(r),
    ensures
        ({
            let b = p + w + r;
            let s = p.len() as int;
            let e = s + w.len();
            &&& macros::next_name(b, 0) == s
            &&& text::skip_name(b, s, b.len() as int) == e
            &&& b.subrange(0, s) == p
            &&& b.subrange(s, e) == w
            &&& b.subrange(e, b.len() as int) == r
        }),
{
    let b = p + w + r;
    let s = p.len() as int;
    let e = s + w.len();
    assert forall|k: int| 0 <= k < s implies !text::is_name_start(#[trigger] b[k]) by {
        assert(b[k] == p[k]);
    }
    assert(b[s] == w[0]);
    lemma_next_name_is(b, 0, s);
    assert forall|k: int| s <= k < e implies text::is_name_byte(#[trigger] b[k]) by {
        assert(b[k] == w[k - s]);
    }
    if e < b.len() {
        assert(b[e] == r[0]);
    }
    lemma_skip_name_is(b, s, e, b.len() as int);
    assert(b.subrange(0, s) =~= p);
    assert(b.subrange(s, e) =~= w);
    assert(b.subrange(e, b.len() as int) =~= r);
}

// ---------------------------------------------------------------------------------------------
// Arguments

/// What stands for a word of an expansion: the value of the last argument of that name, from the
/// place of the value, or the word, from its own place.
pub open spec fn stands_for(
    args: Seq<Seq<u8>>,
    vals: Seq<(Seq<u8>, usize)>,
    w: Seq<u8>,
    at: usize,
    x: (Seq<u8>, usize),
) -> bool {
    ||| exists|k: int|
        0 <= k < args.len() && #[trigger] args[k] == w && x == vals[k] && forall|j: int|
            k < j < args.len() ==> #[trigger] args[j] != w
    ||| (forall|k: int| 0 <= k < args.len() ==> #[trigger] args[k] != w) && x == (w, at)
}

proof fn lemma_arg_index(args: Seq<Seq<u8>>, name: Seq<u8>, n: int)
    requires
        0 <= n <= args.len(),
    ensures
        match macros::arg_index(args, name, n) {
            Some(k) => 0 <= k < n && args[k] == name && forall|j: int|
                k < j < n ==> #[trigger] args[j] != name,
            None => forall|j: int| 0 <= j < n ==> #[trigger] args[j] != name,
        },
    decreases n,
{
    if n > 0 && args[n - 1] != name {
        lemma_arg_index(args, name, n - 1);
    }
}

proof fn lemma_next_name_cut(b: Seq<u8>, c: int, i: int)
    requires
        0 <= c,
        0 <= i,
        c + i <= b.len(),
    ensures
        macros::next_name(b, c + i) == c + macros::next_name(
            b.subrange(c, b.len() as int),
            i,
        ),
    decreases b.len() - i,
{
    let t = b.subrange(c, b.len() as int);
    if c + i < b.len() {
        assert(t[i] == b[c + i]);
        if !text::is_name_start(b[c + i]) {
            lemma_next_name_cut(b, c, i + 1);
        }
    }
}

proof fn lemma_skip_name_cut(b: Seq<u8>, c: int, i: int)
    requires
        0 <= c,
        0 <= i,
        c + i <= b.len(),
    ensures
        text::skip_name(b, c + i, b.len() as int) == c + text::skip_name(
            b.subrange(c, b.len() as int),
            i,
            b.len() - c,
        ),
    decreases b.len() - i,
{
    let t = b.subrange(c, b.len() as int);
    if c + i < b.len() {
        assert(t[i] == b[c + i]);
        if text::is_name_byte(b[c + i]) {
            lemma_skip_name_cut(b, c, i + 1);
        }
    }
}

proof fn lemma_wrap(a: usize, c: int, i: int)
    requires
        0 <= c,
        0 <= i,
        c + i <= usize::MAX,
    ensures
        a.wrapping_add((c + i) as usize) == a.wrapping_add(c as usize).wrapping_add(i as usize),
{
}

proof fn lemma_offsets_cut(a: usize, c: int, i: int, n: int)
    requires
        0 <= c,
        0 <= i,
        c + i <= usize::MAX,
    ensures
        macros::offsets_from(a.wrapping_add((c + i) as usize), n) == macros::offsets_from(
            a.wrapping_add(c as usize).wrapping_add(i as usize),
            n,
        ),
{
    lemma_wrap(a, c, i);
}

/// The macro with its expansion from `c` on.
spec fn cut(m: MacroModel, c: int) -> MacroModel {
    MacroModel {
        expansion: m.expansion.subrange(c, m.expansion.len() as int),
        expansion_offset: m.expansion_offset.wrapping_add(c as usize),
        ..m
    }
}

/// Arguments are replaced behind an offset as they are in the text from there on.
#[verifier::spinoff_prover]
proof fn lemma_substituted_cut(m: MacroModel, vals: Seq<(Seq<u8>, usize)>, c: int, i: int)
    requires
        0 <= c,
        0 <= i,
        c + i <= m.expansion.len() <= usize::MAX,
    ensures
        macros::substituted(m, vals, c + i) == macros::substituted(cut(m, c), vals, i),
    decreases m.expansion.len() - i,
{
    let e = m.expansion;
    let len = e.len() as int;
    let t = e.subrange(c, len);
    let at = m.expansion_offset;
    lemma_next_name_cut(e, c, i);
    macros::lemma_next_name(e, c + i);
    let s = macros::next_name(e, c + i);
    let st = macros::next_name(t, i);
    assert(s == c + st);
    if s < e.len() {
        macros::lemma_next_word(e, c + i);
        lemma_skip_name_cut(e, c, st);
        let end = text::skip_name(e, s, len);
        let end_t = text::skip_name(t, st, t.len() as int);
        assert(end == c + end_t);
        lemma_substituted_cut(m, vals, c, end_t);
        assert(e.subrange(s, end) =~= t.subrange(st, end_t));
        assert(e.subrange(c + i, s) =~= t.subrange(i, st));
        lemma_offsets_cut(at, c, i, s - (c + i));
        lemma_offsets_cut(at, c, st, end - s);
    } else {
        assert(e.subrange(c + i, len) =~= t.subrange(i, t.len() as int));
        lemma_offsets_cut(at, c, i, len - (c + i));
    }
}

/// An expansion is written word by word: what stands before its first word stays, the word is
/// replaced by the value of the argument of its name, if there is one, and what follows the word
/// is what the rest of the expansion is written as. An expansion without a name stays as it is.
/// Each byte keeps the place that it comes from: that of the value for what a value holds, and
/// that in the expansion for all else.
pub proof fn law_substitution(
    m: MacroModel,
    vals: Seq<(Seq<u8>, usize)>,
    p: Seq<u8>,
    w: Seq<u8>,
    r: Seq<u8>,
) -> (x: (Seq<u8>, usize))
    requires
        m.args is Some,
        has_no_name(p),
        is_word(w),
        ends_name(r),
        (p + w + r).len() <= usize::MAX,
    ensures
        stands_for(m.args->0, vals, w, m.expansion_offset.wrapping_add(p.len() as usize), x),
        ({
            let e = p.len() + w.len();
            let whole = macros::substituted(MacroModel { expansion: p + w + r, ..m }, vals, 0);
            let rest = macros::substituted(
                MacroModel {
                    expansion: r,
                    expansion_offset: m.expansion_offset.wrapping_add(e as usize),
                    ..m
                },
                vals,
                0,
            );
            &&& whole.0 == p + x.0 + rest.0
            &&& whole.1 == macros::offsets_from(m.expansion_offset, p.len() as int)
                + macros::offsets_from(x.1, x.0.len() as int) + rest.1
        }),
        macros::substituted(MacroModel { expansion: p, ..m }, vals, 0).0 == p,
{
    let b = p + w + r;
    let whole = MacroModel { expansion: b, ..m };
    let s = p.len() as int;
    let e = s + w.len();
    lemma_first_word(p, w, r);
    lemma_arg_index(m.args->0, w, m.args->0.len() as int);
    lemma_substituted_cut(whole, vals, e, 0);
    lemma_next_name_is(p, 0, p.len() as int);
    assert(p.subrange(0, p.len() as int) =~= p);
    let x = match macros::arg_index(m.args->0, w, m.args->0.len() as int) {
        Some(k) => vals[k],
        None => (w, m.expansion_offset.wrapping_add(s as usize)),
    };
    assert(m.expansion_offset.wrapping_add(0) == m.expansion_offset);
    assert(macros::substituted(whole, vals, 0).0 == b.subrange(0, s) + x.0 + macros::substituted(
        whole,
        vals,
        e,
    ).0);
    x
}

// ---------------------------------------------------------------------------------------------
// Uses

/// The name of a macro without arguments is replaced by its expansion, wherever it stands, and the
/// search goes on at the expansion. A name that is no macro is passed over.
pub proof fn law_object_use(
    table: Map<Seq<u8>, MacroModel>,
    p: Seq<u8>,
    w: Seq<u8>,
    r: Seq<u8>,
    offset: usize,
)
    requires
        has_no_name(p),
        is_word(w),
        ends_name(r),
        (p + w + r).len() <= usize::MAX,
    ensures
        ({
            let b = p + w + r;
            let step = macros::expand_step(table, macros::unexpanded(b, offset));
            &&& table.contains_key(w) && table[w].args is None ==> (step matches Some((next, said))
                && next.text == p + table[w].expansion + r && next.skip == p.len() && said.len()
                == 0 && next.offsets == macros::offsets_from(offset, p.len() as int)
                + macros::offsets_from(
                table[w].expansion_offset,
                table[w].expansion.len() as int,
            ) + macros::offsets_from(
                offset.wrapping_add((p.len() + w.len()) as usize),
                r.len() as int,
            ))
            &&& !table.contains_key(w) ==> macros::find_use(table, b, 0) == macros::find_use(
                table,
                b,
                p.len() + w.len() as int,
            )
        }),
{
    lemma_first_word(p, w, r);
    let b = p + w + r;
    let all = macros::offsets_from(offset, b.len() as int);
    let e = (p.len() + w.len()) as int;
    assert(all.subrange(0, p.len() as int) =~= macros::offsets_from(offset, p.len() as int));
    assert forall|k: int| 0 <= k < r.len() implies #[trigger] all.subrange(e, b.len() as int)[k]
        == macros::offsets_from(offset.wrapping_add(e as usize), r.len() as int)[k] by {
        lemma_wrap(offset, e, k);
    }
    assert(all.subrange(e, b.len() as int) =~= macros::offsets_from(
        offset.wrapping_add(e as usize),
        r.len() as int,
    ));
}

/// The name of a macro with arguments is a use only with an opening parenthesis right behind it;
/// elsewhere it is passed over. Where that parenthesis is never closed, there is no use from there
/// on.
pub proof fn law_bare_function_name(
    table: Map<Seq<u8>, MacroModel>,
    p: Seq<u8>,
    w: Seq<u8>,
    r: Seq<u8>,
)
    requires
        has_no_name(p),
        is_word(w),
        ends_name(r),
        table.contains_key(w),
        table[w].args is Some,
    ensures
        ({
            let b = p + w + r;
            let e = (p.len() + w.len()) as int;
            &&& r.len() == 0 || r[0] != 0x28 ==> macros::find_use(table, b, 0) == macros::find_use(
                table,
                b,
                e,
            )
            &&& r.len() > 0 && r[0] == 0x28 && (forall|j: int|
                e + 1 <= j <= b.len() ==> #[trigger] parens(b, e + 1, j) > -1) ==> macros::find_use(
                table,
                b,
                0,
            ) is None
        }),
{
    lemma_first_word(p, w, r);
    let b = p + w + r;
    let e = (p.len() + w.len()) as int;
    if r.len() > 0 {
        assert(b[e] == r[0]);
        law_closing_parenthesis(b, e + 1, 1);
    }
}

/// A text without parentheses and commas.
pub open spec fn is_simple(a: Seq<u8>) -> bool {
    forall|k: int|
        0 <= k < a.len() ==> #[trigger] a[k] != 0x28 && a[k] != 0x29 && a[k] != 0x2c
}

proof fn lemma_close(b: Seq<u8>, i: int, j: int)
    requires
        0 <= i <= j < b.len(),
        forall|k: int| i <= k < j ==> #[trigger] b[k] != 0x28 && b[k] != 0x29,
        b[j] == 0x29,
    ensures
        macros::close_parens(b, i, 1) == Some(j + 1),
    decreases j - i,
{
    if i < j {
        assert(b[i] != 0x28 && b[i] != 0x29);
        lemma_close(b, i + 1, j);
    } else {
        assert(macros::close_parens(b, j + 1, 0) == Some(j + 1));
    }
}

proof fn lemma_no_comma(b: Seq<u8>, i: int, end: int)
    requires
        0 <= i <= end <= b.len(),
        forall|k: int| i <= k < end ==> #[trigger] b[k] != 0x2c,
    ensures
        text::find_byte(b, 0x2c, i, end) == end,
    decreases end - i,
{
    if i < end {
        lemma_no_comma(b, i + 1, end);
    }
}

/// The use of a macro with one value, without parentheses and commas in it, is replaced by the
/// expansion written with that value, without the white space around it, where the macro takes
/// one argument. Where it takes another number of them, the use stays, and the two numbers are
/// told.
#[verifier::spinoff_prover]
#[verifier::rlimit(40)]
pub proof fn law_function_use(
    table: Map<Seq<u8>, MacroModel>,
    p: Seq<u8>,
    w: Seq<u8>,
    a: Seq<u8>,
    r: Seq<u8>,
    offset: usize,
) -> (val: (Seq<u8>, usize))
    requires
        has_no_name(p),
        is_word(w),
        is_simple(a),
        a.len() > 0,
        table.contains_key(w),
        table[w].args is Some,
        (p + w + seq![0x28u8] + a + seq![0x29u8] + r).len() <= usize::MAX,
    ensures
        ({
            let b = p + w + seq![0x28u8] + a + seq![0x29u8] + r;
            let start = p.len() + w.len() + 1int;
            let (lo, hi) = text::trimmed(b, start, start + a.len());
            val.0 == b.subrange(lo, hi)
        }),
        ({
            let b = p + w + seq![0x28u8] + a + seq![0x29u8] + r;
            let m = table[w];
            let step = macros::expand_step(table, macros::unexpanded(b, offset));
            &&& (m.args->0).len() == 1 ==> (step matches Some((next, said)) && said.len() == 0
                && next.text == p + macros::substituted(m, seq![val], 0).0 + r && next.skip
                == p.len())
            &&& (m.args->0).len() != 1 ==> (step matches Some((next, said)) && next.text == b
                && next.skip == b.len() - r.len() && said.len() == 1 && (said[0] matches
                MacroDiagnostic::WrongNumberOfMacroArgs {
                expected,
                found,
                call_site,
                declaration_site,
            } && expected == (m.args->0).len() as usize && found == 1 && declaration_site
                == m.declaration_range && call_site.1 == w.len() + a.len() + 2))
        }),
{
    let tail = seq![0x28u8] + a + seq![0x29u8] + r;
    let b = p + w + seq![0x28u8] + a + seq![0x29u8] + r;
    assert(b =~= p + w + tail);
    assert(tail[0] == 0x28);
    lemma_first_word(p, w, tail);
    let s = p.len() as int;
    let e = s + w.len();
    let j = e + 1 + a.len();
    assert(b[e] == 0x28);
    assert(b[j] == 0x29);
    assert forall|k: int| e + 1 <= k < j implies #[trigger] b[k] != 0x28 && b[k] != 0x29 && b[k]
        != 0x2c by {
        assert(b[k] == a[k - e - 1]);
    }
    lemma_close(b, e + 1, j);
    lemma_no_comma(b, e + 1, j);
    text::lemma_trimmed(b, e + 1, j);
    let (lo, hi) = text::trimmed(b, e + 1, j);
    let rs = macros::use_args(b, e, j + 1);
    assert(rs =~= seq![(lo as usize, hi as usize)]);
    let st = macros::unexpanded(b, offset);
    let val = (b.subrange(lo, hi), st.offsets[lo]);
    let vals = macros::use_values(st, Some(rs));
    assert(vals->0 =~= seq![val]);
    assert(b.subrange(j + 1, b.len() as int) =~= r);
    val
}

/// How many parentheses of `i..j` are open at its end.
pub open spec fn parens(b: Seq<u8>, i: int, j: int) -> int
    decreases j - i,
{
    if i >= j {
        0
    } else {
        parens(b, i, j - 1) + (if b[j - 1] == 0x28 {
            1int
        } else {
            0
        }) - (if b[j - 1] == 0x29 {
            1int
        } else {
            0
        })
    }
}

proof fn lemma_parens_front(b: Seq<u8>, i: int, j: int)
    requires
        i < j,
    ensures
        parens(b, i, j) == parens(b, i + 1, j) + (if b[i] == 0x28 {
            1int
        } else {
            0
        }) - (if b[i] == 0x29 {
            1int
        } else {
            0
        }),
    decreases j - i,
{
    if i + 1 < j {
        lemma_parens_front(b, i, j - 1);
    } else {
        reveal_with_fuel(parens, 3);
    }
}

/// The values of a use end with the parenthesis that closes the one before them: the first behind
/// which more parentheses were closed than opened.
pub proof fn law_closing_parenthesis(b: Seq<u8>, i: int, depth: int)
    requires
        0 <= i <= b.len(),
        depth > 0,
    ensures
        match macros::close_parens(b, i, depth) {
            Some(e) => i < e <= b.len() && parens(b, i, e) == -depth && forall|j: int|
                i <= j < e ==> #[trigger] parens(b, i, j) > -depth,
            None => forall|j: int| i <= j <= b.len() ==> #[trigger] parens(b, i, j) > -depth,
        },
    decreases b.len() - i,
{
    if i < b.len() {
        let d = if b[i] == 0x28 {
            depth + 1
        } else if b[i] == 0x29 {
            depth - 1
        } else {
            depth
        };
        assert(macros::close_parens(b, i, depth) == macros::close_parens(b, i + 1, d));
        if d > 0 {
            law_closing_parenthesis(b, i + 1, d);
            assert forall|j: int| i < j <= b.len() implies #[trigger] parens(b, i, j) == parens(
                b,
                i + 1,
                j,
            ) + d - depth by {
                lemma_parens_front(b, i, j);
            }
        } else {
            reveal_with_fuel(parens, 2);
        }
    }
}

// ---------------------------------------------------------------------------------------------
// Lists

/// A list has a piece for each stretch between its commas, in order: what stands there without
/// the white space around it.
pub proof fn law_list_pieces(b: Seq<u8>, i: int, end: int) -> (cuts: Seq<int>)
    requires
        0 <= i <= end <= b.len(),
    ensures
        ({
            let pieces = macros::split_list(b, i, end);
            &&& cuts.len() == pieces.len() + 1
            &&& cuts[0] == i - 1
            &&& cuts.last() == end
            &&& forall|k: int|
                0 < k < cuts.len() - 1 ==> i <= #[trigger] cuts[k] < end && b[cuts[k]] == 0x2c
            &&& forall|k: int, j: int|
                0 <= k < pieces.len() && cuts[k] < j < #[trigger] cuts[k + 1] ==> #[trigger] b[j]
                    != 0x2c
            &&& forall|k: int|
                0 <= k < pieces.len() ==> #[trigger] pieces[k] == (
                    text::trimmed(b, cuts[k] + 1, cuts[k + 1]).0 as usize,
                    text::trimmed(b, cuts[k] + 1, cuts[k + 1]).1 as usize,
                )
        }),
    decreases end - i,
{
    text::lemma_find_byte(b, 0x2c, i, end);
    let f = text::find_byte(b, 0x2c, i, end);
    let pieces = macros::split_list(b, i, end);
    if f < end {
        let later = law_list_pieces(b, f + 1, end);
        let rest = macros::split_list(b, f + 1, end);
        let cuts = seq![i - 1] + later;
        assert(cuts[1] == f);
        assert forall|k: int| 0 < k < cuts.len() - 1 implies i <= #[trigger] cuts[k] < end
            && b[cuts[k]] == 0x2c by {
            if k > 1 {
                assert(cuts[k] == later[k - 1]);
            }
        }
        assert forall|k: int, j: int|
            0 <= k < pieces.len() && cuts[k] < j < #[trigger] cuts[k + 1] implies #[trigger] b[j]
            != 0x2c by {
            if k > 0 {
                assert(cuts[k] == later[k - 1]);
                assert(cuts[k + 1] == later[k - 1 + 1]);
            }
        }
        assert forall|k: int| 0 <= k < pieces.len() implies #[trigger] pieces[k] == (
            text::trimmed(b, cuts[k] + 1, cuts[k + 1]).0 as usize,
            text::trimmed(b, cuts[k] + 1, cuts[k + 1]).1 as usize,
        ) by {
            if k > 0 {
                assert(pieces[k] == rest[k - 1]);
                assert(cuts[k] == later[k - 1]);
                assert(cuts[k + 1] == later[k - 1 + 1]);
            }
        }
        assert(cuts.last() == later.last());
        cuts
    } else {
        seq![i - 1, end]
    }
}

// ---------------------------------------------------------------------------------------------
// Definitions

/// A text that may stand between the parentheses of a definition: names, commas and blanks.
pub open spec fn is_arg_list(l: Seq<u8>) -> bool {
    forall|k: int|
        0 <= k < l.len() ==> text::is_name_byte(#[trigger] l[k]) || l[k] == 0x2c || l[k] == 0x20
            || l[k] == 0x09
}

/// A text that may stand behind the blank of a definition.
pub open spec fn is_expansion(x: Seq<u8>) -> bool {
    x.len() > 0 && x[0] != 0x20 && x[0] != 0x09 && forall|k: int|
        0 <= k < x.len() ==> #[trigger] x[k] != 0
}

/// `name(list) expansion` defines a macro of that name with the pieces of the list as arguments and
/// with that expansion, declared where its name and its list stand.
#[verifier::spinoff_prover]
#[verifier::rlimit(60)]
pub proof fn law_define_with_arguments(
    name: Seq<u8>,
    list: Seq<u8>,
    x: Seq<u8>,
    offset: usize,
)
    requires
        is_word(name),
        is_arg_list(list),
        is_expansion(x),
        offset + name.len() + list.len() + x.len() + 3 <= usize::MAX,
    ensures
        ({
            let b = name + seq![0x28u8] + list + seq![0x29u8, 0x20] + x;
            let n = name.len() as int;
            let d = n + list.len() + 2;
            let (m, said) = macros::defined_by(b, offset);
            &&& m matches Some(m)
            &&& m.name == name
            &&& m.expansion == x
            &&& m.declaration_range.0 == offset && m.declaration_range.1 == d
            &&& m.expansion_offset == offset + d + 1
            &&& list.len() == 0 ==> m.args == Some(Seq::<Seq<u8>>::empty())
            &&& list.len() > 0 ==> m.args == Some(
                macros::range_texts(b, macros::split_list(b, n + 1, d - 1)),
            )
        }),
{
    let tail = seq![0x28u8] + list + seq![0x29u8, 0x20] + x;
    let b = name + seq![0x28u8] + list + seq![0x29u8, 0x20] + x;
    let n = name.len() as int;
    let d = n + list.len() + 2;
    let len = b.len() as int;
    assert(b =~= name + tail);
    assert(b[0] == name[0]);
    assert forall|k: int| 0 <= k < n implies text::is_name_byte(#[trigger] b[k]) by {
        assert(b[k] == name[k]);
    }
    assert(b[n] == 0x28);
    lemma_skip_name_is(b, 0, n, len);
    assert forall|k: int| n + 1 <= k < d - 1 implies macros::is_arg_byte(#[trigger] b[k]) by {
        assert(b[k] == list[k - n - 1]);
    }
    assert(b[d - 1] == 0x29);
    lemma_args_end_is(b, n + 1, d - 1);
    assert(b[d] == 0x20);
    assert(b[d + 1] == x[0]);
    reveal_with_fuel(text::skip_blank, 3);
    assert(text::skip_blank(b, d, len) == d + 1);
    assert forall|k: int| d + 1 <= k < len implies #[trigger] b[k] != 0 by {
        assert(b[k] == x[k - d - 1]);
    }
    assert(macros::define_shape(b) == Some((n, d, d + 1)));
    assert(b.subrange(0, n) =~= name);
    assert(b.subrange(d + 1, len) =~= x);
    if list.len() == 0 {
        assert(macros::range_texts(b, Seq::empty()) =~= Seq::<Seq<u8>>::empty());
    }
}

proof fn lemma_args_end_is(b: Seq<u8>, i: int, j: int)
    requires
        0 <= i <= j < b.len(),
        forall|k: int| i <= k < j ==> macros::is_arg_byte(#[trigger] b[k]),
        b[j] == 0x29,
    ensures
        macros::args_end(b, i) == j,
    decreases j - i,
{
    if i < j {
        assert(macros::is_arg_byte(b[i]));
        lemma_args_end_is(b, i + 1, j);
    }
}

} // verus!
