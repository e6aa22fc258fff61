//! What holds of a text whose macros have been expanded.

use crate::preprocessor::macros;
use crate::preprocessor::macros::{Expansion, MacroDiagnostic, MacroModel};
use crate::text;
use vstd::prelude::*;

verus! {

/// From `i` on, the search for a use of a macro passes over all words up to `k` and goes on there,
/// whatever stands from `k` on.
spec fn clear(table: Map<Seq<u8>, MacroModel>, b: Seq<u8>, i: int, k: int) -> bool
    decreases k - i,
{
    let s = macros::next_name(b, i);
    let e = text::skip_name(b, s, b.len() as int);
    if i >= k {
        i == k
    } else if s >= k {
        true
    } else {
        let name = b.subrange(s, e);
        &&& i <= s < e < k
        &&& table.contains_key(name) ==> table[name].args is Some && b[e] != 0x28
        &&& clear(table, b, e, k)
    }
}

/// The texts start with the same `k` bytes.
spec fn same_to(a: Seq<u8>, b: Seq<u8>, k: int) -> bool {
    &&& k <= a.len()
    &&& k <= b.len()
    &&& forall|n: int| 0 <= n < k ==> #[trigger] a[n] == b[n]
}

proof fn lemma_next_name_from(b: Seq<u8>, i: int, k: int)
    requires
        0 <= i <= k <= b.len(),
        forall|n: int| i <= n < k ==> !text::is_name_start(#[trigger] b[n]),
    ensures
        macros::next_name(b, i) == macros::next_name(b, k),
    decreases k - i,
{
    if i < k {
        assert(!text::is_name_start(b[i]));
        lemma_next_name_from(b, i + 1, k);
    }
}

proof fn lemma_skip_name_is(b: Seq<u8>, i: int, e: int)
    requires
        0 <= i <= e < b.len(),
        forall|n: int| i <= n < e ==> text::is_name_byte(#[trigger] b[n]),
        !text::is_name_byte(b[e]),
    ensures
        text::skip_name(b, i, b.len() as int) == e,
    decreases e - i,
{
    if i < e {
        assert(text::is_name_byte(b[i]));
        lemma_skip_name_is(b, i + 1, e);
    }
}

/// The first word is found alike in a text that is the same so far.
proof fn lemma_same_word(a: Seq<u8>, b: Seq<u8>, i: int, k: int)
    requires
        same_to(a, b, k),
        0 <= i < k,
        macros::next_name(a, i) < k,
        text::skip_name(a, macros::next_name(a, i), a.len() as int) < k,
    ensures
        macros::next_name(b, i) == macros::next_name(a, i),
        text::skip_name(b, macros::next_name(b, i), b.len() as int) == text::skip_name(
            a,
            macros::next_name(a, i),
            a.len() as int,
        ),
{
    macros::lemma_next_name(a, i);
    let s = macros::next_name(a, i);
    text::lemma_skip_name(a, s, a.len() as int);
    let e = text::skip_name(a, s, a.len() as int);
    assert forall|n: int| i <= n < s implies !text::is_name_start(#[trigger] b[n]) by {
        assert(a[n] == b[n]);
    }
    lemma_next_name_from(b, i, s);
    assert(a[s] == b[s]);
    assert(macros::next_name(b, s) == s);
    assert forall|n: int| s <= n < e implies text::is_name_byte(#[trigger] b[n]) by {
        assert(a[n] == b[n]);
    }
    assert(a[e] == b[e]);
    lemma_skip_name_is(b, s, e);
}

/// The search passes over the same words in a text that is the same so far, and finds what it
/// would find from there on.
proof fn lemma_clear(table: Map<Seq<u8>, MacroModel>, a: Seq<u8>, b: Seq<u8>, i: int, k: int)
    requires
        clear(table, a, i, k),
        same_to(a, b, k),
        0 <= i <= k,
    ensures
        clear(table, b, i, k),
        macros::find_use(table, b, i) == macros::find_use(table, b, k),
    decreases k - i,
{
    if i < k {
        let s = macros::next_name(a, i);
        macros::lemma_next_name(a, i);
        if s >= k {
            assert forall|n: int| i <= n < k implies !text::is_name_start(#[trigger] b[n]) by {
                assert(a[n] == b[n]);
            }
            lemma_next_name_from(b, i, k);
            macros::lemma_next_name(b, k);
        } else {
            let e = text::skip_name(a, s, a.len() as int);
            lemma_same_word(a, b, i, k);
            assert(a.subrange(s, e) =~= b.subrange(s, e));
            assert(a[e] == b[e]);
            lemma_clear(table, a, b, e, k);
        }
    }
}

proof fn lemma_clear_on(table: Map<Seq<u8>, MacroModel>, b: Seq<u8>, i: int, k: int, m: int)
    requires
        clear(table, b, i, k),
        clear(table, b, k, m),
        0 <= i <= k <= m <= b.len(),
    ensures
        clear(table, b, i, m),
    decreases k - i,
{
    if i < k {
        let s = macros::next_name(b, i);
        macros::lemma_next_name(b, i);
        if s >= k {
            assert(macros::next_name(b, i) == macros::next_name(b, k)) by {
                lemma_next_name_from(b, i, k);
            }
            if k == m {
            } else {
                assert(clear(table, b, i, m));
            }
        } else {
            let e = text::skip_name(b, s, b.len() as int);
            lemma_clear_on(table, b, e, k, m);
        }
    }
}

/// The search passes over all words up to the use that it finds.
proof fn lemma_clear_to_use(table: Map<Seq<u8>, MacroModel>, b: Seq<u8>, i: int)
    requires
        0 <= i <= b.len(),
    ensures
        macros::find_use(table, b, i) matches Some(u) ==> i <= u.start < b.len() && clear(
            table,
            b,
            i,
            u.start,
        ),
    decreases b.len() - i,
{
    let len = b.len() as int;
    macros::lemma_next_name(b, i);
    let s = macros::next_name(b, i);
    if s < len {
        macros::lemma_next_word(b, i);
        let e = text::skip_name(b, s, len);
        text::lemma_skip_name(b, s, len);
        let name = b.subrange(s, e);
        if !table.contains_key(name) || (table[name].args is Some && !(e < len && b[e] == 0x28)) {
            lemma_clear_to_use(table, b, e);
            match macros::find_use(table, b, e) {
                Some(u) => {
                    macros::lemma_next_name(b, e);
                    assert(e < u.start) by {
                        if u.start == e {
                            lemma_use_starts_name(table, b, e);
                        }
                    }
                },
                None => {},
            }
        }
    }
}

proof fn lemma_use_starts_name(table: Map<Seq<u8>, MacroModel>, b: Seq<u8>, i: int)
    requires
        0 <= i <= b.len(),
    ensures
        macros::find_use(table, b, i) matches Some(u) ==> i <= u.start < b.len()
            && text::is_name_byte(b[u.start]),
    decreases b.len() - i,
{
    let len = b.len() as int;
    macros::lemma_next_name(b, i);
    let s = macros::next_name(b, i);
    if s < len {
        macros::lemma_next_word(b, i);
        lemma_use_starts_name(table, b, text::skip_name(b, s, len));
    }
}

proof fn lemma_steps_leave_none(table: Map<Seq<u8>, MacroModel>, st: Expansion, n: nat)
    requires
        macros::expand_steps(table, st, n) is Some,
        (macros::expand_steps(table, st, n)->0).2.len() == 0,
        0 <= st.skip <= st.text.len(),
        clear(table, st.text, 0, st.skip),
    ensures
        macros::find_use(table, (macros::expand_steps(table, st, n)->0).0, 0) is None,
    decreases n,
{
    lemma_clear(table, st.text, st.text, 0, st.skip);
    match macros::expand_step(table, st) {
        None => {},
        Some((next, diags)) => {
            let u = macros::find_use(table, st.text, st.skip)->0;
            lemma_clear_to_use(table, st.text, st.skip);
            lemma_clear_on(table, st.text, 0, st.skip, u.start);
            let rest = (macros::expand_steps(table, next, (n - 1) as nat)->0).2;
            assert((diags + rest).len() == 0);
            assert(diags.len() == 0);
            assert(same_to(st.text, next.text, u.start));
            lemma_clear(table, st.text, next.text, 0, u.start);
            lemma_steps_leave_none(table, next, (n - 1) as nat);
        },
    }
}

/// A text that was expanded without a diagnostic holds no use of a macro: expanding it again
/// leaves it as it is and says nothing.
pub proof fn law_expanded_text_stays(
    table: Map<Seq<u8>, MacroModel>,
    b: Seq<u8>,
    offset: usize,
    again: usize,
)
    requires
        macros::expand_all(table, b, offset) is Some,
        (macros::expand_all(table, b, offset)->0).2.len() == 0,
    ensures
        ({
            let t = (macros::expand_all(table, b, offset)->0).0;
            macros::expand_all(table, t, again) == Some(
                (
                    t,
                    macros::offsets_from(again, t.len() as int),
                    Seq::<MacroDiagnostic>::empty(),
                ),
            )
        }),
{
    let st = macros::unexpanded(b, offset);
    let n = choose|n: nat| #[trigger] macros::expand_steps(table, st, n) is Some;
    lemma_steps_leave_none(table, st, n);
    let t = (macros::expand_all(table, b, offset)->0).0;
    let later = macros::unexpanded(t, again);
    assert(macros::expand_steps(table, later, 0) is Some);
    macros::lemma_expand_all(table, t, again, 0);
}

} // verus!
