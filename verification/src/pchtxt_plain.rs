//! Patches that a patch text file gives back.

use crate::ips;
use crate::option::BuildId;
use crate::patches;
use crate::pchtxt;
use crate::pchtxt::PchtxtDianostic;
use crate::pchtxt_laws;
use crate::pchtxt_writer;
use crate::pchtxt_writer::{Part, PCHTXT_MAX_HUNK_SIZE};
use crate::text;
use vstd::prelude::*;

verus! {

/// What is put at an address, if something is: no vertical tab and no backslash, and a zero only
/// behind another byte that is put.
pub open spec fn plain_byte(m: Map<u32, u8>, a: u32) -> bool {
    m.contains_key(a) ==> {
        &&& m[a] != 0x0b
        &&& m[a] != 0x5c
        &&& m[a] == 0 ==> a > 0 && m.contains_key((a - 1) as u32) && m[(a - 1) as u32] != 0
    }
}

/// The addresses from `a` on that one hunk can hold, and the one behind them, are all put.
pub open spec fn long_stretch(m: Map<u32, u8>, a: u32) -> bool {
    &&& a + PCHTXT_MAX_HUNK_SIZE <= patches::TOP
    &&& forall|x: u32| a <= x <= a + PCHTXT_MAX_HUNK_SIZE ==> #[trigger] m.contains_key(x)
}

/// A string takes at least one byte before its zero.
spec fn long_strings(ps: Seq<Part>) -> bool {
    forall|k: int|
        0 <= k < ps.len() && (#[trigger] ps[k]).text is Some ==> ps[k].end - ps[k].start >= 2
}

proof fn lemma_long_parts(h: Seq<u8>, i: int)
    requires
        0 <= i <= h.len() <= PCHTXT_MAX_HUNK_SIZE,
        h.len() > 0 ==> h[0] != 0,
        forall|k: int| 0 < k < h.len() && #[trigger] h[k] == 0 ==> h[k - 1] != 0,
        0 < i < h.len() ==> h[i - 1] == 0,
    ensures
        long_strings(pchtxt_writer::parts_from(h, i)),
    decreases h.len() - i,
{
    if i < h.len() {
        text::lemma_find_byte(h, 0, i, h.len() as int);
        let e = pchtxt_writer::zero_end(h, i);
        lemma_long_parts(h, e);
        assert(h[i] != 0);
        let here = pchtxt_writer::parts_of(h, i, e);
        let rest = pchtxt_writer::parts_from(h, e);
        assert(here.len() == 2 ==> here[1].start == pchtxt_writer::first_plain(h, i, e));
        lemma_first_plain_is(h, i, e);
        assert(long_strings(here));
        let all = here + rest;
        assert forall|k: int| 0 <= k < all.len() && (#[trigger] all[k]).text is Some implies all[k].end
            - all[k].start >= 2 by {
            if k < here.len() {
                assert(all[k] == here[k]);
            } else {
                assert(all[k] == rest[k - here.len()]);
            }
        }
    }
}

proof fn lemma_first_plain_is(h: Seq<u8>, i: int, j: int)
    requires
        0 <= i <= j <= h.len(),
    ensures
        i <= pchtxt_writer::first_plain(h, i, j) <= j,
        pchtxt_writer::first_plain(h, i, j) < j ==> h[pchtxt_writer::first_plain(h, i, j)] != 0,
    decreases j - i,
{
    if i < j && pchtxt_writer::is_control(h[i]) {
        lemma_first_plain_is(h, i + 1, j);
    }
}

proof fn lemma_long_joined(ps: Seq<Part>, k: int)
    requires
        long_strings(ps),
        0 <= k,
    ensures
        long_strings(pchtxt_writer::joined(ps, k)),
    decreases ps.len() - k,
{
    if k + 1 < ps.len() {
        if pchtxt_writer::shorter_joined(ps[k], ps[k + 1]) {
            let p = Part { start: ps[k].start, end: ps[k + 1].end, text: None };
            let qs = ps.update(k, p).remove(k + 1);
            assert forall|n: int|
                0 <= n < qs.len() && (#[trigger] qs[n]).text is Some implies qs[n].end - qs[n].start
                >= 2 by {
                if n < k {
                    assert(qs[n] == ps[n]);
                } else if n > k {
                    assert(qs[n] == ps[n + 1]);
                }
            }
            lemma_long_joined(qs, k);
        } else {
            lemma_long_joined(ps, k + 1);
        }
    }
}

/// A hunk of a patch of plain bytes without long stretches starts where a stretch does.
proof fn lemma_hunk_starts(m: Map<u32, u8>, i: int)
    requires
        forall|a: u32| !(#[trigger] long_stretch(m, a)),
        0 <= i < patches::hunks(m, PCHTXT_MAX_HUNK_SIZE as int).len(),
    ensures
        patches::starts_hunk(m, patches::hunks(m, PCHTXT_MAX_HUNK_SIZE as int)[i].0),
{
    let max = PCHTXT_MAX_HUNK_SIZE as int;
    let hs = patches::hunks(m, max);
    patches::law_hunks_rebuild(m, max);
    ips::lemma_hunks_agree(m, max);
    let h = hs[i];
    assert(ips::hunk_agrees(m, h));
    assert(ips::covers(h, h.0));
    if h.0 > 0 && m.contains_key((h.0 - 1) as u32) {
        let before = (h.0 - 1) as u32;
        let j = choose|j: int| 0 <= j < hs.len() && ips::covers(#[trigger] hs[j], before);
        let g = hs[j];
        if j < i {
            assert(g.0 + g.1.len() <= h.0);
        } else if i < j {
            assert(h.0 + h.1.len() <= g.0);
        }
        assert(g.1.len() == max);
        assert(ips::hunk_agrees(m, g));
        assert forall|x: u32| g.0 <= x <= g.0 + PCHTXT_MAX_HUNK_SIZE implies #[trigger] m.contains_key(
            x,
        ) by {
            if x < g.0 + max {
                assert(ips::covers(g, x));
            } else {
                assert(x == h.0);
            }
        }
        assert(long_stretch(m, g.0));
    }
}

proof fn lemma_plain_hunk(m: Map<u32, u8>, base: u32, h: Seq<u8>)
    requires
        forall|a: u32| #[trigger] plain_byte(m, a),
        patches::starts_hunk(m, base),
        1 <= h.len() <= PCHTXT_MAX_HUNK_SIZE,
        base + h.len() <= patches::TOP + 1,
        ips::hunk_agrees(m, (base, h)),
    ensures
        pchtxt_laws::hunk_reads_back(h),
{
    assert forall|k: int| 0 <= k < h.len() implies (#[trigger] h[k]) == m[(base + k) as u32]
        && m.contains_key((base + k) as u32) by {
        assert(ips::covers((base, h), (base + k) as u32));
    }
    assert(h[0] != 0) by {
        assert(plain_byte(m, base));
        assert(h[0] == m[(base + 0) as u32]);
    }
    assert forall|k: int| 0 < k < h.len() && #[trigger] h[k] == 0 implies h[k - 1] != 0 by {
        assert(plain_byte(m, (base + k) as u32));
        assert(h[k - 1] == m[(base + (k - 1)) as u32]);
    }
    assert forall|n: int| 0 <= n < h.len() implies #[trigger] h[n] != 0x0b && h[n] != 0x5c by {
        assert(plain_byte(m, (base + n) as u32));
    }
    lemma_long_parts(h, 0);
    lemma_long_joined(pchtxt_writer::parts_from(h, 0), 0);
    pchtxt_writer::law_pchtxt_parts_tile(h);
    let ps = pchtxt_writer::joined(pchtxt_writer::parts_from(h, 0), 0);
    assert forall|k: int| 0 <= k < ps.len() implies pchtxt_laws::part_reads_back(
        h,
        #[trigger] ps[k],
    ) by {
        assert(ps[k].start < ps[k].end <= h.len());
    }
}

/// A file that was written for a patch without vertical tabs, backslashes and zeros that stand
/// alone gives back the patch and the build, as long as no stretch of it is cut.
pub proof fn law_plain_patch_reads_back(m: Map<u32, u8>, build_id: BuildId)
    requires
        forall|a: u32| #[trigger] plain_byte(m, a),
        forall|a: u32| !(#[trigger] long_stretch(m, a)),
    ensures
        pchtxt::readable(pchtxt_writer::pchtxt_file(m, build_id)),
        pchtxt::pchtxt_patches(pchtxt_writer::pchtxt_file(m, build_id)) == (
            (m, build_id),
            seq![PchtxtDianostic::PatchEnabled { message: Seq::<u8>::empty(), at: (41, 8) }],
        ),
{
    let max = PCHTXT_MAX_HUNK_SIZE as int;
    let hs = patches::hunks(m, max);
    patches::law_hunks_rebuild(m, max);
    ips::lemma_hunks_agree(m, max);
    assert forall|i: int| 0 <= i < hs.len() implies pchtxt_laws::hunk_reads_back(
        (#[trigger] hs[i]).1,
    ) by {
        let base = hs[i].0;
        let h = hs[i].1;
        assert(ips::hunk_agrees(m, hs[i]));
        lemma_hunk_starts(m, i);
        lemma_plain_hunk(m, base, h);
    }
    pchtxt_laws::law_pchtxt_file_reads_back(m, build_id);
}

} // verus!
