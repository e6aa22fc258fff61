//! The bytes to patch, by address, and the contiguous hunks that they form.

use smallvec::SmallVec;
use std::collections::BTreeMap;
use vstd::prelude::*;

verus! {

broadcast use vstd::std_specs::btree::group_btree_axioms;

/// The highest address.
pub const TOP: u32 = 0xffff_ffff;

// ---------------------------------------------------------------------------------------------
// Model

/// The address `n` bytes behind `address`; addresses wrap around behind the highest one.
pub open spec fn address_after(address: u32, n: int) -> u32 {
    ((address + n) % 0x1_0000_0000) as u32
}

/// `m` with `bytes` put in one after the other, the first of them at `address`.
pub open spec fn put_all(m: Map<u32, u8>, address: u32, bytes: Seq<u8>) -> Map<u32, u8>
    decreases bytes.len(),
{
    if bytes.len() == 0 {
        m
    } else {
        put_all(m, address, bytes.drop_last()).insert(
            address_after(address, bytes.len() - 1),
            bytes.last(),
        )
    }
}

/// The patched bytes at `from` and above, in ascending order of their addresses.
pub open spec fn entries_from(m: Map<u32, u8>, from: int) -> Seq<(u32, u8)>
    decreases TOP + 1 - from,
{
    if from < 0 || from > TOP {
        Seq::empty()
    } else if m.contains_key(from as u32) {
        seq![(from as u32, m[from as u32])] + entries_from(m, from + 1)
    } else {
        entries_from(m, from + 1)
    }
}

/// The patched bytes in ascending order of their addresses.
pub open spec fn entries(m: Map<u32, u8>) -> Seq<(u32, u8)> {
    entries_from(m, 0)
}

/// How many of the entries continue the first `n` ones without a gap, up to `max` in all.
pub open spec fn run_end(e: Seq<(u32, u8)>, n: int, max: int) -> int
    decreases e.len() - n,
{
    if n < e.len() && n < max && e[n].0 == e[0].0 + n {
        run_end(e, n + 1, max)
    } else {
        n
    }
}

/// The values of the first `n` entries.
pub open spec fn values(e: Seq<(u32, u8)>, n: int) -> Seq<u8> {
    Seq::new(n as nat, |i: int| e[i].1)
}

/// The number of entries in the first hunk.
pub open spec fn first_hunk_len(e: Seq<(u32, u8)>, max: int) -> int {
    run_end(e, 1, max)
}

/// The first hunk of the entries: where it starts, and its bytes.
pub open spec fn first_hunk(e: Seq<(u32, u8)>, max: int) -> (u32, Seq<u8>) {
    (e[0].0, values(e, first_hunk_len(e, max)))
}

/// The entries cut into contiguous hunks of at most `max` bytes, each as long as it can be.
pub open spec fn hunks_of(e: Seq<(u32, u8)>, max: int) -> Seq<(u32, Seq<u8>)>
    decreases e.len(),
{
    if e.len() == 0 {
        Seq::empty()
    } else {
        let n = first_hunk_len(e, max);
        if 1 <= n <= e.len() {
            seq![first_hunk(e, max)] + hunks_of(e.subrange(n, e.len() as int), max)
        } else {
            Seq::empty()
        }
    }
}

/// The hunks of a patch, none longer than `max`.
pub open spec fn hunks(m: Map<u32, u8>, max: int) -> Seq<(u32, Seq<u8>)> {
    hunks_of(entries(m), max)
}

/// The hunks put into `m` one after the other.
pub open spec fn put_hunks(m: Map<u32, u8>, hs: Seq<(u32, Seq<u8>)>) -> Map<u32, u8>
    decreases hs.len(),
{
    if hs.len() == 0 {
        m
    } else {
        put_all(put_hunks(m, hs.drop_last()), hs.last().0, hs.last().1)
    }
}

/// A patch starts a hunk at an address when that address is patched and the one before is not.
pub open spec fn starts_hunk(m: Map<u32, u8>, address: u32) -> bool {
    m.contains_key(address) && (address > 0 ==> !m.contains_key((address - 1) as u32))
}

/// The addresses of the entries ascend.
pub open spec fn ascending(e: Seq<(u32, u8)>) -> bool {
    forall|i: int, j: int| 0 <= i < j < e.len() ==> #[trigger] e[i].0 < #[trigger] e[j].0
}

// ---------------------------------------------------------------------------------------------
// Facts about entries and hunks

pub proof fn lemma_entries_from(m: Map<u32, u8>, from: int)
    requires
        0 <= from <= TOP + 1,
    ensures
        ascending(entries_from(m, from)),
        forall|i: int|
            0 <= i < entries_from(m, from).len() ==> {
                let e = #[trigger] entries_from(m, from)[i];
                from <= e.0 && m.contains_key(e.0) && m[e.0] == e.1
            },
        forall|a: u32|
            from <= a && #[trigger] m.contains_key(a) ==> exists|i: int|
                0 <= i < entries_from(m, from).len() && #[trigger] entries_from(m, from)[i].0 == a,
    decreases TOP + 1 - from,
{
    if from <= TOP {
        lemma_entries_from(m, from + 1);
        let rest = entries_from(m, from + 1);
        let all = entries_from(m, from);
        if m.contains_key(from as u32) {
            assert forall|a: u32| from <= a && #[trigger] m.contains_key(a) implies exists|i: int|
                0 <= i < all.len() && #[trigger] all[i].0 == a by {
                if a == from {
                    assert(all[0].0 == a);
                } else {
                    let k = choose|i: int| 0 <= i < rest.len() && #[trigger] rest[i].0 == a;
                    assert(all[k + 1].0 == a);
                }
            }
            assert forall|i: int, j: int| 0 <= i < j < all.len() implies #[trigger] all[i].0
                < #[trigger] all[j].0 by {
                assert(all[j] == rest[j - 1]);
                if i > 0 {
                    assert(all[i] == rest[i - 1]);
                }
            }
            assert forall|i: int| 0 <= i < all.len() implies {
                let e = #[trigger] all[i];
                from <= e.0 && m.contains_key(e.0) && m[e.0] == e.1
            } by {
                if i > 0 {
                    assert(all[i] == rest[i - 1]);
                }
            }
        } else {
            assert(all == rest);
        }
    }
}

/// A sequence that ascends and holds just the bytes of `m` from an address on is the sequence of
/// entries.
pub proof fn lemma_entries_unique(m: Map<u32, u8>, from: int, s: Seq<(u32, u8)>)
    requires
        0 <= from <= TOP + 1,
        ascending(s),
        forall|i: int|
            0 <= i < s.len() ==> from <= (#[trigger] s[i]).0 && m.contains_key(s[i].0)
                && m[s[i].0] == s[i].1,
        forall|a: u32|
            from <= a && #[trigger] m.contains_key(a) ==> exists|i: int|
                0 <= i < s.len() && #[trigger] s[i].0 == a,
    ensures
        s == entries_from(m, from),
    decreases TOP + 1 - from,
{
    if from > TOP {
        if s.len() > 0 {
            assert(from <= s[0].0);
        }
        assert(s =~= entries_from(m, from));
    } else if m.contains_key(from as u32) {
        let k = choose|i: int| 0 <= i < s.len() && #[trigger] s[i].0 == from as u32;
        assert(k == 0) by {
            if k > 0 {
                assert(s[0].0 < s[k].0);
            }
        }
        let t = s.subrange(1, s.len() as int);
        assert forall|a: u32| from + 1 <= a && #[trigger] m.contains_key(a) implies exists|i: int|
            0 <= i < t.len() && #[trigger] t[i].0 == a by {
            let j = choose|i: int| 0 <= i < s.len() && #[trigger] s[i].0 == a;
            assert(t[j - 1].0 == a);
        }
        assert forall|i: int| 0 <= i < t.len() implies from + 1 <= (#[trigger] t[i]).0
            && m.contains_key(t[i].0) && m[t[i].0] == t[i].1 by {
            assert(t[i] == s[i + 1]);
            assert(s[0].0 < s[i + 1].0);
        }
        assert forall|i: int, j: int| 0 <= i < j < t.len() implies #[trigger] t[i].0
            < #[trigger] t[j].0 by {
            assert(s[i + 1].0 < s[j + 1].0);
        }
        lemma_entries_unique(m, from + 1, t);
        assert(s =~= seq![(from as u32, m[from as u32])] + t);
    } else {
        assert forall|i: int| 0 <= i < s.len() implies from + 1 <= (#[trigger] s[i]).0
            && m.contains_key(s[i].0) && m[s[i].0] == s[i].1 by {
            assert(s[i].0 != from);
        }
        lemma_entries_unique(m, from + 1, s);
    }
}

pub proof fn lemma_run_end(e: Seq<(u32, u8)>, n: int, max: int)
    requires
        1 <= n <= e.len(),
        n <= max,
        forall|k: int| 0 <= k < n ==> (#[trigger] e[k]).0 == e[0].0 + k,
    ensures
        n <= run_end(e, n, max) <= e.len(),
        run_end(e, n, max) <= max,
        forall|k: int| 0 <= k < run_end(e, n, max) ==> (#[trigger] e[k]).0 == e[0].0 + k,
        run_end(e, n, max) == max || run_end(e, n, max) == e.len() || e[run_end(e, n, max)].0
            != e[0].0 + run_end(e, n, max),
    decreases e.len() - n,
{
    if n < e.len() && n < max && e[n].0 == e[0].0 + n {
        lemma_run_end(e, n + 1, max);
    }
}

/// Putting bytes at an address sets just the addresses behind it.
pub proof fn lemma_put_all(m: Map<u32, u8>, address: u32, bytes: Seq<u8>)
    requires
        address + bytes.len() <= TOP + 1,
    ensures
        forall|a: u32| #[trigger]
            put_all(m, address, bytes).contains_key(a) <==> m.contains_key(a) || (address <= a < address
                + bytes.len()),
        forall|a: u32|
            put_all(m, address, bytes).contains_key(a) ==> #[trigger] put_all(m, address, bytes)[a] == (
            if address <= a < address + bytes.len() {
                bytes[a - address]
            } else {
                m[a]
            }),
    decreases bytes.len(),
{
    if bytes.len() > 0 {
        let prev = put_all(m, address, bytes.drop_last());
        lemma_put_all(m, address, bytes.drop_last());
        let at = address_after(address, bytes.len() - 1);
        assert(at == address + bytes.len() - 1) by {
            vstd::arithmetic::div_mod::lemma_small_mod(
                (address + bytes.len() - 1) as nat,
                0x1_0000_0000,
            );
        }
        assert(put_all(m, address, bytes) == prev.insert(at, bytes.last()));
        assert forall|a: u32| #[trigger]
            put_all(m, address, bytes).contains_key(a) <==> m.contains_key(a) || (address <= a < address
                + bytes.len()) by {
            assert(prev.contains_key(a) <==> m.contains_key(a) || (address <= a < address
                + bytes.len() - 1));
        }
        assert forall|a: u32|
            put_all(m, address, bytes).contains_key(a) implies #[trigger] put_all(m, address, bytes)[a] == (
            if address <= a < address + bytes.len() {
                bytes[a - address]
            } else {
                m[a]
            }) by {
            assert(prev.contains_key(a) <==> m.contains_key(a) || (address <= a < address
                + bytes.len() - 1));
            if a != at {
                assert(prev.contains_key(a));
                assert(prev[a] == put_all(m, address, bytes)[a]);
            }
        }
    }
}

/// Two lots of bytes that lie one behind the other can be put in as one.
pub proof fn lemma_put_join(m: Map<u32, u8>, address: u32, a: Seq<u8>, b: Seq<u8>)
    requires
        address + a.len() + b.len() <= TOP + 1,
        address + a.len() <= TOP,
    ensures
        put_all(put_all(m, address, a), (address + a.len()) as u32, b) == put_all(m, address, a + b),
{
    let mid = (address + a.len()) as u32;
    lemma_put_all(m, address, a);
    lemma_put_all(put_all(m, address, a), mid, b);
    lemma_put_all(m, address, a + b);
    assert(put_all(put_all(m, address, a), mid, b) =~= put_all(m, address, a + b));
}

/// The entries put into `m` one after the other.
pub open spec fn put_entries(m: Map<u32, u8>, e: Seq<(u32, u8)>) -> Map<u32, u8> {
    Map::new(
        |a: u32| m.contains_key(a) || exists|i: int| 0 <= i < e.len() && #[trigger] e[i].0 == a,
        |a: u32|
            if exists|i: int| 0 <= i < e.len() && #[trigger] e[i].0 == a {
                e[choose|i: int| 0 <= i < e.len() && #[trigger] e[i].0 == a].1
            } else {
                m[a]
            },
    )
}

/// Each hunk lies within the addresses, is not empty and no longer than `max`.
pub open spec fn hunks_sound(hs: Seq<(u32, Seq<u8>)>, max: int) -> bool {
    forall|i: int|
        0 <= i < hs.len() ==> {
            let h = #[trigger] hs[i];
            1 <= h.1.len() <= max && h.0 + h.1.len() <= TOP + 1
        }
}

/// Each hunk ends at or before the start of the next one, and a hunk shorter than `max` ends
/// before it.
pub open spec fn hunks_maximal(hs: Seq<(u32, Seq<u8>)>, max: int) -> bool {
    forall|i: int, j: int|
        0 <= i < j < hs.len() ==> {
            let g = #[trigger] hs[i];
            let h = #[trigger] hs[j];
            &&& g.0 + g.1.len() <= h.0
            &&& g.1.len() < max ==> g.0 + g.1.len() < h.0
        }
}

proof fn lemma_hunks_of(m: Map<u32, u8>, e: Seq<(u32, u8)>, max: int)
    requires
        ascending(e),
        max > 0,
    ensures
        hunks_sound(hunks_of(e, max), max),
        hunks_maximal(hunks_of(e, max), max),
        forall|i: int|
            0 <= i < hunks_of(e, max).len() ==> e.len() > 0 && e[0].0 <= (#[trigger] hunks_of(
                e,
                max,
            )[i]).0,
        e.len() > 0 ==> hunks_of(e, max).len() > 0,
        put_hunks(m, hunks_of(e, max)) == put_entries(m, e),
    decreases e.len(),
{
    if e.len() == 0 {
        assert(put_entries(m, e) =~= m);
    } else {
        lemma_run_end(e, 1, max);
        let n = first_hunk_len(e, max);
        let rest = e.subrange(n, e.len() as int);
        let first = first_hunk(e, max);
        let tail = hunks_of(rest, max);
        let all = hunks_of(e, max);
        assert(all == seq![first] + tail);
        assert forall|i: int, j: int| 0 <= i < j < rest.len() implies #[trigger] rest[i].0
            < #[trigger] rest[j].0 by {
            assert(e[i + n].0 < e[j + n].0);
        }
        let m1 = put_all(m, first.0, first.1);
        lemma_hunks_of(m1, rest, max);
        assert(e[n - 1].0 == e[0].0 + n - 1);
        lemma_put_all(m, first.0, first.1);
        assert forall|i: int| 0 <= i < all.len() implies {
            let h = #[trigger] all[i];
            1 <= h.1.len() <= max && h.0 + h.1.len() <= TOP + 1
        } by {
            if i > 0 {
                assert(all[i] == tail[i - 1]);
            }
        }
        assert forall|i: int| 0 <= i < all.len() implies e[0].0 <= (#[trigger] all[i]).0 by {
            if i > 0 {
                assert(all[i] == tail[i - 1]);
                assert(rest[0] == e[n]);
            }
        }
        assert forall|i: int, j: int| 0 <= i < j < all.len() implies {
            let g = #[trigger] all[i];
            let h = #[trigger] all[j];
            &&& g.0 + g.1.len() <= h.0
            &&& g.1.len() < max ==> g.0 + g.1.len() < h.0
        } by {
            assert(all[j] == tail[j - 1]);
            if i > 0 {
                assert(all[i] == tail[i - 1]);
            } else {
                assert(rest[0] == e[n]);
                assert(e[n - 1].0 < e[n].0);
            }
        }
        lemma_put_hunks_front(m, first, tail);
        let left = put_entries(m1, rest);
        let right = put_entries(m, e);
        assert forall|a: u32| #[trigger] left.contains_key(a) == right.contains_key(a)
            && (left.contains_key(a) ==> left[a] == right[a]) by {
            if exists|i: int| 0 <= i < e.len() && #[trigger] e[i].0 == a {
                let i = choose|i: int| 0 <= i < e.len() && #[trigger] e[i].0 == a;
                if i < n {
                    assert(e[i].0 == e[0].0 + i);
                    if exists|k: int| 0 <= k < rest.len() && #[trigger] rest[k].0 == a {
                        let k = choose|k: int| 0 <= k < rest.len() && #[trigger] rest[k].0 == a;
                        assert(e[k + n].0 == a);
                        assert(e[i].0 < e[k + n].0);
                    }
                    assert(m1[a] == first.1[a - first.0]);
                    assert(first.1[i] == e[i].1);
                } else {
                    assert(rest[i - n].0 == a);
                    let k = choose|k: int| 0 <= k < rest.len() && #[trigger] rest[k].0 == a;
                    assert(e[k + n].0 == a);
                    if k + n < i {
                        assert(e[k + n].0 < e[i].0);
                    } else if k + n > i {
                        assert(e[i].0 < e[k + n].0);
                    }
                }
            } else {
                if exists|k: int| 0 <= k < rest.len() && #[trigger] rest[k].0 == a {
                    let k = choose|k: int| 0 <= k < rest.len() && #[trigger] rest[k].0 == a;
                    assert(e[k + n].0 == a);
                }
                if first.0 <= a < first.0 + first.1.len() {
                    assert(e[a - first.0].0 == a);
                }
            }
        }
        assert(left =~= right);
    }
}

/// Putting a list of hunks is putting the first of them and then the others.
pub proof fn lemma_put_hunks_front(
    m: Map<u32, u8>,
    first: (u32, Seq<u8>),
    tail: Seq<(u32, Seq<u8>)>,
)
    ensures
        put_hunks(m, seq![first] + tail) == put_hunks(put_all(m, first.0, first.1), tail),
    decreases tail.len(),
{
    let all = seq![first] + tail;
    if tail.len() == 0 {
        assert(all.drop_last() =~= Seq::empty());
        assert(all.last() == first);
        reveal_with_fuel(put_hunks, 2);
    } else {
        assert(all.drop_last() =~= seq![first] + tail.drop_last());
        assert(all.last() == tail.last());
        lemma_put_hunks_front(m, first, tail.drop_last());
    }
}

/// The hunks of a patch, put into an empty patch, give the patch back; each is not empty, no
/// longer than `max` and as long as it can be; and they come in the order of their addresses.
pub proof fn law_hunks_rebuild(m: Map<u32, u8>, max: int)
    requires
        max > 0,
    ensures
        put_hunks(Map::empty(), hunks(m, max)) == m,
        hunks_sound(hunks(m, max), max),
        hunks_maximal(hunks(m, max), max),
{
    lemma_entries_from(m, 0);
    lemma_hunks_of(Map::empty(), entries(m), max);
    let e = entries(m);
    let p = put_entries(Map::empty(), e);
    assert forall|a: u32| #[trigger] p.contains_key(a) == m.contains_key(a) && (p.contains_key(a)
        ==> p[a] == m[a]) by {
        if m.contains_key(a) {
            let i = choose|i: int| 0 <= i < e.len() && #[trigger] e[i].0 == a;
            assert(e[i].0 == a);
        }
    }
    assert(p =~= m);
}

/// What one lot of bytes puts at an address, a later lot that does not reach the address leaves.
pub proof fn law_put_keeps(m: Map<u32, u8>, address: u32, bytes: Seq<u8>, other: u32)
    requires
        address + bytes.len() <= TOP + 1,
    ensures
        !(address <= other < address + bytes.len()) ==> {
            &&& put_all(m, address, bytes).contains_key(other) == m.contains_key(other)
            &&& m.contains_key(other) ==> put_all(m, address, bytes)[other] == m[other]
        },
        address <= other < address + bytes.len() ==> {
            &&& put_all(m, address, bytes).contains_key(other)
            &&& put_all(m, address, bytes)[other] == bytes[other - address]
        },
{
    lemma_put_all(m, address, bytes);
    assert(put_all(m, address, bytes).contains_key(other) || !m.contains_key(other));
}

// ---------------------------------------------------------------------------------------------
// The bytes of one hunk

/// The bytes of one hunk. Up to four of them are held without an allocation.
#[verifier::external_body]
pub struct Hunk {
    bytes: SmallVec<[u8; 4]>,
}

/// The bytes that a hunk holds, in order.
pub uninterp spec fn hunk_bytes(hunk: Hunk) -> Seq<u8>;

impl View for Hunk {
    type V = Seq<u8>;

    open spec fn view(&self) -> Seq<u8> {
        hunk_bytes(*self)
    }
}

impl Hunk {
    /// `SmallVec::new`: holds nothing.
    #[verifier::external_body]
    fn new() -> (r: Hunk)
        ensures
            hunk_bytes(r) == Seq::<u8>::empty(),
    {
        Hunk { bytes: SmallVec::new() }
    }

    /// `SmallVec::push`: appends the byte.
    #[verifier::external_body]
    fn push(&mut self, byte: u8)
        ensures
            hunk_bytes(*final(self)) == hunk_bytes(*old(self)).push(byte),
    {
        self.bytes.push(byte)
    }

    /// `SmallVec::len`: the number of bytes held.
    #[verifier::external_body]
    fn count(&self) -> (r: usize)
        ensures
            r == hunk_bytes(*self).len(),
    {
        self.bytes.len()
    }

    /// `SmallVec::as_slice`: the bytes held, in order.
    #[verifier::external_body]
    fn slice(&self) -> (r: &[u8])
        ensures
            r@ == hunk_bytes(*self),
    {
        self.bytes.as_slice()
    }

    /// `SmallVec::remove`: takes out the byte at `index`, moving the ones behind it down by one.
    /// It panics when there is none.
    #[verifier::external_body]
    pub(crate) fn remove(&mut self, index: usize) -> (r: u8)
        requires
            index < hunk_bytes(*old(self)).len(),
        ensures
            r == hunk_bytes(*old(self))[index as int],
            hunk_bytes(*final(self)) == hunk_bytes(*old(self)).remove(index as int),
    {
        self.bytes.remove(index)
    }

    /// `SmallVec::insert`: puts the byte in at `index`, moving the ones from there on up by one.
    /// It panics when `index` is beyond the end.
    #[verifier::external_body]
    pub(crate) fn insert(&mut self, index: usize, byte: u8)
        requires
            index <= hunk_bytes(*old(self)).len(),
        ensures
            hunk_bytes(*final(self)) == hunk_bytes(*old(self)).insert(index as int, byte),
    {
        self.bytes.insert(index, byte)
    }

    /// The number of bytes in the hunk.
    pub fn len(&self) -> (r: usize)
        ensures
            r == self@.len(),
    {
        self.count()
    }

    /// The bytes of the hunk.
    pub fn as_slice(&self) -> (r: &[u8])
        ensures
            r@ == self@,
    {
        self.slice()
    }
}

// ---------------------------------------------------------------------------------------------
// The patch

/// Bytes to patch, each at its address.
#[derive(Debug)]
pub struct PatchVec {
    data: BTreeMap<u32, u8>,
}

impl View for PatchVec {
    type V = Map<u32, u8>;

    closed spec fn view(&self) -> Map<u32, u8> {
        self.data@
    }
}

impl Clone for PatchVec {
    fn clone(&self) -> (r: Self)
        ensures
            r@ == self@,
    {
        PatchVec { data: self.data.clone() }
    }
}

/// The entries of a map in ascending order of their keys.
fn ordered_entries(data: &BTreeMap<u32, u8>) -> (r: Vec<(u32, u8)>)
    ensures
        r@ == entries(data@),
{
    let mut r: Vec<(u32, u8)> = Vec::new();
    let ghost m = data@;
    let ghost v = vstd::std_specs::iter::IteratorSpec::remaining(
        &vstd::std_specs::btree::spec_btree_map_iter(data),
    );
    let ghost keys = v.map_values(|kv: (&u32, &u8)| *kv.0);
    for kv in it: data.iter()
        invariant
            r@.len() == it.index(),
            m == data@,
            it.seq() == v,
            forall|i: int| 0 <= i < r@.len() ==> #[trigger] r@[i] == (*v[i].0, *v[i].1),
            keys.len() == v.len(),
            forall|i: int| 0 <= i < v.len() ==> #[trigger] keys[i] == *v[i].0,
            vstd::std_specs::btree::increasing_seq(keys),
    {
        r.push((*kv.0, *kv.1));
    }
    proof {
        assert(vstd::laws_cmp::obeys_cmp::<u32>());
        assert forall|i: int, j: int| 0 <= i < j < r@.len() implies #[trigger] r@[i].0
            < #[trigger] r@[j].0 by {
            assert(keys[i] == r@[i].0);
            assert(keys[j] == r@[j].0);
            assert(vstd::std_specs::cmp::OrdSpec::cmp_spec(&keys[i], &keys[j]) is Less);
        }
        assert forall|i: int| 0 <= i < r@.len() implies 0 <= (#[trigger] r@[i]).0
            && m.contains_key(r@[i].0) && m[r@[i].0] == r@[i].1 by {
            assert(m.contains_key(*v[i].0));
        }
        assert forall|a: u32| 0 <= a && #[trigger] m.contains_key(a) implies exists|i: int|
            0 <= i < r@.len() && #[trigger] r@[i].0 == a by {
            assert(v.contains((&a, &m[a])));
            let i = choose|i: int| 0 <= i < v.len() && v[i] == (&a, &m[a]);
            assert(r@[i].0 == a);
        }
        lemma_entries_unique(m, 0, r@);
    }
    r
}

impl PatchVec {
    /// A patch of no bytes.
    pub fn new() -> (r: Self)
        ensures
            r@ == Map::<u32, u8>::empty(),
    {
        Self { data: BTreeMap::new() }
    }

    /// Sets the byte at an address.
    pub fn put_byte(&mut self, address: u32, byte: u8)
        ensures
            final(self)@ == old(self)@.insert(address, byte),
    {
        self.data.insert(address, byte);
    }

    /// Sets the bytes from an address on. Behind the highest address comes address 0.
    pub fn put(&mut self, address: u32, bytes: &[u8])
        ensures
            final(self)@ == put_all(old(self)@, address, bytes@),
    {
        let mut at: u32 = address;
        let mut i: usize = 0;
        assert(bytes@.subrange(0, 0) =~= Seq::empty());
        proof {
            vstd::arithmetic::div_mod::lemma_small_mod(address as nat, 0x1_0000_0000);
        }
        while i < bytes.len()
            invariant
                i <= bytes@.len(),
                at == address_after(address, i as int),
                self@ == put_all(old(self)@, address, bytes@.subrange(0, i as int)),
            decreases bytes@.len() - i,
        {
            self.put_byte(at, bytes[i]);
            proof {
                let now = bytes@.subrange(0, i + 1);
                assert(now.drop_last() =~= bytes@.subrange(0, i as int));
                assert(now.last() == bytes@[i as int]);
                vstd::arithmetic::div_mod::lemma_add_mod_noop(
                    address + i,
                    1,
                    0x1_0000_0000,
                );
                vstd::arithmetic::div_mod::lemma_small_mod(1, 0x1_0000_0000);
            }
            at = at.wrapping_add(1);
            i += 1;
        }
        assert(bytes@.subrange(0, bytes@.len() as int) =~= bytes@);
    }

    /// Whether the byte at an address is patched.
    pub fn has_edit_at(&self, address: u32) -> (r: bool)
        ensures
            r == self@.contains_key(address),
    {
        self.data.contains_key(&address)
    }

    /// Whether the byte at an address is patched and the one before it is not.
    pub fn has_hunk_starting_at(&self, address: u32) -> (r: bool)
        ensures
            r == starts_hunk(self@, address),
    {
        if address == 0 {
            return self.data.contains_key(&0);
        }
        self.data.contains_key(&address) && !self.data.contains_key(&(address - 1))
    }

    /// The byte that is put at an address.
    pub(crate) fn byte_at(&self, address: u32) -> (r: u8)
        requires
            self@.contains_key(address),
        ensures
            r == self@[address],
    {
        match self.data.get(&address) {
            Some(byte) => *byte,
            None => 0,
        }
    }

    /// The contiguous hunks of the patch in ascending order, none longer than `max_hunk_size`.
    pub fn iter_hunks(&self, max_hunk_size: u32) -> (r: HunksIterator)
        requires
            max_hunk_size > 0,
        ensures
            r.wf(),
            r.max() == max_hunk_size,
            r@ == entries(self@),
    {
        let items = ordered_entries(&self.data);
        proof {
            lemma_entries_from(self@, 0);
            assert(items@.subrange(0, items@.len() as int) =~= items@);
        }
        HunksIterator { items, position: 0, max_size: max_hunk_size }
    }
}

/// Walks the contiguous hunks of a patch. Its view is the sequence of patched bytes that it has
/// not handed out yet.
pub struct HunksIterator {
    items: Vec<(u32, u8)>,
    position: usize,
    max_size: u32,
}

impl View for HunksIterator {
    type V = Seq<(u32, u8)>;

    closed spec fn view(&self) -> Seq<(u32, u8)> {
        self.items@.subrange(self.position as int, self.items@.len() as int)
    }
}

impl HunksIterator {
    /// The longest hunk that is handed out.
    pub closed spec fn max(&self) -> int {
        self.max_size as int
    }

    /// The invariant: what is left ascends, and hunks may hold at least one byte.
    pub closed spec fn wf(&self) -> bool {
        &&& self.position <= self.items@.len()
        &&& self.max_size > 0
        &&& ascending(self.items@)
    }

    /// What the invariant says of the view.
    pub proof fn lemma_wf(&self)
        requires
            self.wf(),
        ensures
            ascending(self@),
            self.max() > 0,
    {
        assert forall|i: int, j: int| 0 <= i < j < self@.len() implies #[trigger] self@[i].0
            < #[trigger] self@[j].0 by {
            assert(self.items@[i + self.position].0 < self.items@[j + self.position].0);
        }
    }

    /// The next hunk: the address of its first byte, and its bytes.
    pub fn next(&mut self) -> (r: Option<(u32, Hunk)>)
        requires
            old(self).wf(),
        ensures
            final(self).wf(),
            final(self).max() == old(self).max(),
            r is None <==> old(self)@.len() == 0,
            r is None ==> final(self)@ == old(self)@,
            r matches Some(hunk) ==> {
                let n = first_hunk_len(old(self)@, old(self).max());
                &&& (hunk.0, hunk.1@) == first_hunk(old(self)@, old(self).max())
                &&& 1 <= n <= old(self)@.len()
                &&& final(self)@ == old(self)@.subrange(n, old(self)@.len() as int)
            },
    {
        if self.position >= self.items.len() {
            return None;
        }
        let ghost e = self@;
        let start: usize = self.position;
        let base: u32 = self.items[start].0;
        let mut hunk = Hunk::new();
        hunk.push(self.items[start].1);
        let mut n: usize = 1;
        proof {
            self.lemma_wf();
            assert(hunk@ =~= values(e, 1));
        }
        while n < self.max_size as usize && n < self.items.len() - start && self.items[start + n].0
            as u64 == base as u64 + n as u64
            invariant
                1 <= n <= self.items@.len() - start,
                n <= self.max_size,
                start < self.items@.len(),
                e == self.items@.subrange(start as int, self.items@.len() as int),
                base == e[0].0,
                forall|k: int| 0 <= k < n ==> (#[trigger] e[k]).0 == e[0].0 + k,
                hunk@ == values(e, n as int),
                first_hunk_len(e, self.max_size as int) == run_end(
                    e,
                    n as int,
                    self.max_size as int,
                ),
                *self == *old(self),
            decreases self.items@.len() - n,
        {
            hunk.push(self.items[start + n].1);
            assert(e[n as int].0 == e[0].0 + n);
            n += 1;
            assert(hunk@ =~= values(e, n as int));
        }
        self.position = start + n;
        assert(self@ =~= e.subrange(n as int, e.len() as int));
        Some((base, hunk))
    }

    /// Bounds on the number of hunks left: one at least when a byte is left, and no more than
    /// there are bytes.
    pub fn size_hint(&self) -> (r: (usize, Option<usize>))
        requires
            self.wf(),
        ensures
            r.0 == (if self@.len() > 0 { 1int } else { 0 }),
            r.1 is Some && r.1->0 == self@.len(),
    {
        let left: usize = self.items.len() - self.position;
        (if left > 0 { 1 } else { 0 }, Some(left))
    }
}

} // verus!
