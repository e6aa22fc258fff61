//! IPS32 patch files.

use crate::patches;
use crate::patches::{Hunk, PatchVec};
use vstd::prelude::*;

verus! {

/// The address whose four bytes read `EEOF`, the mark at the end of a patch file.
pub const IPS_UNSAFE_OFFSET: u32 = 0x4545_4f46;

/// The most bytes that one record can set.
pub const IPS_MAX_HUNK_SIZE: u32 = 0xffff;

// ---------------------------------------------------------------------------------------------
// Model

/// One record of a patch file.
#[verifier::ext_equal]
pub enum IpsRecord {
    /// The bytes to put at an address.
    Bytes { offset: u32, data: Seq<u8> },
    /// A byte to put `count` times from an address on.
    Run { offset: u32, byte: u8, count: int },
}

impl IpsRecord {
    /// The address of the first byte that the record sets.
    pub open spec fn offset(self) -> u32 {
        match self {
            IpsRecord::Bytes { offset, data } => offset,
            IpsRecord::Run { offset, byte, count } => offset,
        }
    }

    /// The bytes that the record sets.
    pub open spec fn bytes(self) -> Seq<u8> {
        match self {
            IpsRecord::Bytes { offset, data } => data,
            IpsRecord::Run { offset, byte, count } => Seq::new(count as nat, |i: int| byte),
        }
    }

    /// The record sets at least one byte, and no more than a record can.
    pub open spec fn fits(self) -> bool {
        match self {
            IpsRecord::Bytes { offset, data } => 1 <= data.len() <= IPS_MAX_HUNK_SIZE,
            IpsRecord::Run { offset, byte, count } => 1 <= count <= IPS_MAX_HUNK_SIZE,
        }
    }
}

/// The end of the run of bytes equal to the one at `i`, known to reach `j`, within `end`.
pub open spec fn run_stop(h: Seq<u8>, i: int, j: int, end: int) -> int
    decreases end - j,
{
    if j < end && h[j] == h[i] {
        run_stop(h, i, j + 1, end)
    } else {
        j
    }
}

/// The end of the run of equal bytes that starts at `i`.
pub open spec fn run_from(h: Seq<u8>, i: int, end: int) -> int {
    run_stop(h, i, i + 1, end)
}

/// The start of the run of bytes equal to the last one before `end`, known to start at `j` or
/// earlier, within `start`.
pub open spec fn run_start(h: Seq<u8>, start: int, j: int, end: int) -> int
    decreases j - start,
{
    if j > start && h[j - 1] == h[end - 1] {
        run_start(h, start, j - 1, end)
    } else {
        j
    }
}

/// Where the first run of at least 15 equal bytes starts, or `end`.
pub open spec fn long_run(h: Seq<u8>, i: int, end: int) -> int
    decreases end - i,
{
    if i >= end {
        end
    } else if run_from(h, i, end) - i >= 15 {
        i
    } else {
        long_run(h, i + 1, end)
    }
}

pub open spec fn bytes_record(base: u32, h: Seq<u8>, i: int, j: int) -> IpsRecord {
    IpsRecord::Bytes { offset: (base + i) as u32, data: h.subrange(i, j) }
}

pub open spec fn run_record(base: u32, h: Seq<u8>, i: int, j: int) -> IpsRecord {
    IpsRecord::Run { offset: (base + i) as u32, byte: h[i], count: j - i }
}

/// The records for the bytes `i..end` of a hunk at `base`: long runs, and what lies between them.
pub open spec fn middle_records(base: u32, h: Seq<u8>, i: int, end: int) -> Seq<IpsRecord>
    decreases end - i,
{
    if i >= end {
        Seq::empty()
    } else {
        let n = long_run(h, i, end);
        let e = run_from(h, n, end);
        if n >= end || n < i || e <= n || e > end {
            seq![bytes_record(base, h, i, end)]
        } else {
            (if i < n {
                seq![bytes_record(base, h, i, n)]
            } else {
                Seq::empty()
            }) + seq![run_record(base, h, n, e)] + middle_records(base, h, e, end)
        }
    }
}

/// The shortest records for a hunk. A run of at least 10 equal bytes at either end is a record of
/// its own.
pub open spec fn short_records(base: u32, h: Seq<u8>) -> Seq<IpsRecord> {
    let len = h.len() as int;
    if len <= 3 {
        seq![bytes_record(base, h, 0, len)]
    } else if run_from(h, 0, len) >= len {
        seq![run_record(base, h, 0, len)]
    } else if len <= 14 {
        seq![bytes_record(base, h, 0, len)]
    } else {
        let p = if run_from(h, 0, len) >= 10 {
            run_from(h, 0, len)
        } else {
            0
        };
        let t = run_start(h, p, len - 1, len);
        let q = if len - t >= 10 {
            t
        } else {
            len
        };
        let head = if p > 0 {
            seq![run_record(base, h, 0, p)]
        } else {
            Seq::empty()
        };
        let tail = if q < len {
            seq![run_record(base, h, q, len)]
        } else {
            Seq::empty()
        };
        head + middle_records(base, h, p, q) + tail
    }
}

/// No record starts at the address that reads as the end mark.
pub open spec fn avoids_end_mark(rs: Seq<IpsRecord>) -> bool {
    forall|i: int| 0 <= i < rs.len() ==> (#[trigger] rs[i]).offset() != IPS_UNSAFE_OFFSET
}

/// The records for the bytes `i..j` of a hunk, none for no bytes.
pub open spec fn piece_records(base: u32, h: Seq<u8>, i: int, j: int) -> Seq<IpsRecord> {
    if i < j {
        short_records((base + i) as u32, h.subrange(i, j))
    } else {
        Seq::empty()
    }
}

/// The records for a hunk: the shortest ones, where none of them starts at the address that reads
/// as the end mark. Otherwise the byte at that address and the one before it are a record of
/// their own, and what lies before and behind them is written as if it stood alone.
pub open spec fn hunk_records(base: u32, h: Seq<u8>) -> Seq<IpsRecord> {
    let short = short_records(base, h);
    let k = IPS_UNSAFE_OFFSET - base;
    if avoids_end_mark(short) || !(0 < k < h.len()) {
        short
    } else {
        piece_records(base, h, 0, k - 1) + seq![bytes_record(base, h, k - 1, k + 1)]
            + piece_records(base, h, k + 1, h.len() as int)
    }
}

/// The hunks to write for one hunk of the patch. Where the address `IPS_UNSAFE_OFFSET` is
/// patched, the byte before it moves from the end of one hunk to the start of the next, so that
/// no hunk starts at that address.
pub open spec fn safe_hunks(m: Map<u32, u8>, h: (u32, Seq<u8>)) -> Seq<(u32, Seq<u8>)> {
    if !m.contains_key(IPS_UNSAFE_OFFSET) {
        seq![h]
    } else if h.0 + h.1.len() == IPS_UNSAFE_OFFSET {
        seq![(h.0, h.1.drop_last())]
    } else if h.0 == IPS_UNSAFE_OFFSET {
        let before = (IPS_UNSAFE_OFFSET - 1) as u32;
        if h.1.len() == IPS_MAX_HUNK_SIZE {
            seq![
                (before, seq![m[before]] + h.1.drop_last()),
                ((before + IPS_MAX_HUNK_SIZE) as u32, seq![h.1.last()]),
            ]
        } else {
            seq![(before, seq![m[before]] + h.1)]
        }
    } else {
        seq![h]
    }
}

/// The hunks to write for a list of hunks.
pub open spec fn all_safe_hunks(m: Map<u32, u8>, hs: Seq<(u32, Seq<u8>)>) -> Seq<(u32, Seq<u8>)>
    decreases hs.len(),
{
    if hs.len() == 0 {
        Seq::empty()
    } else {
        all_safe_hunks(m, hs.drop_last()) + safe_hunks(m, hs.last())
    }
}

/// The records for a list of hunks.
pub open spec fn all_records(hs: Seq<(u32, Seq<u8>)>) -> Seq<IpsRecord>
    decreases hs.len(),
{
    if hs.len() == 0 {
        Seq::empty()
    } else {
        all_records(hs.drop_last()) + hunk_records(hs.last().0, hs.last().1)
    }
}

/// The records of a patch.
pub open spec fn ips_records(m: Map<u32, u8>) -> Seq<IpsRecord> {
    all_records(all_safe_hunks(m, patches::hunks(m, IPS_MAX_HUNK_SIZE as int)))
}

pub open spec fn be16(n: int) -> Seq<u8> {
    seq![(n / 0x100) as u8, (n % 0x100) as u8]
}

pub open spec fn be32(n: u32) -> Seq<u8> {
    seq![
        (n / 0x100_0000) as u8,
        (n / 0x1_0000 % 0x100) as u8,
        (n / 0x100 % 0x100) as u8,
        (n % 0x100) as u8,
    ]
}

/// A record in a patch file: the offset in four bytes, the length in two and the bytes; for a
/// run two zero bytes, the count in two and the byte.
pub open spec fn encode_record(r: IpsRecord) -> Seq<u8> {
    match r {
        IpsRecord::Bytes { offset, data } => be32(offset) + be16(data.len() as int) + data,
        IpsRecord::Run { offset, byte, count } => be32(offset) + seq![0u8, 0u8] + be16(count)
            + seq![byte],
    }
}

pub open spec fn encode_records(rs: Seq<IpsRecord>) -> Seq<u8>
    decreases rs.len(),
{
    if rs.len() == 0 {
        Seq::empty()
    } else {
        encode_records(rs.drop_last()) + encode_record(rs.last())
    }
}

/// `IPS32`.
pub open spec fn ips_head() -> Seq<u8> {
    seq![0x49u8, 0x50, 0x53, 0x33, 0x32]
}

/// `EEOF`.
pub open spec fn ips_end() -> Seq<u8> {
    seq![0x45u8, 0x45, 0x4f, 0x46]
}

/// A patch file of the given records.
pub open spec fn ips_file(rs: Seq<IpsRecord>) -> Seq<u8> {
    ips_head() + encode_records(rs) + ips_end()
}

/// The two bytes at `i`, the high one first.
pub open spec fn read16(b: Seq<u8>, i: int) -> int {
    b[i] * 0x100 + b[i + 1]
}

/// The four bytes at `i`, the highest one first.
pub open spec fn read32(b: Seq<u8>, i: int) -> int {
    b[i] * 0x100_0000 + b[i + 1] * 0x1_0000 + b[i + 2] * 0x100 + b[i + 3]
}

/// The records that a reader of the format finds from `i` on, up to the end mark.
pub open spec fn read_records(b: Seq<u8>, i: int) -> Option<Seq<IpsRecord>>
    decreases b.len() - i,
{
    if i < 0 || i + 4 > b.len() {
        None
    } else if b.subrange(i, i + 4) == ips_end() {
        Some(Seq::empty())
    } else if i + 6 > b.len() {
        None
    } else if read16(b, i + 4) > 0 {
        let n = read16(b, i + 4);
        if i + 6 + n > b.len() {
            None
        } else {
            match read_records(b, i + 6 + n) {
                None => None,
                Some(rest) => Some(
                    seq![IpsRecord::Bytes {
                        offset: read32(b, i) as u32,
                        data: b.subrange(i + 6, i + 6 + n),
                    }] + rest,
                ),
            }
        }
    } else if i + 9 > b.len() {
        None
    } else {
        match read_records(b, i + 9) {
            None => None,
            Some(rest) => Some(
                seq![IpsRecord::Run {
                    offset: read32(b, i) as u32,
                    byte: b[i + 8],
                    count: read16(b, i + 6),
                }] + rest,
            ),
        }
    }
}

/// The records put into `m` one after the other.
pub open spec fn apply_records(m: Map<u32, u8>, rs: Seq<IpsRecord>) -> Map<u32, u8>
    decreases rs.len(),
{
    if rs.len() == 0 {
        m
    } else {
        patches::put_all(
            apply_records(m, rs.drop_last()),
            rs.last().offset(),
            rs.last().bytes(),
        )
    }
}

// ---------------------------------------------------------------------------------------------
// Facts about runs

proof fn lemma_run_stop(h: Seq<u8>, i: int, j: int, end: int)
    requires
        0 <= i < j <= end <= h.len(),
        forall|k: int| i <= k < j ==> h[k] == h[i],
    ensures
        j <= run_stop(h, i, j, end) <= end,
        forall|k: int| i <= k < run_stop(h, i, j, end) ==> h[k] == h[i],
    decreases end - j,
{
    if j < end && h[j] == h[i] {
        lemma_run_stop(h, i, j + 1, end);
    }
}

proof fn lemma_run_start(h: Seq<u8>, start: int, j: int, end: int)
    requires
        0 <= start <= j < end <= h.len(),
        forall|k: int| j <= k < end ==> #[trigger] h[k] == h[end - 1],
    ensures
        start <= run_start(h, start, j, end) <= j,
        forall|k: int| run_start(h, start, j, end) <= k < end ==> #[trigger] h[k] == h[end - 1],
    decreases j - start,
{
    if j > start && h[j - 1] == h[end - 1] {
        lemma_run_start(h, start, j - 1, end);
    }
}

proof fn lemma_long_run(h: Seq<u8>, i: int, end: int)
    requires
        0 <= i <= end <= h.len(),
    ensures
        i <= long_run(h, i, end) <= end,
        long_run(h, i, end) < end ==> run_from(h, long_run(h, i, end), end) - long_run(h, i, end)
            >= 15,
    decreases end - i,
{
    if i < end && run_from(h, i, end) - i < 15 {
        lemma_long_run(h, i + 1, end);
    }
}

proof fn lemma_encode_concat(a: Seq<IpsRecord>, b: Seq<IpsRecord>)
    ensures
        encode_records(a + b) == encode_records(a) + encode_records(b),
    decreases b.len(),
{
    if b.len() == 0 {
        assert(a + b =~= a);
    } else {
        assert((a + b).drop_last() =~= a + b.drop_last());
        assert((a + b).last() == b.last());
        lemma_encode_concat(a, b.drop_last());
        assert(encode_records(a + b) =~= encode_records(a) + encode_records(b));
    }
}

proof fn lemma_encode_one(r: IpsRecord)
    ensures
        encode_records(seq![r]) == encode_record(r),
{
    let rs = seq![r];
    assert(rs.drop_last() =~= Seq::empty());
    assert(rs.last() == r);
    reveal_with_fuel(encode_records, 2);
    assert(encode_records(rs) =~= encode_record(r));
}

proof fn lemma_apply_concat(m: Map<u32, u8>, a: Seq<IpsRecord>, b: Seq<IpsRecord>)
    ensures
        apply_records(m, a + b) == apply_records(apply_records(m, a), b),
    decreases b.len(),
{
    if b.len() == 0 {
        assert(a + b =~= a);
    } else {
        assert((a + b).drop_last() =~= a + b.drop_last());
        assert((a + b).last() == b.last());
        lemma_apply_concat(m, a, b.drop_last());
    }
}

proof fn lemma_apply_one(m: Map<u32, u8>, r: IpsRecord)
    ensures
        apply_records(m, seq![r]) == patches::put_all(m, r.offset(), r.bytes()),
{
    let rs = seq![r];
    assert(rs.drop_last() =~= Seq::empty());
    reveal_with_fuel(apply_records, 2);
}

/// Every record is within the format's limits.
pub open spec fn all_fit(rs: Seq<IpsRecord>) -> bool {
    forall|i: int| 0 <= i < rs.len() ==> (#[trigger] rs[i]).fits()
}

/// The address behind the last byte that a record sets.
pub open spec fn record_end(r: IpsRecord) -> int {
    r.offset() + r.bytes().len()
}

/// The records set addresses from `start` to `end`, each of them behind the ones before it.
pub open spec fn ascends(rs: Seq<IpsRecord>, start: int, end: int) -> bool {
    &&& forall|i: int|
        0 <= i < rs.len() ==> start <= (#[trigger] rs[i]).offset() && record_end(rs[i]) <= end
    &&& forall|i: int, j: int|
        0 <= i < j < rs.len() ==> record_end(#[trigger] rs[i]) <= (#[trigger] rs[j]).offset()
}

proof fn lemma_ascends_concat(a: Seq<IpsRecord>, b: Seq<IpsRecord>, start: int, mid: int, end: int)
    requires
        start <= mid <= end,
        ascends(a, start, mid),
        ascends(b, mid, end),
        all_fit(a),
        all_fit(b),
    ensures
        ascends(a + b, start, end),
        all_fit(a + b),
{
    let all = a + b;
    assert forall|k: int| 0 <= k < all.len() implies (#[trigger] all[k]).fits() by {
        if k < a.len() {
            assert(all[k] == a[k]);
        } else {
            assert(all[k] == b[k - a.len()]);
        }
    }
    assert forall|k: int| 0 <= k < all.len() implies start <= (#[trigger] all[k]).offset()
        && record_end(all[k]) <= end by {
        if k < a.len() {
            assert(all[k] == a[k]);
        } else {
            assert(all[k] == b[k - a.len()]);
        }
    }
    assert forall|i: int, j: int| 0 <= i < j < all.len() implies record_end(#[trigger] all[i]) <= (
    #[trigger] all[j]).offset() by {
        if j < a.len() {
            assert(all[i] == a[i] && all[j] == a[j]);
        } else if i >= a.len() {
            assert(all[i] == b[i - a.len()] && all[j] == b[j - a.len()]);
        } else {
            assert(all[i] == a[i] && all[j] == b[j - a.len()]);
        }
    }
}

proof fn lemma_avoids_concat(a: Seq<IpsRecord>, b: Seq<IpsRecord>)
    ensures
        avoids_end_mark(a + b) == (avoids_end_mark(a) && avoids_end_mark(b)),
{
    let all = a + b;
    if avoids_end_mark(all) {
        assert forall|k: int| 0 <= k < a.len() implies (#[trigger] a[k]).offset()
            != IPS_UNSAFE_OFFSET by {
            assert(all[k] == a[k]);
        }
        assert forall|k: int| 0 <= k < b.len() implies (#[trigger] b[k]).offset()
            != IPS_UNSAFE_OFFSET by {
            assert(all[k + a.len()] == b[k]);
        }
    }
}

proof fn lemma_avoids_one(r: IpsRecord)
    ensures
        avoids_end_mark(seq![r]) == (r.offset() != IPS_UNSAFE_OFFSET),
{
    assert(seq![r][0] == r);
}

proof fn lemma_middle_records(m: Map<u32, u8>, base: u32, h: Seq<u8>, i: int, end: int)
    requires
        0 <= i <= end <= h.len() <= IPS_MAX_HUNK_SIZE,
        base + end <= patches::TOP + 1,
        i < end ==> base + i <= patches::TOP,
    ensures
        i < end ==> apply_records(m, middle_records(base, h, i, end)) == patches::put_all(
            m,
            (base + i) as u32,
            h.subrange(i, end),
        ),
        i >= end ==> middle_records(base, h, i, end).len() == 0,
        all_fit(middle_records(base, h, i, end)),
        ascends(middle_records(base, h, i, end), base + i, base + end),
    decreases end - i,
{
    if i < end {
        lemma_long_run(h, i, end);
        let n = long_run(h, i, end);
        if n >= end {
            lemma_apply_one(m, bytes_record(base, h, i, end));
        } else {
            lemma_run_stop(h, n, n + 1, end);
            let e = run_from(h, n, end);
            let first = if i < n {
                seq![bytes_record(base, h, i, n)]
            } else {
                Seq::empty()
            };
            let second = run_record(base, h, n, e);
            let rest = middle_records(base, h, e, end);
            let two = first + seq![second];
            assert(second.bytes() =~= h.subrange(n, e));
            lemma_apply_concat(m, two, rest);
            lemma_apply_concat(m, first, seq![second]);
            let m1 = if i < n {
                patches::put_all(m, (base + i) as u32, h.subrange(i, n))
            } else {
                m
            };
            if i < n {
                lemma_apply_one(m, bytes_record(base, h, i, n));
            }
            lemma_apply_one(m1, second);
            let m2 = patches::put_all(m, (base + i) as u32, h.subrange(i, e));
            assert(apply_records(m, two) == m2) by {
                if i < n {
                    patches::lemma_put_join(
                        m,
                        (base + i) as u32,
                        h.subrange(i, n),
                        h.subrange(n, e),
                    );
                    assert(h.subrange(i, n) + h.subrange(n, e) =~= h.subrange(i, e));
                }
            }
            lemma_middle_records(m2, base, h, e, end);
            if e < end {
                patches::lemma_put_join(m, (base + i) as u32, h.subrange(i, e), h.subrange(e, end));
                assert(h.subrange(i, e) + h.subrange(e, end) =~= h.subrange(i, end));
            } else {
                assert(two + rest =~= two);
            }
            lemma_ascends_concat(first, seq![second], base + i, base + n, base + e);
            lemma_ascends_concat(two, rest, base + i, base + e, base + end);
        }
    }
}

/// The shortest records of a hunk put just the bytes of the hunk.
#[verifier::spinoff_prover]
#[verifier::rlimit(40)]
proof fn lemma_short_records(m: Map<u32, u8>, base: u32, h: Seq<u8>)
    requires
        1 <= h.len() <= IPS_MAX_HUNK_SIZE,
        base + h.len() <= patches::TOP + 1,
    ensures
        apply_records(m, short_records(base, h)) == patches::put_all(m, base, h),
        all_fit(short_records(base, h)),
        ascends(short_records(base, h), base as int, base + h.len()),
{
    let len = h.len() as int;
    assert(h.subrange(0, len) =~= h);
    lemma_run_stop(h, 0, 1, len);
    let r0 = run_from(h, 0, len);
    if len <= 3 || (r0 < len && len <= 14) {
        lemma_apply_one(m, bytes_record(base, h, 0, len));
    } else if r0 >= len {
        assert(run_record(base, h, 0, len).bytes() =~= h);
        lemma_apply_one(m, run_record(base, h, 0, len));
    } else {
        let p = if r0 >= 10 {
            r0
        } else {
            0
        };
        lemma_run_start(h, p, len - 1, len);
        let t = run_start(h, p, len - 1, len);
        let q = if len - t >= 10 {
            t
        } else {
            len
        };
        let head = if p > 0 {
            seq![run_record(base, h, 0, p)]
        } else {
            Seq::empty()
        };
        let tail = if q < len {
            seq![run_record(base, h, q, len)]
        } else {
            Seq::empty()
        };
        let middle = middle_records(base, h, p, q);
        let m1 = if p > 0 {
            patches::put_all(m, base, h.subrange(0, p))
        } else {
            m
        };
        if p > 0 {
            assert(run_record(base, h, 0, p).bytes() =~= h.subrange(0, p));
            lemma_apply_one(m, run_record(base, h, 0, p));
        }
        assert(apply_records(m, head) == m1);
        lemma_middle_records(m1, base, h, p, q);
        lemma_apply_concat(m, head, middle);
        lemma_apply_concat(m, head + middle, tail);
        let m2 = apply_records(m1, middle);
        assert(m2 == if q > 0 {
            patches::put_all(m, base, h.subrange(0, q))
        } else {
            m
        }) by {
            if p < q {
                if p > 0 {
                    patches::lemma_put_join(m, base, h.subrange(0, p), h.subrange(p, q));
                    assert(h.subrange(0, p) + h.subrange(p, q) =~= h.subrange(0, q));
                }
            } else {
                assert(p == q);
                assert(middle =~= Seq::empty());
            }
        }
        if q < len {
            assert(run_record(base, h, q, len).bytes() =~= h.subrange(q, len));
            lemma_apply_one(m2, run_record(base, h, q, len));
            if q > 0 {
                patches::lemma_put_join(m, base, h.subrange(0, q), h.subrange(q, len));
                assert(h.subrange(0, q) + h.subrange(q, len) =~= h);
            }
        }
        lemma_ascends_concat(head, middle, base as int, base + p, base + q);
        lemma_ascends_concat(head + middle, tail, base as int, base + q, base + len);
    }
}

/// The records of a piece of a hunk put just the bytes of the piece.
proof fn lemma_piece_records(m: Map<u32, u8>, base: u32, h: Seq<u8>, i: int, j: int)
    requires
        0 <= i <= j <= h.len() <= IPS_MAX_HUNK_SIZE,
        base + h.len() <= patches::TOP + 1,
    ensures
        i < j ==> apply_records(m, piece_records(base, h, i, j)) == patches::put_all(
            m,
            (base + i) as u32,
            h.subrange(i, j),
        ),
        i == j ==> piece_records(base, h, i, j).len() == 0,
        all_fit(piece_records(base, h, i, j)),
        ascends(piece_records(base, h, i, j), base + i, base + j),
{
    if i < j {
        lemma_short_records(m, (base + i) as u32, h.subrange(i, j));
    }
}

/// The records of a hunk put just the bytes of the hunk, and none of them starts at the address
/// that reads as the end mark, unless the hunk does.
#[verifier::spinoff_prover]
#[verifier::rlimit(40)]
pub proof fn lemma_hunk_records(m: Map<u32, u8>, base: u32, h: Seq<u8>)
    requires
        1 <= h.len() <= IPS_MAX_HUNK_SIZE,
        base + h.len() <= patches::TOP + 1,
    ensures
        apply_records(m, hunk_records(base, h)) == patches::put_all(m, base, h),
        all_fit(hunk_records(base, h)),
        ascends(hunk_records(base, h), base as int, base + h.len()),
        base != IPS_UNSAFE_OFFSET ==> avoids_end_mark(hunk_records(base, h)),
{
    let short = short_records(base, h);
    let len = h.len() as int;
    let k = IPS_UNSAFE_OFFSET - base;
    lemma_short_records(m, base, h);
    if avoids_end_mark(short) {
    } else if !(0 < k < len) {
        let i = choose|i: int|
            0 <= i < short.len() && (#[trigger] short[i]).offset() == IPS_UNSAFE_OFFSET;
        assert(short[i].fits());
        assert(base <= short[i].offset() && record_end(short[i]) <= base + len);
    } else {
        let a = piece_records(base, h, 0, k - 1);
        let r = bytes_record(base, h, k - 1, k + 1);
        let b = piece_records(base, h, k + 1, len);
        lemma_piece_records(m, base, h, 0, k - 1);
        let m1 = apply_records(m, a);
        lemma_apply_concat(m, a, seq![r]);
        lemma_apply_one(m1, r);
        let two = h.subrange(k - 1, k + 1);
        let m2 = patches::put_all(m, base, h.subrange(0, k + 1));
        assert(apply_records(m, a + seq![r]) == m2) by {
            if k > 1 {
                patches::lemma_put_join(m, base, h.subrange(0, k - 1), two);
                assert(h.subrange(0, k - 1) + two =~= h.subrange(0, k + 1));
            } else {
                assert(a =~= Seq::empty());
            }
        }
        lemma_piece_records(m2, base, h, k + 1, len);
        lemma_apply_concat(m, a + seq![r], b);
        if k + 1 < len {
            patches::lemma_put_join(m, base, h.subrange(0, k + 1), h.subrange(k + 1, len));
            assert(h.subrange(0, k + 1) + h.subrange(k + 1, len) =~= h);
        } else {
            assert(b =~= Seq::empty());
            assert(h.subrange(0, k + 1) =~= h);
        }
        assert(avoids_end_mark(a)) by {
            assert forall|i: int| 0 <= i < a.len() implies (#[trigger] a[i]).offset()
                != IPS_UNSAFE_OFFSET by {
                assert(a[i].fits() && record_end(a[i]) <= base + (k - 1));
            }
        }
        assert(avoids_end_mark(b)) by {
            assert forall|i: int| 0 <= i < b.len() implies (#[trigger] b[i]).offset()
                != IPS_UNSAFE_OFFSET by {
                assert(b[i].offset() >= base + (k + 1));
            }
        }
        lemma_avoids_one(r);
        lemma_avoids_concat(a, seq![r]);
        lemma_avoids_concat(a + seq![r], b);
        lemma_ascends_concat(a, seq![r], base as int, base + (k - 1), base + (k + 1));
        lemma_ascends_concat(a + seq![r], b, base as int, base + (k + 1), base + len);
    }
}

// ---------------------------------------------------------------------------------------------
// The records of a patch put the patch

/// Every byte of the hunks is the one that `m` puts there.
pub open spec fn agrees(m: Map<u32, u8>, hs: Seq<(u32, Seq<u8>)>) -> bool {
    forall|i: int| 0 <= i < hs.len() ==> hunk_agrees(m, #[trigger] hs[i])
}

pub open spec fn hunk_agrees(m: Map<u32, u8>, h: (u32, Seq<u8>)) -> bool {
    &&& h.0 + h.1.len() <= patches::TOP + 1
    &&& forall|a: u32| #[trigger] covers(h, a) ==> m.contains_key(a) && m[a] == h.1[a - h.0]
}

pub open spec fn covers(h: (u32, Seq<u8>), a: u32) -> bool {
    h.0 <= a < h.0 + h.1.len()
}

proof fn lemma_put_agreeing(m: Map<u32, u8>, hs: Seq<(u32, Seq<u8>)>)
    requires
        agrees(m, hs),
    ensures
        forall|a: u32| #[trigger]
            patches::put_hunks(Map::empty(), hs).contains_key(a) <==> exists|i: int|
                0 <= i < hs.len() && covers(#[trigger] hs[i], a),
        forall|a: u32|
            patches::put_hunks(Map::empty(), hs).contains_key(a) ==> m.contains_key(a)
                && #[trigger] patches::put_hunks(Map::empty(), hs)[a] == m[a],
    decreases hs.len(),
{
    if hs.len() > 0 {
        let init = hs.drop_last();
        let h = hs.last();
        assert forall|i: int| 0 <= i < init.len() implies hunk_agrees(m, #[trigger] init[i]) by {
            assert(init[i] == hs[i]);
        }
        lemma_put_agreeing(m, init);
        let before = patches::put_hunks(Map::empty(), init);
        let after = patches::put_hunks(Map::empty(), hs);
        assert(hunk_agrees(m, hs[hs.len() - 1]));
        assert(after == patches::put_all(before, h.0, h.1));
        patches::lemma_put_all(before, h.0, h.1);
        assert forall|a: u32| #[trigger] after.contains_key(a) <==> exists|i: int|
            0 <= i < hs.len() && covers(#[trigger] hs[i], a) by {
            if after.contains_key(a) {
                if before.contains_key(a) {
                    let i = choose|i: int| 0 <= i < init.len() && covers(#[trigger] init[i], a);
                    assert(covers(hs[i], a));
                } else {
                    assert(covers(hs[hs.len() - 1], a));
                }
            }
            if exists|i: int| 0 <= i < hs.len() && covers(#[trigger] hs[i], a) {
                let i = choose|i: int| 0 <= i < hs.len() && covers(#[trigger] hs[i], a);
                if i < init.len() {
                    assert(covers(init[i], a));
                    assert(before.contains_key(a));
                }
            }
        }
        assert forall|a: u32| after.contains_key(a) implies m.contains_key(a)
            && #[trigger] after[a] == m[a] by {
            if !covers(h, a) {
                assert(before.contains_key(a));
                assert(before[a] == after[a]);
            }
        }
    }
}

/// A list of hunks that build `m` in order without overlap agrees with `m`.
pub proof fn lemma_hunks_agree(m: Map<u32, u8>, max: int)
    requires
        max > 0,
    ensures
        agrees(m, patches::hunks(m, max)),
        forall|a: u32| #[trigger]
            m.contains_key(a) ==> exists|i: int|
                0 <= i < patches::hunks(m, max).len() && covers(
                    #[trigger] patches::hunks(m, max)[i],
                    a,
                ),
{
    patches::law_hunks_rebuild(m, max);
    let hs = patches::hunks(m, max);
    lemma_disjoint_agree(hs, max);
    assert(patches::put_hunks(Map::empty(), hs) == m);
    lemma_put_agreeing(m, hs);
}

proof fn lemma_disjoint_agree(hs: Seq<(u32, Seq<u8>)>, max: int)
    requires
        patches::hunks_sound(hs, max),
        patches::hunks_maximal(hs, max),
    ensures
        agrees(patches::put_hunks(Map::empty(), hs), hs),
    decreases hs.len(),
{
    if hs.len() > 0 {
        let init = hs.drop_last();
        let h = hs.last();
        assert forall|i: int| 0 <= i < init.len() implies {
            let g = #[trigger] init[i];
            1 <= g.1.len() <= max && g.0 + g.1.len() <= patches::TOP + 1
        } by {
            assert(init[i] == hs[i]);
        }
        assert forall|i: int, j: int| 0 <= i < j < init.len() implies {
            let g = #[trigger] init[i];
            let k = #[trigger] init[j];
            &&& g.0 + g.1.len() <= k.0
            &&& g.1.len() < max ==> g.0 + g.1.len() < k.0
        } by {
            assert(init[i] == hs[i] && init[j] == hs[j]);
        }
        lemma_disjoint_agree(init, max);
        let before = patches::put_hunks(Map::empty(), init);
        let after = patches::put_hunks(Map::empty(), hs);
        assert(hs[hs.len() - 1] == h);
        assert(after == patches::put_all(before, h.0, h.1));
        patches::lemma_put_all(before, h.0, h.1);
        assert forall|i: int| 0 <= i < hs.len() implies hunk_agrees(after, #[trigger] hs[i]) by {
            let g = hs[i];
            assert forall|a: u32| #[trigger] covers(g, a) implies after.contains_key(a) && after[a]
                == g.1[a - g.0] by {
                assert(after.contains_key(a) || !before.contains_key(a));
                if i < init.len() {
                    assert(init[i] == g);
                    assert(hunk_agrees(before, init[i]));
                    assert(before[a] == g.1[a - g.0]);
                    assert(hs[i].0 + hs[i].1.len() <= hs[hs.len() - 1].0);
                }
            }
        }
    }
}

/// `p` is written for one of the hunks.
pub open spec fn written_for(m: Map<u32, u8>, hs: Seq<(u32, Seq<u8>)>, p: (u32, Seq<u8>)) -> bool {
    exists|i: int| 0 <= i < hs.len() && safe_hunks(m, #[trigger] hs[i]).contains(p)
}

proof fn lemma_safe_hunks_of(m: Map<u32, u8>, hs: Seq<(u32, Seq<u8>)>)
    ensures
        forall|p: (u32, Seq<u8>)| #[trigger]
            all_safe_hunks(m, hs).contains(p) <==> written_for(m, hs, p),
    decreases hs.len(),
{
    if hs.len() > 0 {
        let init = hs.drop_last();
        lemma_safe_hunks_of(m, init);
        let a = all_safe_hunks(m, init);
        let b = safe_hunks(m, hs.last());
        let all = all_safe_hunks(m, hs);
        assert(all == a + b);
        assert(hs[hs.len() - 1] == hs.last());
        assert forall|p: (u32, Seq<u8>)| #[trigger] all.contains(p) <==> written_for(m, hs, p) by {
            if all.contains(p) {
                let j = choose|j: int| 0 <= j < all.len() && all[j] == p;
                if j < a.len() {
                    assert(a[j] == p);
                    assert(a.contains(p));
                    let i = choose|i: int|
                        0 <= i < init.len() && safe_hunks(m, #[trigger] init[i]).contains(p);
                    assert(init[i] == hs[i]);
                } else {
                    assert(b[j - a.len()] == p);
                    assert(safe_hunks(m, hs[hs.len() - 1]).contains(p));
                }
            }
            if written_for(m, hs, p) {
                let i = choose|i: int|
                    0 <= i < hs.len() && safe_hunks(m, #[trigger] hs[i]).contains(p);
                if i < init.len() {
                    assert(init[i] == hs[i]);
                    assert(written_for(m, init, p));
                    assert(a.contains(p));
                    let j = choose|j: int| 0 <= j < a.len() && a[j] == p;
                    assert(all[j] == p);
                } else {
                    let k = choose|k: int| 0 <= k < b.len() && b[k] == p;
                    assert(all[a.len() + k] == p);
                }
            }
        }
    } else {
        assert forall|p: (u32, Seq<u8>)| !written_for(m, hs, p) by {}
    }
}

/// A hunk that lies within the addresses and is as long as a record can be at most.
pub open spec fn hunk_fits(h: (u32, Seq<u8>)) -> bool {
    1 <= h.1.len() <= IPS_MAX_HUNK_SIZE && h.0 + h.1.len() <= patches::TOP + 1
}

/// What is written for one hunk: it fits, is what the patch puts, does not start at the end mark
/// and reaches all addresses that the hunk reaches, but for the one that moves.
pub open spec fn written_well(m: Map<u32, u8>, h: (u32, Seq<u8>)) -> bool {
    &&& forall|p: (u32, Seq<u8>)| #[trigger]
        safe_hunks(m, h).contains(p) ==> hunk_fits(p) && hunk_agrees(m, p) && p.0
            != IPS_UNSAFE_OFFSET
    &&& forall|a: u32| #[trigger]
        covers(h, a) && !(m.contains_key(IPS_UNSAFE_OFFSET) && h.0 + h.1.len() == IPS_UNSAFE_OFFSET
            && a == IPS_UNSAFE_OFFSET - 1) ==> reaches(safe_hunks(m, h), a)
    &&& m.contains_key(IPS_UNSAFE_OFFSET) && h.0 == IPS_UNSAFE_OFFSET ==> reaches(
        safe_hunks(m, h),
        (IPS_UNSAFE_OFFSET - 1) as u32,
    )
}

/// One of the hunks sets the address.
pub open spec fn reaches(ps: Seq<(u32, Seq<u8>)>, a: u32) -> bool {
    exists|p: (u32, Seq<u8>)| ps.contains(p) && #[trigger] covers(p, a)
}

/// What `safe_hunks` asks of a hunk of the patch.
pub open spec fn sound_hunk(m: Map<u32, u8>, h: (u32, Seq<u8>)) -> bool {
    &&& hunk_fits(h)
    &&& hunk_agrees(m, h)
    &&& (m.contains_key(IPS_UNSAFE_OFFSET) && h.0 + h.1.len() == IPS_UNSAFE_OFFSET) ==> h.1.len()
        == IPS_MAX_HUNK_SIZE
}

proof fn lemma_one_safe_hunk(m: Map<u32, u8>, h: (u32, Seq<u8>), p: (u32, Seq<u8>))
    requires
        hunk_fits(h),
        hunk_agrees(m, h),
        m.contains_key((IPS_UNSAFE_OFFSET - 1) as u32),
        1 <= p.1.len() <= IPS_MAX_HUNK_SIZE,
        h.0 <= p.0 + 1,
        p.0 + p.1.len() <= h.0 + h.1.len(),
        forall|k: int|
            0 <= k < p.1.len() ==> #[trigger] p.1[k] == if p.0 + k < h.0 {
                m[(IPS_UNSAFE_OFFSET - 1) as u32]
            } else {
                h.1[p.0 + k - h.0]
            },
        p.0 < h.0 ==> p.0 == IPS_UNSAFE_OFFSET - 1,
    ensures
        hunk_fits(p) && hunk_agrees(m, p),
{
    assert forall|a: u32| #[trigger] covers(p, a) implies m.contains_key(a) && m[a] == p.1[a
        - p.0] by {
        if a >= h.0 {
            assert(covers(h, a));
            assert(p.1[a - p.0] == h.1[a - h.0]);
        } else {
            assert(p.1[0] == m[(IPS_UNSAFE_OFFSET - 1) as u32]);
        }
    }
}

proof fn lemma_safe_hunks(m: Map<u32, u8>, h: (u32, Seq<u8>))
    requires
        sound_hunk(m, h),
        m.contains_key(IPS_UNSAFE_OFFSET) ==> m.contains_key((IPS_UNSAFE_OFFSET - 1) as u32),
    ensures
        written_well(m, h),
{
    let ps = safe_hunks(m, h);
    let before = (IPS_UNSAFE_OFFSET - 1) as u32;
    assert(covers(h, h.0));
    if !m.contains_key(IPS_UNSAFE_OFFSET) {
        assert(ps[0] == h);
        assert forall|a: u32| #[trigger] covers(h, a) implies reaches(ps, a) by {
            assert(ps.contains(h));
        }
    } else if h.0 + h.1.len() == IPS_UNSAFE_OFFSET {
        let p = (h.0, h.1.drop_last());
        assert(ps[0] == p);
        lemma_one_safe_hunk(m, h, p);
        assert forall|a: u32| #[trigger] covers(h, a) && a != IPS_UNSAFE_OFFSET - 1 implies reaches(
            ps,
            a,
        ) by {
            assert(ps.contains(p) && covers(p, a));
        }
    } else if h.0 == IPS_UNSAFE_OFFSET {
        if h.1.len() == IPS_MAX_HUNK_SIZE {
            let p = (before, seq![m[before]] + h.1.drop_last());
            let q = ((before + IPS_MAX_HUNK_SIZE) as u32, seq![h.1.last()]);
            assert(ps[0] == p && ps[1] == q);
            lemma_one_safe_hunk(m, h, p);
            lemma_one_safe_hunk(m, h, q);
            assert forall|a: u32| #[trigger] covers(h, a) implies reaches(ps, a) by {
                assert(ps.contains(p) && ps.contains(q));
                assert(covers(p, a) || covers(q, a));
            }
            assert(ps.contains(p) && covers(p, before));
        } else {
            let p = (before, seq![m[before]] + h.1);
            assert(ps[0] == p);
            lemma_one_safe_hunk(m, h, p);
            assert forall|a: u32| #[trigger] covers(h, a) implies reaches(ps, a) by {
                assert(ps.contains(p) && covers(p, a));
            }
            assert(ps.contains(p) && covers(p, before));
        }
    } else {
        assert(ps[0] == h);
        assert forall|a: u32| #[trigger] covers(h, a) implies reaches(ps, a) by {
            assert(ps.contains(h));
        }
    }
}

/// What `safe_hunks` asks of a hunk holds of every hunk of a patch.
proof fn lemma_patch_hunks(m: Map<u32, u8>)
    ensures
        forall|i: int|
            0 <= i < patches::hunks(m, IPS_MAX_HUNK_SIZE as int).len() ==> sound_hunk(
                m,
                #[trigger] patches::hunks(m, IPS_MAX_HUNK_SIZE as int)[i],
            ),
{
    let max = IPS_MAX_HUNK_SIZE as int;
    let hs = patches::hunks(m, max);
    patches::law_hunks_rebuild(m, max);
    lemma_hunks_agree(m, max);
    assert forall|i: int| 0 <= i < hs.len() implies sound_hunk(m, #[trigger] hs[i]) by {
        assert(hunk_agrees(m, hs[i]));
        if m.contains_key(IPS_UNSAFE_OFFSET) && hs[i].0 + hs[i].1.len() == IPS_UNSAFE_OFFSET {
            let j = choose|j: int| 0 <= j < hs.len() && covers(#[trigger] hs[j], IPS_UNSAFE_OFFSET);
            if j < i {
                assert(hs[j].0 + hs[j].1.len() <= hs[i].0);
            } else {
                assert(i < j);
                assert(hs[i].0 + hs[i].1.len() <= hs[j].0);
            }
        }
    }
}

proof fn lemma_records_of(m: Map<u32, u8>, ps: Seq<(u32, Seq<u8>)>)
    requires
        forall|i: int| 0 <= i < ps.len() ==> hunk_fits(#[trigger] ps[i]),
    ensures
        apply_records(m, all_records(ps)) == patches::put_hunks(m, ps),
        all_fit(all_records(ps)),
        (forall|i: int| 0 <= i < ps.len() ==> (#[trigger] ps[i]).0 != IPS_UNSAFE_OFFSET)
            ==> avoids_end_mark(all_records(ps)),
    decreases ps.len(),
{
    if ps.len() > 0 {
        let init = ps.drop_last();
        let p = ps.last();
        assert forall|i: int| 0 <= i < init.len() implies hunk_fits(#[trigger] init[i]) by {
            assert(init[i] == ps[i]);
        }
        lemma_records_of(m, init);
        let a = all_records(init);
        let b = hunk_records(p.0, p.1);
        assert(hunk_fits(ps[ps.len() - 1]));
        lemma_apply_concat(m, a, b);
        lemma_hunk_records(apply_records(m, a), p.0, p.1);
        lemma_avoids_concat(a, b);
        if forall|i: int| 0 <= i < ps.len() ==> (#[trigger] ps[i]).0 != IPS_UNSAFE_OFFSET {
            assert(ps[ps.len() - 1].0 != IPS_UNSAFE_OFFSET);
            assert forall|i: int| 0 <= i < init.len() implies (#[trigger] init[i]).0
                != IPS_UNSAFE_OFFSET by {
                assert(init[i] == ps[i]);
            }
        }
        let all = a + b;
        assert forall|k: int| 0 <= k < all.len() implies (#[trigger] all[k]).fits() by {
            if k >= a.len() {
                assert(all[k] == b[k - a.len()]);
            } else {
                assert(all[k] == a[k]);
            }
        }
    }
}

/// Every hunk that is written fits, is what the patch puts and does not start at the end mark.
proof fn lemma_written(m: Map<u32, u8>, p: (u32, Seq<u8>))
    requires
        !patches::starts_hunk(m, IPS_UNSAFE_OFFSET),
        all_safe_hunks(m, patches::hunks(m, IPS_MAX_HUNK_SIZE as int)).contains(p),
    ensures
        hunk_fits(p) && hunk_agrees(m, p) && p.0 != IPS_UNSAFE_OFFSET,
{
    let hs = patches::hunks(m, IPS_MAX_HUNK_SIZE as int);
    lemma_safe_hunks_of(m, hs);
    lemma_patch_hunks(m);
    let i = choose|i: int| 0 <= i < hs.len() && safe_hunks(m, #[trigger] hs[i]).contains(p);
    lemma_safe_hunks(m, hs[i]);
}

/// Every byte of the patch is in a hunk that is written.
proof fn lemma_all_written(m: Map<u32, u8>, a: u32)
    requires
        !patches::starts_hunk(m, IPS_UNSAFE_OFFSET),
        m.contains_key(a),
    ensures
        reaches(all_safe_hunks(m, patches::hunks(m, IPS_MAX_HUNK_SIZE as int)), a),
{
    let max = IPS_MAX_HUNK_SIZE as int;
    let hs = patches::hunks(m, max);
    let ps = all_safe_hunks(m, hs);
    lemma_safe_hunks_of(m, hs);
    lemma_patch_hunks(m);
    lemma_hunks_agree(m, max);
    patches::law_hunks_rebuild(m, max);
    let i = choose|i: int| 0 <= i < hs.len() && covers(#[trigger] hs[i], a);
    let lost = m.contains_key(IPS_UNSAFE_OFFSET) && hs[i].0 + hs[i].1.len() == IPS_UNSAFE_OFFSET
        && a == IPS_UNSAFE_OFFSET - 1;
    let n = if lost {
        choose|n: int| 0 <= n < hs.len() && covers(#[trigger] hs[n], IPS_UNSAFE_OFFSET)
    } else {
        i
    };
    if lost {
        if n < i {
            assert(hs[n].0 + hs[n].1.len() <= hs[i].0);
        } else {
            assert(i < n);
            assert(hs[i].0 + hs[i].1.len() <= hs[n].0);
        }
        assert(hs[n].0 == IPS_UNSAFE_OFFSET);
    }
    lemma_safe_hunks(m, hs[n]);
    let p = choose|p: (u32, Seq<u8>)| safe_hunks(m, hs[n]).contains(p) && #[trigger] covers(p, a);
    assert(written_for(m, hs, p));
    assert(ps.contains(p) && covers(p, a));
}

/// The records written for a patch, put into an empty patch, give the patch back. Each of them is
/// within the limits of the format, and none starts at the address that reads as the end mark.
pub proof fn law_ips_records_rebuild(m: Map<u32, u8>)
    requires
        !patches::starts_hunk(m, IPS_UNSAFE_OFFSET),
    ensures
        apply_records(Map::empty(), ips_records(m)) == m,
        all_fit(ips_records(m)),
        avoids_end_mark(ips_records(m)),
{
    let ps = all_safe_hunks(m, patches::hunks(m, IPS_MAX_HUNK_SIZE as int));
    assert forall|j: int| 0 <= j < ps.len() implies hunk_fits(#[trigger] ps[j]) && hunk_agrees(
        m,
        ps[j],
    ) && ps[j].0 != IPS_UNSAFE_OFFSET by {
        assert(ps.contains(ps[j]));
        lemma_written(m, ps[j]);
    }
    lemma_records_of(Map::empty(), ps);
    lemma_put_agreeing(m, ps);
    let r = patches::put_hunks(Map::empty(), ps);
    assert forall|a: u32| #[trigger] m.contains_key(a) implies r.contains_key(a) by {
        lemma_all_written(m, a);
        let p = choose|p: (u32, Seq<u8>)| ps.contains(p) && #[trigger] covers(p, a);
        let j = choose|j: int| 0 <= j < ps.len() && ps[j] == p;
        assert(covers(ps[j], a));
    }
    assert forall|a: u32| #[trigger] r.contains_key(a) implies m.contains_key(a) && r[a] == m[a] by {
        assert(r[a] == m[a]);
    }
    assert(r =~= m);
}

// ---------------------------------------------------------------------------------------------
// The records of a patch ascend

/// Where what is written for a hunk starts.
spec fn written_start(m: Map<u32, u8>, h: (u32, Seq<u8>)) -> int {
    if m.contains_key(IPS_UNSAFE_OFFSET) && h.0 == IPS_UNSAFE_OFFSET {
        IPS_UNSAFE_OFFSET - 1
    } else {
        h.0 as int
    }
}

/// Where what is written for a hunk ends.
spec fn written_end(m: Map<u32, u8>, h: (u32, Seq<u8>)) -> int {
    if m.contains_key(IPS_UNSAFE_OFFSET) && h.0 + h.1.len() == IPS_UNSAFE_OFFSET {
        IPS_UNSAFE_OFFSET - 1
    } else {
        h.0 + h.1.len()
    }
}

proof fn lemma_written_ascends(m: Map<u32, u8>, h: (u32, Seq<u8>))
    requires
        sound_hunk(m, h),
    ensures
        written_start(m, h) <= written_end(m, h),
        ascends(all_records(safe_hunks(m, h)), written_start(m, h), written_end(m, h)),
        all_fit(all_records(safe_hunks(m, h))),
{
    let ps = safe_hunks(m, h);
    let first = ps[0];
    lemma_records_one(first);
    lemma_hunk_records(Map::empty(), first.0, first.1);
    if ps.len() == 1 {
        assert(ps =~= seq![first]);
    } else {
        let second = ps[1];
        assert(ps =~= seq![first] + seq![second]);
        lemma_records_prefix(seq![first], seq![second]);
        lemma_records_one(second);
        lemma_hunk_records(Map::empty(), second.0, second.1);
        lemma_ascends_concat(
            all_records(seq![first]),
            all_records(seq![second]),
            first.0 as int,
            second.0 as int,
            second.0 + second.1.len(),
        );
    }
}

proof fn lemma_all_ascend(m: Map<u32, u8>, hs: Seq<(u32, Seq<u8>)>, max: int)
    requires
        forall|i: int| 0 <= i < hs.len() ==> sound_hunk(m, #[trigger] hs[i]),
        patches::hunks_maximal(hs, max),
    ensures
        ascends(
            all_records(all_safe_hunks(m, hs)),
            0,
            if hs.len() > 0 {
                written_end(m, hs.last())
            } else {
                0
            },
        ),
        all_fit(all_records(all_safe_hunks(m, hs))),
    decreases hs.len(),
{
    if hs.len() > 0 {
        let n = hs.len() as int;
        let before = hs.drop_last();
        let last = hs[n - 1];
        assert forall|i: int| 0 <= i < before.len() implies sound_hunk(m, #[trigger] before[i]) by {
            assert(before[i] == hs[i]);
        }
        assert(patches::hunks_maximal(before, max)) by {
            assert forall|i: int, j: int| 0 <= i < j < before.len() implies {
                let g = #[trigger] before[i];
                let h = #[trigger] before[j];
                &&& g.0 + g.1.len() <= h.0
                &&& g.1.len() < max ==> g.0 + g.1.len() < h.0
            } by {
                assert(before[i] == hs[i] && before[j] == hs[j]);
            }
        }
        lemma_all_ascend(m, before, max);
        lemma_written_ascends(m, last);
        lemma_records_prefix(all_safe_hunks(m, before), safe_hunks(m, last));
        let a = all_records(all_safe_hunks(m, before));
        let mid = written_start(m, last);
        assert(ascends(a, 0, mid)) by {
            if n > 1 {
                let g = hs[n - 2];
                assert(before.last() == g);
                assert(g.0 + g.1.len() <= last.0);
                assert(written_end(m, g) <= mid);
                assert forall|i: int| 0 <= i < a.len() implies 0 <= (#[trigger] a[i]).offset()
                    && record_end(a[i]) <= mid by {}
            } else {
                assert(before =~= Seq::empty());
            }
        }
        lemma_ascends_concat(
            a,
            all_records(safe_hunks(m, last)),
            0,
            mid,
            written_end(m, last),
        );
    }
}

/// The records of a patch come in the order of their addresses, and no two of them set the same
/// address.
pub proof fn law_ips_records_ascend(m: Map<u32, u8>)
    ensures
        ascends(ips_records(m), 0, patches::TOP + 1),
{
    let max = IPS_MAX_HUNK_SIZE as int;
    let hs = patches::hunks(m, max);
    patches::law_hunks_rebuild(m, max);
    lemma_patch_hunks(m);
    lemma_all_ascend(m, hs, max);
    let rs = ips_records(m);
    if hs.len() > 0 {
        assert(sound_hunk(m, hs[hs.len() - 1]));
    }
    assert forall|i: int| 0 <= i < rs.len() implies 0 <= (#[trigger] rs[i]).offset() && record_end(
        rs[i],
    ) <= patches::TOP + 1 by {}
}

// ---------------------------------------------------------------------------------------------
// Reading what was written

proof fn lemma_be32(n: u32)
    ensures
        be32(n).len() == 4,
        be32(n)[0] * 0x100_0000 + be32(n)[1] * 0x1_0000 + be32(n)[2] * 0x100 + be32(n)[3] == n,
        be32(n) == ips_end() ==> n == IPS_UNSAFE_OFFSET,
{
    let b = be32(n);
    assert(b[0] == n / 0x100_0000);
    assert(b[1] == n / 0x1_0000 % 0x100);
    assert(b[2] == n / 0x100 % 0x100);
    assert(b[3] == n % 0x100);
    assert((n / 0x100_0000) * 0x100_0000 + (n / 0x1_0000 % 0x100) * 0x1_0000 + (n / 0x100 % 0x100)
        * 0x100 + n % 0x100 == n) by (bit_vector);
    if b == ips_end() {
        assert(b[0] == 0x45 && b[1] == 0x45 && b[2] == 0x4f && b[3] == 0x46);
    }
}

proof fn lemma_encode_front(r: IpsRecord, rest: Seq<IpsRecord>)
    ensures
        encode_records(seq![r] + rest) == encode_record(r) + encode_records(rest),
{
    lemma_encode_concat(seq![r], rest);
    lemma_encode_one(r);
}

/// A reader finds a record at its head, unless it starts at the address of the end mark.
proof fn lemma_read_one(head: Seq<u8>, r: IpsRecord, rest: Seq<u8>)
    requires
        r.fits(),
        r.offset() != IPS_UNSAFE_OFFSET,
    ensures
        ({
            let i = head.len() as int;
            let b = head + encode_record(r) + rest;
            let j = i + encode_record(r).len();
            &&& read_records(b, j) is Some ==> read_records(b, i) == Some(
                seq![r] + read_records(b, j)->0,
            )
        }),
{
    let i = head.len() as int;
    let b = head + encode_record(r) + rest;
    lemma_be32(r.offset());
    let quad = be32(r.offset());
    assert(b.subrange(i, i + 4) =~= quad);
    assert(b[i] == quad[0] && b[i + 1] == quad[1] && b[i + 2] == quad[2] && b[i + 3] == quad[3]);
    assert(read32(b, i) == r.offset());
    match r {
        IpsRecord::Bytes { offset, data } => {
            let n = data.len() as int;
            assert(b[i + 4] == be16(n)[0] && b[i + 5] == be16(n)[1]);
            assert(read16(b, i + 4) == n);
            assert(b.subrange(i + 6, i + 6 + n) =~= data);
        },
        IpsRecord::Run { offset, byte, count } => {
            assert(b[i + 4] == 0 && b[i + 5] == 0);
            assert(b[i + 6] == be16(count)[0] && b[i + 7] == be16(count)[1]);
            assert(read16(b, i + 6) == count);
            assert(b[i + 8] == byte);
        },
    }
}

proof fn lemma_read_back(head: Seq<u8>, rs: Seq<IpsRecord>)
    requires
        all_fit(rs),
        avoids_end_mark(rs),
    ensures
        read_records(head + encode_records(rs) + ips_end(), head.len() as int) == Some(rs),
    decreases rs.len(),
{
    let i = head.len() as int;
    let b = head + encode_records(rs) + ips_end();
    if rs.len() == 0 {
        assert(b.subrange(i, i + 4) =~= ips_end());
        assert(rs =~= Seq::empty());
    } else {
        let r = rs[0];
        let rest = rs.subrange(1, rs.len() as int);
        assert(rs =~= seq![r] + rest);
        lemma_encode_front(r, rest);
        let er = encode_record(r);
        assert forall|k: int| 0 <= k < rest.len() implies (#[trigger] rest[k]).fits() by {
            assert(rest[k] == rs[k + 1]);
        }
        assert forall|k: int| 0 <= k < rest.len() implies (#[trigger] rest[k]).offset()
            != IPS_UNSAFE_OFFSET by {
            assert(rest[k] == rs[k + 1]);
        }
        lemma_read_back(head + er, rest);
        assert(b =~= (head + er) + encode_records(rest) + ips_end());
        assert(r.fits());
        lemma_read_one(head, r, encode_records(rest) + ips_end());
        assert((head + er) + encode_records(rest) + ips_end() =~= head + er + (encode_records(rest)
            + ips_end()));
    }
}

/// A reader of the patch file finds the records that were written, and they give the patch back.
pub proof fn law_ips_file_round_trip(m: Map<u32, u8>)
    requires
        !patches::starts_hunk(m, IPS_UNSAFE_OFFSET),
    ensures
        read_records(ips_file(ips_records(m)), ips_head().len() as int) == Some(ips_records(m)),
        apply_records(Map::empty(), ips_records(m)) == m,
{
    law_ips_records_rebuild(m);
    lemma_read_back(ips_head(), ips_records(m));
}

// ---------------------------------------------------------------------------------------------
// Writing

fn push32(out: &mut Vec<u8>, n: u32)
    ensures
        final(out)@ == old(out)@ + be32(n),
{
    out.push((n / 0x100_0000) as u8);
    out.push((n / 0x1_0000 % 0x100) as u8);
    out.push((n / 0x100 % 0x100) as u8);
    out.push((n % 0x100) as u8);
    assert(out@ =~= old(out)@ + be32(n));
}

fn push16(out: &mut Vec<u8>, n: usize)
    requires
        n <= 0xffff,
    ensures
        final(out)@ == old(out)@ + be16(n as int),
{
    out.push((n / 0x100) as u8);
    out.push((n % 0x100) as u8);
    assert(out@ =~= old(out)@ + be16(n as int));
}

fn push_slice(out: &mut Vec<u8>, h: &[u8], i: usize, j: usize)
    requires
        i <= j <= h@.len(),
    ensures
        final(out)@ == old(out)@ + h@.subrange(i as int, j as int),
{
    let mut k: usize = i;
    while k < j
        invariant
            i <= k <= j <= h@.len(),
            out@ == old(out)@ + h@.subrange(i as int, k as int),
        decreases j - k,
    {
        out.push(h[k]);
        k += 1;
        assert(out@ =~= old(out)@ + h@.subrange(i as int, k as int));
    }
}

fn encode_standard_hunk(out: &mut Vec<u8>, base: u32, h: &[u8], i: usize, j: usize)
    requires
        i < j <= h@.len() <= IPS_MAX_HUNK_SIZE,
        base + j <= patches::TOP + 1,
    ensures
        final(out)@ == old(out)@ + encode_record(bytes_record(base, h@, i as int, j as int)),
{
    push32(out, base + i as u32);
    push16(out, j - i);
    push_slice(out, h, i, j);
    assert(out@ =~= old(out)@ + encode_record(bytes_record(base, h@, i as int, j as int)));
}

fn encode_rle_hunk(out: &mut Vec<u8>, base: u32, h: &[u8], i: usize, j: usize)
    requires
        i < j <= h@.len() <= IPS_MAX_HUNK_SIZE,
        base + j <= patches::TOP + 1,
    ensures
        final(out)@ == old(out)@ + encode_record(run_record(base, h@, i as int, j as int)),
{
    push32(out, base + i as u32);
    out.push(0);
    out.push(0);
    push16(out, j - i);
    out.push(h[i]);
    assert(out@ =~= old(out)@ + encode_record(run_record(base, h@, i as int, j as int)));
}

fn equal_until(h: &[u8], i: usize, end: usize) -> (r: usize)
    requires
        i < end <= h@.len(),
    ensures
        r == run_from(h@, i as int, end as int),
        i < r <= end,
{
    let mut j: usize = i + 1;
    while j < end && h[j] == h[i]
        invariant
            i < j <= end <= h@.len(),
            run_from(h@, i as int, end as int) == run_stop(h@, i as int, j as int, end as int),
        decreases end - j,
    {
        j += 1;
    }
    j
}

fn equal_from(h: &[u8], start: usize, end: usize) -> (r: usize)
    requires
        start < end <= h@.len(),
    ensures
        r == run_start(h@, start as int, end - 1, end as int),
        start <= r < end,
{
    let mut j: usize = end - 1;
    while j > start && h[j - 1] == h[end - 1]
        invariant
            start <= j < end <= h@.len(),
            run_start(h@, start as int, end - 1, end as int) == run_start(
                h@,
                start as int,
                j as int,
                end as int,
            ),
        decreases j,
    {
        j -= 1;
    }
    j
}

fn next_long_run(h: &[u8], i: usize, end: usize) -> (r: usize)
    requires
        i <= end <= h@.len(),
    ensures
        r == long_run(h@, i as int, end as int),
        i <= r <= end,
{
    let mut n: usize = i;
    while n < end
        invariant
            i <= n <= end <= h@.len(),
            long_run(h@, i as int, end as int) == long_run(h@, n as int, end as int),
        decreases end - n,
    {
        if equal_until(h, n, end) - n >= 15 {
            return n;
        }
        n += 1;
    }
    n
}

/// Writes the records of the bytes `start..end` of a hunk, with a record for each long run. Tells
/// whether none of them starts at the address that reads as the end mark.
fn encode_middle(out: &mut Vec<u8>, base: u32, h: &[u8], start: usize, end: usize) -> (clean: bool)
    requires
        start <= end <= h@.len() <= IPS_MAX_HUNK_SIZE,
        base + end <= patches::TOP + 1,
    ensures
        final(out)@ == old(out)@ + encode_records(
            middle_records(base, h@, start as int, end as int),
        ),
        clean == avoids_end_mark(middle_records(base, h@, start as int, end as int)),
{
    let mut i: usize = start;
    let mut clean = true;
    let ghost whole = middle_records(base, h@, start as int, end as int);
    while i < end
        invariant
            start <= i <= end <= h@.len() <= IPS_MAX_HUNK_SIZE,
            base + end <= patches::TOP + 1,
            whole == middle_records(base, h@, start as int, end as int),
            out@ + encode_records(middle_records(base, h@, i as int, end as int)) == old(out)@
                + encode_records(whole),
            avoids_end_mark(whole) == (clean && avoids_end_mark(
                middle_records(base, h@, i as int, end as int),
            )),
        decreases end - i,
    {
        let ghost now = middle_records(base, h@, i as int, end as int);
        let ghost before = out@;
        let n = next_long_run(h, i, end);
        if n >= end {
            encode_standard_hunk(out, base, h, i, end);
            clean = clean && base + i as u32 != IPS_UNSAFE_OFFSET;
            proof {
                lemma_encode_one(bytes_record(base, h@, i as int, end as int));
                lemma_avoids_one(bytes_record(base, h@, i as int, end as int));
                assert(middle_records(base, h@, end as int, end as int) =~= Seq::empty());
                reveal_with_fuel(encode_records, 2);
                assert(out@ + encode_records(Seq::empty()) =~= out@);
            }
            i = end;
        } else {
            let e = equal_until(h, n, end);
            let ghost first = if i < n {
                seq![bytes_record(base, h@, i as int, n as int)]
            } else {
                Seq::empty()
            };
            let ghost second = run_record(base, h@, n as int, e as int);
            if i < n {
                encode_standard_hunk(out, base, h, i, n);
                clean = clean && base + i as u32 != IPS_UNSAFE_OFFSET;
                proof {
                    lemma_encode_one(bytes_record(base, h@, i as int, n as int));
                    lemma_avoids_one(bytes_record(base, h@, i as int, n as int));
                }
            }
            assert(out@ =~= before + encode_records(first));
            encode_rle_hunk(out, base, h, n, e);
            clean = clean && base + n as u32 != IPS_UNSAFE_OFFSET;
            proof {
                let rest = middle_records(base, h@, e as int, end as int);
                assert(now == first + seq![second] + rest);
                lemma_encode_one(second);
                lemma_encode_concat(first, seq![second]);
                lemma_encode_concat(first + seq![second], rest);
                assert(out@ + encode_records(rest) =~= before + encode_records(now));
                lemma_avoids_one(second);
                lemma_avoids_concat(first, seq![second]);
                lemma_avoids_concat(first + seq![second], rest);
            }
            i = e;
        }
    }
    assert(out@ + encode_records(Seq::empty()) =~= out@);
    clean
}

/// Writes the shortest records of one hunk. Tells whether none of them starts at the address that
/// reads as the end mark.
fn encode_short(out: &mut Vec<u8>, base: u32, h: &[u8]) -> (clean: bool)
    requires
        1 <= h@.len() <= IPS_MAX_HUNK_SIZE,
        base + h@.len() <= patches::TOP + 1,
    ensures
        final(out)@ == old(out)@ + encode_records(short_records(base, h@)),
        clean == avoids_end_mark(short_records(base, h@)),
{
    let len: usize = h.len();
    let ghost start = out@;
    proof {
        lemma_avoids_one(bytes_record(base, h@, 0, len as int));
        lemma_avoids_one(run_record(base, h@, 0, len as int));
    }
    if len <= 3 {
        encode_standard_hunk(out, base, h, 0, len);
        proof {
            lemma_encode_one(bytes_record(base, h@, 0, len as int));
        }
        return base != IPS_UNSAFE_OFFSET;
    }
    let r0 = equal_until(h, 0, len);
    if r0 >= len {
        encode_rle_hunk(out, base, h, 0, len);
        proof {
            lemma_encode_one(run_record(base, h@, 0, len as int));
        }
        return base != IPS_UNSAFE_OFFSET;
    }
    if len <= 14 {
        encode_standard_hunk(out, base, h, 0, len);
        proof {
            lemma_encode_one(bytes_record(base, h@, 0, len as int));
        }
        return base != IPS_UNSAFE_OFFSET;
    }
    let p: usize = if r0 >= 10 { r0 } else { 0 };
    let ghost head = if p > 0 {
        seq![run_record(base, h@, 0, p as int)]
    } else {
        Seq::empty()
    };
    let mut clean = true;
    if p > 0 {
        encode_rle_hunk(out, base, h, 0, p);
        clean = base != IPS_UNSAFE_OFFSET;
        proof {
            lemma_encode_one(run_record(base, h@, 0, p as int));
            lemma_avoids_one(run_record(base, h@, 0, p as int));
        }
    }
    assert(clean == avoids_end_mark(head));
    assert(out@ =~= start + encode_records(head));
    let t = equal_from(h, p, len);
    let q: usize = if len - t >= 10 { t } else { len };
    let ghost tail = if q < len {
        seq![run_record(base, h@, q as int, len as int)]
    } else {
        Seq::empty()
    };
    let middle_clean = encode_middle(out, base, h, p, q);
    clean = clean && middle_clean;
    let ghost middle = middle_records(base, h@, p as int, q as int);
    let ghost before = out@;
    if q < len {
        encode_rle_hunk(out, base, h, q, len);
        clean = clean && base + q as u32 != IPS_UNSAFE_OFFSET;
        proof {
            lemma_encode_one(run_record(base, h@, q as int, len as int));
            lemma_avoids_one(run_record(base, h@, q as int, len as int));
        }
    }
    proof {
        lemma_encode_concat(head, middle);
        lemma_encode_concat(head + middle, tail);
        lemma_avoids_concat(head, middle);
        lemma_avoids_concat(head + middle, tail);
        assert(out@ =~= before + encode_records(tail));
        assert(out@ =~= start + encode_records(head + middle + tail));
    }
    clean
}

/// Writes the records of the bytes `i..j` of a hunk.
fn encode_piece(out: &mut Vec<u8>, base: u32, h: &[u8], i: usize, j: usize)
    requires
        i <= j <= h@.len() <= IPS_MAX_HUNK_SIZE,
        base + h@.len() <= patches::TOP + 1,
    ensures
        final(out)@ == old(out)@ + encode_records(piece_records(base, h@, i as int, j as int)),
{
    if i < j {
        encode_short(out, base + i as u32, vstd::slice::slice_subrange(h, i, j));
    }
    assert(i >= j ==> out@ =~= old(out)@ + encode_records(Seq::empty()));
}

/// Writes the records of one hunk.
fn encode_hunk(out: &mut Vec<u8>, base: u32, h: &[u8])
    requires
        1 <= h@.len() <= IPS_MAX_HUNK_SIZE,
        base + h@.len() <= patches::TOP + 1,
    ensures
        final(out)@ == old(out)@ + encode_records(hunk_records(base, h@)),
{
    let ghost start = out@;
    let before: usize = out.len();
    let len: usize = h.len();
    let clean = encode_short(out, base, h);
    if clean || base >= IPS_UNSAFE_OFFSET || (IPS_UNSAFE_OFFSET - base) as usize >= len {
        return;
    }
    out.truncate(before);
    assert(out@ =~= start);
    let k: usize = (IPS_UNSAFE_OFFSET - base) as usize;
    encode_piece(out, base, h, 0, k - 1);
    encode_standard_hunk(out, base, h, k - 1, k + 1);
    encode_piece(out, base, h, k + 1, len);
    proof {
        let a = piece_records(base, h@, 0, k - 1);
        let r = bytes_record(base, h@, k - 1, k + 1);
        let b = piece_records(base, h@, k + 1, len as int);
        lemma_encode_one(r);
        lemma_encode_concat(a, seq![r]);
        lemma_encode_concat(a + seq![r], b);
        assert(out@ =~= start + encode_records(a + seq![r] + b));
    }
}

proof fn lemma_records_prefix(a: Seq<(u32, Seq<u8>)>, b: Seq<(u32, Seq<u8>)>)
    ensures
        all_records(a + b) == all_records(a) + all_records(b),
    decreases b.len(),
{
    if b.len() == 0 {
        assert(a + b =~= a);
        assert(all_records(a) + Seq::<IpsRecord>::empty() =~= all_records(a));
    } else {
        assert((a + b).drop_last() =~= a + b.drop_last());
        assert((a + b).last() == b.last());
        lemma_records_prefix(a, b.drop_last());
        assert(all_records(a + b) =~= all_records(a) + all_records(b));
    }
}

proof fn lemma_records_one(h: (u32, Seq<u8>))
    ensures
        all_records(seq![h]) == hunk_records(h.0, h.1),
{
    let hs = seq![h];
    assert(hs.drop_last() =~= Seq::empty());
    reveal_with_fuel(all_records, 2);
    assert(Seq::<IpsRecord>::empty() + hunk_records(h.0, h.1) =~= hunk_records(h.0, h.1));
}

proof fn lemma_safe_concat(
    m: Map<u32, u8>,
    a: Seq<(u32, Seq<u8>)>,
    b: Seq<(u32, Seq<u8>)>,
)
    ensures
        all_safe_hunks(m, a + b) == all_safe_hunks(m, a) + all_safe_hunks(m, b),
    decreases b.len(),
{
    if b.len() == 0 {
        assert(a + b =~= a);
        assert(all_safe_hunks(m, a) + all_safe_hunks(m, b) =~= all_safe_hunks(m, a));
    } else {
        assert((a + b).drop_last() =~= a + b.drop_last());
        assert((a + b).last() == b.last());
        lemma_safe_concat(m, a, b.drop_last());
        assert(all_safe_hunks(m, a + b) =~= all_safe_hunks(m, a) + all_safe_hunks(m, b));
    }
}

/// A patch that has a hunk starting at `IPS_UNSAFE_OFFSET` cannot be written.
#[derive(Clone, Copy, Debug, PartialEq, Eq)]
pub enum IpsGenerateError {
    HasEofHunk,
}

impl IpsGenerateError {
    /// The message shown for the error.
    pub fn message(&self) -> (r: &'static str)
        ensures
            r == "IPS Patch with hunk starting at address 0x45454F46 cannot be written",
    {
        "IPS Patch with hunk starting at address 0x45454F46 cannot be written"
    }
}

/// Whether the patch can be written as far as its hunks' addresses go.
pub fn check_generate_ips(vec: &PatchVec) -> (r: Result<(), IpsGenerateError>)
    ensures
        r is Err <==> patches::starts_hunk(vec@, IPS_UNSAFE_OFFSET),
        r matches Err(e) ==> e == IpsGenerateError::HasEofHunk,
{
    if vec.has_hunk_starting_at(IPS_UNSAFE_OFFSET) {
        return Err(IpsGenerateError::HasEofHunk);
    }
    Ok(())
}

/// Writes the records of what is written for one hunk of the patch.
fn encode_safe_hunk(out: &mut Vec<u8>, vec: &PatchVec, start: u32, first: Hunk)
    requires
        !patches::starts_hunk(vec@, IPS_UNSAFE_OFFSET),
        sound_hunk(vec@, (start, first@)),
    ensures
        final(out)@ == old(out)@ + encode_records(
            all_records(safe_hunks(vec@, (start, first@))),
        ),
{
    let ghost m = vec@;
    let ghost h = (start, first@);
    let ghost ps = safe_hunks(m, h);
    proof {
        lemma_safe_hunks(m, h);
    }
    let mut addr: u32 = start;
    let mut hunk = first;
    let mut extra_byte: Option<u8> = None;
    if vec.has_edit_at(IPS_UNSAFE_OFFSET) {
        if addr as u64 + hunk.len() as u64 == IPS_UNSAFE_OFFSET as u64 {
            let last: usize = hunk.len() - 1;
            hunk.remove(last);
            assert(hunk@ =~= h.1.drop_last());
        } else if addr == IPS_UNSAFE_OFFSET {
            if hunk.len() == IPS_MAX_HUNK_SIZE as usize {
                extra_byte = Some(hunk.remove(IPS_MAX_HUNK_SIZE as usize - 1));
                assert(hunk@ =~= h.1.drop_last());
            }
            let safety_byte = vec.byte_at(IPS_UNSAFE_OFFSET - 1);
            let ghost kept = hunk@;
            hunk.insert(0, safety_byte);
            assert(hunk@ =~= seq![safety_byte] + kept);
            addr = addr - 1;
        }
    }
    assert(ps[0] == (addr, hunk@));
    assert(ps.contains(ps[0]));
    proof {
        lemma_records_one(ps[0]);
        if ps.len() == 1 {
            assert(ps =~= seq![ps[0]]);
        } else {
            assert(ps =~= seq![ps[0]] + seq![ps[1]]);
            lemma_records_prefix(seq![ps[0]], seq![ps[1]]);
            lemma_records_one(ps[1]);
        }
    }
    encode_hunk(out, addr, hunk.as_slice());
    if let Some(byte) = extra_byte {
        let tail: [u8; 1] = [byte];
        encode_standard_hunk(out, addr + IPS_MAX_HUNK_SIZE, &tail, 0, 1);
        proof {
            assert(tail@ =~= ps[1].1);
            assert(tail@.subrange(0, 1) =~= tail@);
            let r1 = bytes_record(ps[1].0, ps[1].1, 0, 1);
            lemma_encode_one(r1);
            lemma_avoids_one(r1);
            lemma_encode_concat(hunk_records(ps[0].0, ps[0].1), seq![r1]);
            assert(out@ =~= old(out)@ + encode_records(all_records(ps)));
        }
    }
}

/// The patch file.
fn encode_patch(vec: &PatchVec) -> (r: Vec<u8>)
    requires
        !patches::starts_hunk(vec@, IPS_UNSAFE_OFFSET),
    ensures
        r@ == ips_file(ips_records(vec@)),
{
    let mut out: Vec<u8> = Vec::new();
    out.push(0x49);
    out.push(0x50);
    out.push(0x53);
    out.push(0x33);
    out.push(0x32);
    let ghost m = vec@;
    let ghost max = IPS_MAX_HUNK_SIZE as int;
    let ghost hs = patches::hunks(m, max);
    let ghost mut done: Seq<(u32, Seq<u8>)> = Seq::empty();
    let mut hunks = vec.iter_hunks(IPS_MAX_HUNK_SIZE);
    proof {
        lemma_patch_hunks(m);
        assert(done + patches::hunks_of(hunks@, max) =~= hs);
        assert(out@ =~= ips_head() + encode_records(Seq::empty()));
        hunks.lemma_wf();
    }
    loop
        invariant
            hunks.wf(),
            hunks.max() == max,
            max == IPS_MAX_HUNK_SIZE,
            m == vec@,
            hs == patches::hunks(m, max),
            !patches::starts_hunk(m, IPS_UNSAFE_OFFSET),
            hs == done + patches::hunks_of(hunks@, max),
            forall|i: int| 0 <= i < hs.len() ==> sound_hunk(m, #[trigger] hs[i]),
            out@ == ips_head() + encode_records(all_records(all_safe_hunks(m, done))),
        decreases hunks@.len(),
    {
        let ghost left = hunks@;
        match hunks.next() {
            None => {
                proof {
                    assert(hs =~= done);
                }
                out.push(0x45);
                out.push(0x45);
                out.push(0x4f);
                out.push(0x46);
                assert(out@ =~= ips_file(all_records(all_safe_hunks(m, done))));
                return out;
            },
            Some((start, hunk)) => {
                let ghost h = (start, hunk@);
                let ghost rest = patches::hunks_of(hunks@, max);
                let ghost before = all_records(all_safe_hunks(m, done));
                proof {
                    assert(patches::hunks_of(left, max) == seq![h] + rest);
                    assert(hs =~= done.push(h) + rest);
                    assert(hs[done.len() as int] == h);
                    assert(done.push(h).drop_last() =~= done);
                    lemma_safe_concat(m, done.push(h), rest);
                    lemma_records_prefix(
                        all_safe_hunks(m, done.push(h)),
                        all_safe_hunks(m, rest),
                    );
                    lemma_records_prefix(all_safe_hunks(m, done), safe_hunks(m, h));
                }
                encode_safe_hunk(&mut out, vec, start, hunk);
                proof {
                    lemma_encode_concat(before, all_records(safe_hunks(m, h)));
                    assert(out@ =~= ips_head() + encode_records(
                        all_records(all_safe_hunks(m, done.push(h))),
                    ));
                    done = done.push(h);
                }
            },
        }
    }
}

/// The bytes of the patch file. A patch that has a hunk starting at address `0x45454F46` cannot
/// be written; of every other patch no record starts there.
pub fn generate_ips(vec: &PatchVec) -> (r: Result<Vec<u8>, IpsGenerateError>)
    ensures
        r is Err <==> patches::starts_hunk(vec@, IPS_UNSAFE_OFFSET),
        r matches Err(e) ==> e == IpsGenerateError::HasEofHunk,
        r matches Ok(file) ==> file@ == ips_file(ips_records(vec@)) && avoids_end_mark(
            ips_records(vec@),
        ),
{
    if vec.has_hunk_starting_at(IPS_UNSAFE_OFFSET) {
        return Err(IpsGenerateError::HasEofHunk);
    }
    proof {
        law_ips_records_rebuild(vec@);
    }
    Ok(encode_patch(vec))
}

} // verus!
