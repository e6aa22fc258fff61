//! Which records an IPS file holds for a hunk, and how they are laid out.

use crate::ips;
use crate::ips::IpsRecord;
use vstd::prelude::*;

verus! {

// ---------------------------------------------------------------------------------------------
// Runs

/// The bytes `i..j` are all the same.
pub open spec fn is_run(h: Seq<u8>, i: int, j: int) -> bool {
    forall|k: int| i <= k < j ==> #[trigger] h[k] == h[i]
}

/// No `n` bytes in a row are the same.
pub open spec fn has_no_run(h: Seq<u8>, n: int) -> bool {
    forall|i: int| 0 <= i && i + n <= h.len() ==> !#[trigger] is_run(h, i, i + n)
}

proof fn lemma_run_stop(h: Seq<u8>, i: int, j: int, end: int)
    requires
        0 <= i < j <= end <= h.len(),
        is_run(h, i, j),
    ensures
        ({
            let e = ips::run_stop(h, i, j, end);
            &&& j <= e <= end
            &&& is_run(h, i, e)
            &&& e < end ==> h[e] != h[i]
        }),
    decreases end - j,
{
    if j < end && h[j] == h[i] {
        assert(is_run(h, i, j + 1));
        lemma_run_stop(h, i, j + 1, end);
    }
}

/// The run at `i` reaches just as far as bytes are the same.
proof fn lemma_run_from(h: Seq<u8>, i: int, j: int, end: int)
    requires
        0 <= i < j <= end <= h.len(),
    ensures
        is_run(h, i, j) <==> ips::run_from(h, i, end) >= j,
        i < ips::run_from(h, i, end) <= end,
        is_run(h, i, ips::run_from(h, i, end)),
{
    lemma_run_stop(h, i, i + 1, end);
    let e = ips::run_from(h, i, end);
    if is_run(h, i, j) && e < j {
        assert(h[e] == h[i]);
    }
    if e >= j {
        assert forall|k: int| i <= k < j implies #[trigger] h[k] == h[i] by {}
    }
}

proof fn lemma_long_run(h: Seq<u8>, i: int, end: int)
    requires
        0 <= i <= end <= h.len(),
    ensures
        ({
            let n = ips::long_run(h, i, end);
            &&& i <= n <= end
            &&& n < end ==> n + 15 <= end && is_run(h, n, n + 15)
            &&& forall|k: int| i <= k < n && k + 15 <= end ==> !#[trigger] is_run(h, k, k + 15)
        }),
    decreases end - i,
{
    if i < end {
        lemma_run_from(h, i, i + 1, end);
        if i + 15 <= end {
            lemma_run_from(h, i, i + 15, end);
        }
        if ips::run_from(h, i, end) - i < 15 {
            lemma_long_run(h, i + 1, end);
        }
    }
}

/// The bytes of a record with bytes hold no 15 in a row that are the same, and a run has at least
/// `n` bytes.
pub open spec fn is_short(r: IpsRecord, n: int) -> bool {
    match r {
        IpsRecord::Bytes { offset, data } => has_no_run(data, 15),
        IpsRecord::Run { offset, byte, count } => count >= n,
    }
}

proof fn lemma_cut_has_no_run(h: Seq<u8>, i: int, j: int, end: int)
    requires
        0 <= i <= j <= end <= h.len(),
        forall|k: int| i <= k < j && k + 15 <= end ==> !#[trigger] is_run(h, k, k + 15),
    ensures
        has_no_run(h.subrange(i, j), 15),
{
    let d = h.subrange(i, j);
    assert forall|k: int| 0 <= k && k + 15 <= d.len() implies !#[trigger] is_run(d, k, k + 15) by {
        assert(!is_run(h, i + k, i + k + 15));
        let m = choose|m: int| i + k <= m < i + k + 15 && #[trigger] h[m] != h[i + k];
        assert(d[m - i] != d[k]);
    }
}

proof fn lemma_middle(base: u32, h: Seq<u8>, i: int, end: int)
    requires
        0 <= i <= end <= h.len(),
    ensures
        forall|k: int|
            0 <= k < ips::middle_records(base, h, i, end).len() ==> is_short(
                #[trigger] ips::middle_records(base, h, i, end)[k],
                15,
            ),
    decreases end - i,
{
    if i < end {
        let n = ips::long_run(h, i, end);
        lemma_long_run(h, i, end);
        lemma_cut_has_no_run(h, i, n, end);
        let all = ips::middle_records(base, h, i, end);
        if n < end {
            lemma_run_from(h, n, n + 15, end);
            let e = ips::run_from(h, n, end);
            lemma_middle(base, h, e, end);
            let rest = ips::middle_records(base, h, e, end);
            let lead = if i < n {
                seq![ips::bytes_record(base, h, i, n)]
            } else {
                Seq::empty()
            };
            assert(all == lead + seq![ips::run_record(base, h, n, e)] + rest);
            assert forall|k: int| 0 <= k < all.len() implies is_short(#[trigger] all[k], 15) by {
                if k > lead.len() {
                    assert(all[k] == rest[k - lead.len() - 1]);
                }
            }
        } else {
            assert(all == seq![ips::bytes_record(base, h, i, end)]);
        }
    }
}

proof fn lemma_run_start(h: Seq<u8>, start: int, j: int, end: int)
    requires
        0 <= start <= j < end <= h.len(),
        is_run(h, j, end),
    ensures
        ({
            let t = ips::run_start(h, start, j, end);
            &&& start <= t <= j
            &&& is_run(h, t, end)
            &&& t > start ==> h[t - 1] != h[end - 1]
        }),
    decreases j - start,
{
    assert(h[end - 1] == h[j]);
    if j > start && h[j - 1] == h[end - 1] {
        assert(is_run(h, j - 1, end)) by {
            assert forall|k: int| j - 1 <= k < end implies #[trigger] h[k] == h[j - 1] by {
                if k >= j {
                    assert(h[k] == h[j]);
                }
            }
        }
        lemma_run_start(h, start, j - 1, end);
    }
}

/// A hunk of up to three bytes is one record of bytes; a longer one of equal bytes is one run; and
/// up to fourteen bytes that are not equal are one record of bytes. Beyond that no record of
/// bytes holds fifteen equal ones in a row, a run has at least ten bytes, ten equal bytes at the
/// start are a run, and so are ten equal bytes at the end, as far as they are not part of the
/// first run.
#[verifier::spinoff_prover]
#[verifier::rlimit(40)]
pub proof fn law_records_of_hunk(base: u32, h: Seq<u8>)
    requires
        h.len() > 0,
    ensures
        ({
            let rs = ips::short_records(base, h);
            let len = h.len() as int;
            let equal = is_run(h, 0, len);
            &&& len <= 3 || (len <= 14 && !equal) ==> rs == seq![
                IpsRecord::Bytes { offset: base, data: h },
            ]
            &&& len > 3 && equal ==> rs == seq![
                IpsRecord::Run { offset: base, byte: h[0], count: len },
            ]
            &&& len > 14 && !equal ==> {
                &&& forall|k: int| 0 <= k < rs.len() ==> is_short(#[trigger] rs[k], 10)
                &&& is_run(h, 0, 10) ==> rs.len() > 0 && rs[0] is Run && rs[0].offset() == base
                &&& is_run(h, len - 10, len) && !is_run(h, 0, len - 9) ==> rs.len() > 0
                    && rs.last() is Run
            }
        }),
{
    let rs = ips::short_records(base, h);
    let len = h.len() as int;
    lemma_run_from(h, 0, len, len);
    assert(h.subrange(0, len) =~= h);
    if len > 14 && !is_run(h, 0, len) {
        lemma_run_from(h, 0, 10, len);
        let p = if ips::run_from(h, 0, len) >= 10 {
            ips::run_from(h, 0, len)
        } else {
            0
        };
        lemma_run_start(h, p, len - 1, len);
        let t = ips::run_start(h, p, len - 1, len);
        let q = if len - t >= 10 {
            t
        } else {
            len
        };
        lemma_middle(base, h, p, q);
        let mid = ips::middle_records(base, h, p, q);
        let head = if p > 0 {
            seq![ips::run_record(base, h, 0, p)]
        } else {
            Seq::empty()
        };
        let tail = if q < len {
            seq![ips::run_record(base, h, q, len)]
        } else {
            Seq::empty()
        };
        assert(rs == head + mid + tail);
        assert forall|k: int| 0 <= k < rs.len() implies is_short(#[trigger] rs[k], 10) by {
            if head.len() <= k < head.len() + mid.len() {
                assert(rs[k] == mid[k - head.len()]);
            }
        }
        if is_run(h, 0, 10) {
            assert(rs[0] == head[0]);
        }
        if is_run(h, len - 10, len) && !is_run(h, 0, len - 9) {
            lemma_run_from(h, 0, len - 9, len);
            assert(p <= len - 10);
            if t > len - 10 {
                assert(h[t - 1] == h[len - 10]);
                assert(h[len - 1] == h[len - 10]);
            }
            assert(rs.last() == tail[0]);
        }
    }
}

// ---------------------------------------------------------------------------------------------
// Layout

/// The number that two or four bytes are, the highest one first.
pub open spec fn high_first(b: Seq<u8>) -> int
    decreases b.len(),
{
    if b.len() == 0 {
        0
    } else {
        256 * high_first(b.drop_last()) + b.last()
    }
}

/// A record is its offset in four bytes and, in two bytes each, the number of its bytes and then
/// these, or a zero and the length of its run and then the byte; all numbers with the highest byte
/// first.
#[verifier::spinoff_prover]
#[verifier::rlimit(40)]
pub proof fn law_record_layout(r: IpsRecord)
    requires
        r.fits(),
    ensures
        ({
            let b = ips::encode_record(r);
            &&& b.len() >= 6
            &&& high_first(b.subrange(0, 4)) == r.offset()
            &&& match r {
                IpsRecord::Bytes { offset, data } => {
                    &&& high_first(b.subrange(4, 6)) == data.len()
                    &&& b.subrange(6, b.len() as int) == data
                },
                IpsRecord::Run { offset, byte, count } => {
                    &&& b.len() == 9
                    &&& high_first(b.subrange(4, 6)) == 0
                    &&& high_first(b.subrange(6, 8)) == count
                    &&& b[8] == byte
                },
            }
        }),
{
    let b = ips::encode_record(r);
    lemma_be32(r.offset());
    match r {
        IpsRecord::Bytes { offset, data } => {
            lemma_be16(data.len() as int);
            assert(b.subrange(0, 4) =~= ips::be32(offset));
            assert(b.subrange(4, 6) =~= ips::be16(data.len() as int));
            assert(b.subrange(6, b.len() as int) =~= data);
        },
        IpsRecord::Run { offset, byte, count } => {
            lemma_be16(0);
            lemma_be16(count);
            assert(b.subrange(0, 4) =~= ips::be32(offset));
            assert(b.subrange(4, 6) =~= ips::be16(0));
            assert(b.subrange(6, 8) =~= ips::be16(count));
        },
    }
}

proof fn lemma_be16(n: int)
    requires
        0 <= n < 0x1_0000,
    ensures
        ips::be16(n).len() == 2,
        high_first(ips::be16(n)) == n,
{
    reveal_with_fuel(high_first, 3);
}

proof fn lemma_be32(n: u32)
    ensures
        ips::be32(n).len() == 4,
        high_first(ips::be32(n)) == n,
{
    reveal_with_fuel(high_first, 5);
}

/// A file starts with `IPS32` and ends with `EEOF`.
pub proof fn law_file_marks(rs: Seq<IpsRecord>)
    ensures
        ({
            let b = ips::ips_file(rs);
            let n = b.len() as int;
            &&& n >= 9
            &&& b.subrange(0, 5) == seq![0x49u8, 0x50, 0x53, 0x33, 0x32]
            &&& b.subrange(n - 4, n) == seq![0x45u8, 0x45, 0x4f, 0x46]
            &&& b.subrange(5, n - 4) == ips::encode_records(rs)
        }),
{
    let b = ips::ips_file(rs);
    let n = b.len() as int;
    assert(b.subrange(0, 5) =~= seq![0x49u8, 0x50, 0x53, 0x33, 0x32]);
    assert(b.subrange(n - 4, n) =~= seq![0x45u8, 0x45, 0x4f, 0x46]);
    assert(b.subrange(5, n - 4) =~= ips::encode_records(rs));
}

} // verus!
