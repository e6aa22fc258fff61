//! Spans of source text, and small helpers.

pub use crate::as_num::AsNum;
pub use crate::closest::closest_key;
pub use crate::json::json5_error_to_offset;
use crate::text;
use std::cmp::Ordering;
use std::ops::Range;
use vstd::prelude::*;
use vstd::std_specs::cmp::*;
use vstd::string::*;
use vstd::utf8::*;

verus! {

/// A stretch of source text: the offset of its first byte and its length.
#[derive(Clone, Copy, Debug, Eq, Ord, Hash)]
pub struct SourceSpan {
    pub offset: usize,
    pub len: usize,
}

impl PartialEq for SourceSpan {
    fn eq(&self, other: &Self) -> (r: bool) {
        self.offset == other.offset && self.len == other.len
    }
}

impl PartialEqSpecImpl for SourceSpan {
    open spec fn obeys_eq_spec() -> bool {
        true
    }

    open spec fn eq_spec(&self, other: &Self) -> bool {
        self.offset == other.offset && self.len == other.len
    }
}

impl PartialOrd for SourceSpan {
    fn partial_cmp(&self, other: &Self) -> (r: Option<Ordering>) {
        if self.offset < other.offset {
            Some(Ordering::Less)
        } else if self.offset > other.offset {
            Some(Ordering::Greater)
        } else if self.len < other.len {
            Some(Ordering::Less)
        } else if self.len > other.len {
            Some(Ordering::Greater)
        } else {
            Some(Ordering::Equal)
        }
    }
}

impl PartialOrdSpecImpl for SourceSpan {
    open spec fn obeys_partial_cmp_spec() -> bool {
        true
    }

    open spec fn partial_cmp_spec(&self, other: &Self) -> Option<Ordering> {
        if self.offset < other.offset {
            Some(Ordering::Less)
        } else if self.offset > other.offset {
            Some(Ordering::Greater)
        } else if self.len < other.len {
            Some(Ordering::Less)
        } else if self.len > other.len {
            Some(Ordering::Greater)
        } else {
            Some(Ordering::Equal)
        }
    }
}

impl SourceSpan {
    /// The span of `len` bytes at `offset`.
    pub fn new(offset: usize, len: usize) -> (r: SourceSpan)
        ensures
            r == (SourceSpan { offset, len }),
    {
        SourceSpan { offset, len }
    }

    /// The offset of the first byte.
    pub fn offset(&self) -> (r: usize)
        ensures
            r == self.offset,
    {
        self.offset
    }

    /// The number of bytes.
    pub fn len(&self) -> (r: usize)
        ensures
            r == self.len,
    {
        self.len
    }
}

/// A value that stands for a span.
pub trait AsSpan: Sized {
    spec fn span(self) -> SourceSpan;

    fn as_span(self) -> (r: SourceSpan)
        ensures
            r == self.span(),
    ;
}

impl AsSpan for SourceSpan {
    open spec fn span(self) -> SourceSpan {
        self
    }

    fn as_span(self) -> (r: SourceSpan) {
        self
    }
}

/// An offset and a length.
impl AsSpan for (usize, usize) {
    open spec fn span(self) -> SourceSpan {
        SourceSpan { offset: self.0, len: self.1 }
    }

    fn as_span(self) -> (r: SourceSpan) {
        SourceSpan { offset: self.0, len: self.1 }
    }
}

/// The length of a range, which is 0 where the end lies before the start.
pub open spec fn range_len(start: usize, end: usize) -> usize {
    if start < end {
        (end - start) as usize
    } else {
        0
    }
}

impl AsSpan for Range<usize> {
    open spec fn span(self) -> SourceSpan {
        SourceSpan { offset: self.start, len: range_len(self.start, self.end) }
    }

    fn as_span(self) -> (r: SourceSpan) {
        let len: usize = if self.start < self.end { self.end - self.start } else { 0 };
        SourceSpan { offset: self.start, len }
    }
}

/// Swaps the two values when the first is the greater one.
pub fn ensure_ordered<T: Ord>(a: &mut T, b: &mut T)
    ensures
        T::obeys_partial_cmp_spec() ==> if (*old(a)).partial_cmp_spec(&*old(b)) == Some(
            Ordering::Greater,
        ) {
            *final(a) == *old(b) && *final(b) == *old(a)
        } else {
            *final(a) == *old(a) && *final(b) == *old(b)
        },
{
    if *a > *b {
        std::mem::swap(a, b);
    }
}

/// The two values, the smaller one first.
pub fn order_tuple<T: Ord>(pair: (T, T)) -> (r: (T, T))
    ensures
        T::obeys_partial_cmp_spec() ==> if pair.0.partial_cmp_spec(&pair.1) == Some(
            Ordering::Greater,
        ) {
            r == (pair.1, pair.0)
        } else {
            r == pair
        },
{
    let (mut a, mut b) = pair;
    ensure_ordered(&mut a, &mut b);
    (a, b)
}

/// The span comes no later than the other: it starts earlier, or in the same place and is no
/// longer.
pub open spec fn span_le(a: SourceSpan, b: SourceSpan) -> bool {
    a.offset < b.offset || (a.offset == b.offset && a.len <= b.len)
}

/// The span from the start of the first of two spans to the later of their ends. Lengths wrap
/// around where they do not fit.
pub open spec fn joined_span(x: SourceSpan, y: SourceSpan) -> SourceSpan {
    let a = if span_le(x, y) {
        x
    } else {
        y
    };
    let b = if span_le(x, y) {
        y
    } else {
        x
    };
    let reach = ((b.offset - a.offset) as usize).wrapping_add(b.len);
    SourceSpan {
        offset: a.offset,
        len: if reach >= a.len {
            reach
        } else {
            a.len
        },
    }
}

/// Two spans taken together.
pub trait Combine<Rhs = Self>: Sized {
    type Output;

    spec fn combined(self, rhs: Rhs) -> Self::Output;

    fn combine(self, rhs: Rhs) -> (r: Self::Output)
        ensures
            r == self.combined(rhs),
    ;
}

impl<Lhs: AsSpan, Rhs: AsSpan> Combine<Rhs> for Lhs {
    type Output = SourceSpan;

    open spec fn combined(self, rhs: Rhs) -> SourceSpan {
        joined_span(self.span(), rhs.span())
    }

    fn combine(self, rhs: Rhs) -> (r: SourceSpan) {
        let (a, b) = order_tuple((self.as_span(), rhs.as_span()));
        let reach: usize = (b.offset - a.offset).wrapping_add(b.len);
        SourceSpan { offset: a.offset, len: if reach >= a.len { reach } else { a.len } }
    }
}

/// Whichever of two spans comes first, taken together they give the same span, and that span
/// reaches from the smaller of their starts to the larger of their ends.
pub proof fn law_combine(x: SourceSpan, y: SourceSpan)
    requires
        x.offset + x.len <= usize::MAX,
        y.offset + y.len <= usize::MAX,
    ensures
        x.combined(y) == y.combined(x),
        x.combined(y).offset == if x.offset <= y.offset {
            x.offset
        } else {
            y.offset
        },
        x.combined(y).offset + x.combined(y).len == if x.offset + x.len >= y.offset + y.len {
            x.offset + x.len
        } else {
            y.offset + y.len
        },
{
}

/// All items but the last, which is the given one.
pub fn all_but_last_assert<T>(items: &[T], last_should_be: T) -> (r: &[T])
    requires
        items@.len() > 0,
        items@.last() == last_should_be,
    ensures
        r@ == items@.drop_last(),
{
    let r = vstd::slice::slice_subrange(items, 0, items.len() - 1);
    assert(r@ =~= items@.drop_last());
    r
}

} // verus!
