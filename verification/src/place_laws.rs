//! Where an error in the text of a value stands.

use crate::json;
use crate::json::Json5Error;
use crate::option;
use crate::text;
use vstd::prelude::*;

verus! {

/// The line and the column of an offset in a text of ASCII, both counted from 0.
pub open spec fn place(b: Seq<u8>, i: int) -> (int, int)
    decreases i,
{
    if i <= 0 {
        (0, 0)
    } else if b[i - 1] == 0x0a {
        (place(b, i - 1).0 + 1, 0)
    } else {
        (place(b, i - 1).0, place(b, i - 1).1 + 1)
    }
}

/// An offset lies at or behind a line, and at or behind a column of its own line.
pub open spec fn is_reached(b: Seq<u8>, i: int, to: (usize, usize)) -> bool {
    place(b, i).0 >= to.0 && place(b, i).1 >= to.1
}

/// The offset of a line and a column is the first one that reaches both, or the end of the text.
pub proof fn law_location(b: Seq<u8>, i: int, to: (usize, usize))
    requires
        0 <= i <= b.len(),
        forall|k: int| 0 <= k < b.len() ==> #[trigger] b[k] < 0x80,
        forall|k: int| 0 <= k < i ==> !#[trigger] is_reached(b, k, to),
        i == b.len() || is_reached(b, i, to),
    ensures
        json::location(b, 0, 0, 0, to) == i,
{
    lemma_location(b, 0, i, to);
}

proof fn lemma_location(b: Seq<u8>, j: int, i: int, to: (usize, usize))
    requires
        0 <= j <= i <= b.len(),
        forall|k: int| 0 <= k < b.len() ==> #[trigger] b[k] < 0x80,
        forall|k: int| 0 <= k < i ==> !#[trigger] is_reached(b, k, to),
        i == b.len() || is_reached(b, i, to),
    ensures
        json::location(b, j, place(b, j).0, place(b, j).1, to) == i,
    decreases i - j,
{
    if j < i {
        assert(!is_reached(b, j, to));
        assert(b[j] < 0x80);
        assert(text::char_end(b, j) == j + 1);
        assert(place(b, j + 1) == if b[j] == 0x0a {
            (place(b, j).0 + 1, 0int)
        } else {
            (place(b, j).0, place(b, j).1 + 1)
        });
        lemma_location(b, j + 1, i, to);
    }
}

/// An error with a position is marked there, behind the start of the text; one without is marked
/// at the start, unless its text ended too early: then at the end.
pub proof fn law_error_offset(e: Json5Error<Seq<u8>>, b: Seq<u8>, base: usize)
    ensures
        e.position matches Some(to) ==> json::error_offset(e, b, base) == base + json::location(
            b,
            0,
            0,
            0,
            to,
        ),
        e.position is None ==> json::error_offset(e, b, base) == base || json::error_offset(
            e,
            b,
            base,
        ) == base + b.len(),
        e.position is None && (e.code matches Some(c) && json::is_end_code(c))
            ==> json::error_offset(e, b, base) == base + b.len(),
        e.position is None && e.code is None ==> json::error_offset(e, b, base) == base,
{
}

/// The text of a string starts one byte behind the line and the column, counted from 1, at which
/// the string stands in a value.
pub proof fn law_string_place(b: Seq<u8>, start: usize, i: int, at: (usize, usize))
    requires
        0 <= i < b.len(),
        start + b.len() < usize::MAX,
        forall|k: int| 0 <= k < b.len() ==> #[trigger] b[k] < 0x80,
        place(b, i).0 + 1 == at.0,
        place(b, i).1 + 1 == at.1,
        forall|k: int|
            0 <= k < i ==> !#[trigger] is_reached(b, k, ((at.0 - 1) as usize, (at.1 - 1) as usize)),
    ensures
        option::string_offset(b, start, at) == start + i + 1,
{
    lemma_place(b, i);
    law_location(b, i, ((at.0 - 1) as usize, (at.1 - 1) as usize));
}

proof fn lemma_place(b: Seq<u8>, i: int)
    requires
        0 <= i,
    ensures
        0 <= place(b, i).0,
        0 <= place(b, i).1,
    decreases i,
{
    if i > 0 {
        lemma_place(b, i - 1);
    }
}

} // verus!
