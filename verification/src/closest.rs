//! The name that a misspelt one was probably meant to be.

use vstd::prelude::*;
use vstd::string::*;

verus! {

/// The distance that `strsim::damerau_levenshtein` gives two texts.
pub uninterp spec fn edit_distance(a: Seq<u8>, b: Seq<u8>) -> usize;

/// `strsim::damerau_levenshtein`: its result is a function of the two texts.
#[verifier::external_body]
fn distance(a: &str, b: &str) -> (r: usize)
    ensures
        r == edit_distance(a.spec_bytes(), b.spec_bytes()),
{
    strsim::damerau_levenshtein(a, b)
}

/// The index of the first of the smallest numbers among the first `n`.
pub open spec fn first_smallest(d: Seq<usize>, n: int) -> int
    decreases n,
{
    if n <= 1 {
        0
    } else {
        let k = first_smallest(d, n - 1);
        if d[n - 1] < d[k] {
            n - 1
        } else {
            k
        }
    }
}

/// The distances of the names from a text.
pub open spec fn distances(keys: Seq<&'static str>, value: Seq<u8>) -> Seq<usize> {
    Seq::new(keys.len(), |i: int| edit_distance(keys[i].spec_bytes(), value))
}

/// The index of the first of the names that are closest to a text.
pub open spec fn closest_index(keys: Seq<&'static str>, value: Seq<u8>) -> int {
    first_smallest(distances(keys, value), keys.len() as int)
}

/// No number is smaller than the one that is found, and none before it is as small.
pub proof fn law_first_smallest(d: Seq<usize>, n: int)
    requires
        1 <= n <= d.len(),
    ensures
        0 <= first_smallest(d, n) < n,
        forall|i: int| 0 <= i < n ==> d[first_smallest(d, n)] <= #[trigger] d[i],
        forall|i: int| 0 <= i < first_smallest(d, n) ==> d[first_smallest(d, n)] < #[trigger] d[i],
    decreases n,
{
    if n > 1 {
        law_first_smallest(d, n - 1);
    }
}

/// The index of the first of the smallest numbers.
pub fn index_of_smallest(d: &[usize]) -> (r: usize)
    requires
        d@.len() > 0,
    ensures
        r == first_smallest(d@, d@.len() as int),
        r < d@.len(),
{
    let mut r: usize = 0;
    let mut i: usize = 1;
    while i < d.len()
        invariant
            1 <= i <= d@.len(),
            r < i,
            r == first_smallest(d@, i as int),
        decreases d@.len() - i,
    {
        if d[i] < d[r] {
            r = i;
        }
        i += 1;
    }
    r
}

/// The first of the names that are closest to a text.
pub fn closest_key(value: &str, keys: &[&'static str]) -> (r: &'static str)
    requires
        keys@.len() > 0,
    ensures
        r == keys@[closest_index(keys@, value.spec_bytes())],
{
    let mut found: Vec<usize> = Vec::new();
    let mut i: usize = 0;
    while i < keys.len()
        invariant
            i <= keys@.len(),
            found@ == distances(keys@, value.spec_bytes()).subrange(0, i as int),
        decreases keys@.len() - i,
    {
        found.push(distance(keys[i], value));
        i += 1;
        assert(found@ =~= distances(keys@, value.spec_bytes()).subrange(0, i as int));
    }
    assert(found@ =~= distances(keys@, value.spec_bytes()));
    keys[index_of_smallest(found.as_slice())]
}

} // verus!
