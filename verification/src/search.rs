//! Binary search over sorted coordinate arrays.
//!
//! The grid stores, per row and per column, a sorted array of obstruction
//! coordinates. Ray marching jumps directly to the nearest obstruction along
//! an axis by querying the greatest element strictly below, or the least
//! element strictly above, a given coordinate.

use vstd::prelude::*;

verus! {

/// The sequence is weakly increasing.
pub open spec fn sorted(s: Seq<usize>) -> bool {
    forall|i: int, j: int| 0 <= i <= j < s.len() ==> s[i] <= s[j]
}

/// The sequence holds the (integer) value `v`.
pub open spec fn seq_has(s: Seq<usize>, v: int) -> bool {
    exists|i: int| 0 <= i < s.len() && s[i] == v
}

/// Appending a value no smaller than every element keeps the sequence sorted.
pub proof fn lemma_sorted_push(s: Seq<usize>, v: usize)
    requires
        sorted(s),
        forall|k: int| 0 <= k < s.len() ==> s[k] <= v,
    ensures
        sorted(s.push(v)),
{
}

/// What a sequence holds after a push: the old contents plus the new value.
pub proof fn lemma_seq_has_push(s: Seq<usize>, v: usize, w: int)
    ensures
        seq_has(s.push(v), w) <==> (seq_has(s, w) || w == v),
{
    if seq_has(s, w) {
        let i = choose|i: int| 0 <= i < s.len() && s[i] == w;
        assert(s.push(v)[i] == w);
    }
    if w == v {
        assert(s.push(v)[s.len() as int] == v);
    }
    if seq_has(s.push(v), w) {
        let i = choose|i: int| 0 <= i < s.push(v).len() && s.push(v)[i] == w;
        if i < s.len() {
            assert(s[i] == w);
        }
    }
}

/// Index of the first element that is `>= needle`, or `len` if none is.
fn first_at_least(v: &Vec<usize>, needle: usize) -> (r: usize)
    requires
        sorted(v@),
    ensures
        r <= v@.len(),
        forall|i: int| 0 <= i < r ==> v@[i] < needle,
        forall|i: int| r <= i < v@.len() ==> v@[i] >= needle,
{
    let mut lo: usize = 0;
    let mut hi: usize = v.len();
    while lo < hi
        invariant
            lo <= hi <= v@.len(),
            sorted(v@),
            forall|i: int| 0 <= i < lo ==> v@[i] < needle,
            forall|i: int| hi <= i < v@.len() ==> v@[i] >= needle,
        decreases hi - lo,
    {
        let mid = lo + (hi - lo) / 2;
        if v[mid] < needle {
            lo = mid + 1;
        } else {
            hi = mid;
        }
    }
    lo
}

/// Index of the first element that is `> needle`, or `len` if none is.
fn first_greater(v: &Vec<usize>, needle: usize) -> (r: usize)
    requires
        sorted(v@),
    ensures
        r <= v@.len(),
        forall|i: int| 0 <= i < r ==> v@[i] <= needle,
        forall|i: int| r <= i < v@.len() ==> v@[i] > needle,
{
    let mut lo: usize = 0;
    let mut hi: usize = v.len();
    while lo < hi
        invariant
            lo <= hi <= v@.len(),
            sorted(v@),
            forall|i: int| 0 <= i < lo ==> v@[i] <= needle,
            forall|i: int| hi <= i < v@.len() ==> v@[i] > needle,
        decreases hi - lo,
    {
        let mid = lo + (hi - lo) / 2;
        if v[mid] <= needle {
            lo = mid + 1;
        } else {
            hi = mid;
        }
    }
    lo
}

/// The greatest element strictly less than `needle`, or `None` if no
/// element is below it.
pub fn lower_bound(haystack: &Vec<usize>, needle: usize) -> (r: Option<usize>)
    requires
        sorted(haystack@),
    ensures
        match r {
            None => forall|i: int| 0 <= i < haystack@.len() ==> haystack@[i] >= needle,
            Some(m) => seq_has(haystack@, m as int) && m < needle && forall|i: int|
                0 <= i < haystack@.len() && haystack@[i] < needle ==> haystack@[i] <= m,
        },
{
    let idx = first_at_least(haystack, needle);
    if idx == 0 {
        None
    } else {
        let m = haystack[idx - 1];
        assert(haystack@[idx - 1] == m);
        Some(m)
    }
}

/// The least element strictly greater than `needle`, or `None` if no
/// element is above it.
pub fn upper_bound(haystack: &Vec<usize>, needle: usize) -> (r: Option<usize>)
    requires
        sorted(haystack@),
    ensures
        match r {
            None => forall|i: int| 0 <= i < haystack@.len() ==> haystack@[i] <= needle,
            Some(m) => seq_has(haystack@, m as int) && m > needle && forall|i: int|
                0 <= i < haystack@.len() && haystack@[i] > needle ==> haystack@[i] >= m,
        },
{
    let idx = first_greater(haystack, needle);
    if idx == haystack.len() {
        None
    } else {
        let m = haystack[idx];
        assert(haystack@[idx as int] == m);
        Some(m)
    }
}

/// Whether the sorted array holds `needle`.
pub fn sorted_contains(v: &Vec<usize>, needle: usize) -> (r: bool)
    requires
        sorted(v@),
    ensures
        r == seq_has(v@, needle as int),
{
    let idx = first_at_least(v, needle);
    if idx < v.len() && v[idx] == needle {
        assert(v@[idx as int] == needle);
        true
    } else {
        assert forall|i: int| 0 <= i < v@.len() implies v@[i] != needle by {
            if i >= idx {
                assert(v@[idx as int] <= v@[i]);
            }
        }
        false
    }
}

} // verus!
