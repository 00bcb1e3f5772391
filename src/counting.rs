//! Counting bytes in prefixes of a sequence.
use vstd::prelude::*;

verus! {

/// How many of the first `k` bytes of `s` equal `c`.
pub open spec fn occ_count(s: Seq<u8>, c: u8, k: int) -> nat
    decreases k,
{
    if k <= 0 {
        0
    } else {
        occ_count(s, c, k - 1) + (if s[k - 1] == c { 1nat } else { 0nat })
    }
}

/// How many of the first `k` bytes of `f` are smaller than `c`.
pub open spec fn less_count(f: Seq<u8>, c: int, k: int) -> nat
    decreases k,
{
    if k <= 0 {
        0
    } else {
        less_count(f, c, k - 1) + (if (f[k - 1] as int) < c { 1nat } else { 0nat })
    }
}

pub open spec fn nondecreasing(f: Seq<u8>) -> bool {
    forall|i: int, j: int| 0 <= i < j < f.len() ==> f[i] <= f[j]
}

pub proof fn lemma_occ_bounded(s: Seq<u8>, c: u8, k: int)
    requires
        0 <= k,
    ensures
        occ_count(s, c, k) <= k,
    decreases k,
{
    if k > 0 {
        lemma_occ_bounded(s, c, k - 1);
    }
}

pub proof fn lemma_occ_monotone(s: Seq<u8>, c: u8, a: int, b: int)
    requires
        0 <= a <= b,
    ensures
        occ_count(s, c, a) <= occ_count(s, c, b),
    decreases b - a,
{
    if a < b {
        lemma_occ_monotone(s, c, a, b - 1);
    }
}

/// No `c` in `s[a..b)` means no change in the count.
pub proof fn lemma_occ_gap(s: Seq<u8>, c: u8, a: int, b: int)
    requires
        0 <= a <= b,
        forall|k: int| a <= k < b ==> s[k] != c,
    ensures
        occ_count(s, c, b) == occ_count(s, c, a),
    decreases b - a,
{
    if a < b {
        lemma_occ_gap(s, c, a, b - 1);
    }
}

pub proof fn lemma_less_bounded(f: Seq<u8>, c: int, k: int)
    requires
        0 <= k,
    ensures
        less_count(f, c, k) <= k,
        c <= 0 ==> less_count(f, c, k) == 0,
        c >= 256 ==> less_count(f, c, k) == k,
    decreases k,
{
    if k > 0 {
        lemma_less_bounded(f, c, k - 1);
    }
}

/// Counting below `c + 1` counts below `c` and then the bytes equal to `c`.
pub proof fn lemma_less_step(f: Seq<u8>, c: u8, k: int)
    requires
        0 <= k,
    ensures
        less_count(f, c as int + 1, k) == less_count(f, c as int, k) + occ_count(f, c, k),
    decreases k,
{
    if k > 0 {
        lemma_less_step(f, c, k - 1);
    }
}

/// In a nondecreasing sequence the bytes below `c` come first.
pub proof fn lemma_less_sorted(f: Seq<u8>, c: int, k: int)
    requires
        nondecreasing(f),
        0 <= k <= f.len(),
    ensures
        less_count(f, c, k) <= k,
        forall|i: int| 0 <= i < k ==> (i < less_count(f, c, k) <==> (f[i] as int) < c),
    decreases k,
{
    if k > 0 {
        lemma_less_sorted(f, c, k - 1);
        if (f[k - 1] as int) < c {
            assert forall|i: int| 0 <= i < k - 1 implies (#[trigger] f[i] as int) < c by {
                assert(f[i] <= f[k - 1]);
            }
        }
    }
}

} // verus!
