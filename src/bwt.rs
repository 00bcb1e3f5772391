//! The Burrows-Wheeler transform and the table of smaller symbols.
use vstd::prelude::*;
use crate::counting::{less_count, occ_count, lemma_less_bounded, lemma_less_step, lemma_occ_bounded};

verus! {

/// The byte that precedes each suffix in suffix-array order, wrapping around
/// to the last byte of the text for the suffix at position 0.
pub open spec fn bwt_of(t: Seq<u8>, sa: Seq<usize>) -> Seq<u8> {
    Seq::new(
        sa.len(),
        |i: int|
            if sa[i] == 0 {
                t[t.len() - 1]
            } else {
                t[sa[i] - 1]
            },
    )
}

/// The first byte of each suffix in suffix-array order.
pub open spec fn first_column(t: Seq<u8>, sa: Seq<usize>) -> Seq<u8> {
    Seq::new(sa.len(), |i: int| t[sa[i] as int])
}

/// For each byte value `c` (and 256 past the last), how many suffixes start
/// with a byte smaller than `c`.
pub open spec fn less_table_of(t: Seq<u8>, sa: Seq<usize>) -> Seq<usize> {
    Seq::new(257, |c: int| less_count(first_column(t, sa), c, sa.len() as int) as usize)
}

pub open spec fn positions_in_range(t: Seq<u8>, sa: Seq<usize>) -> bool {
    sa.len() == t.len() && forall|i: int| 0 <= i < sa.len() ==> #[trigger] sa[i] < t.len()
}

/// Builds the transform of `text` from its suffix array.
pub fn build_bwt(text: &Vec<u8>, sa: &Vec<usize>) -> (r: Vec<u8>)
    requires
        positions_in_range(text@, sa@),
    ensures
        r@ == bwt_of(text@, sa@),
{
    let n = text.len();
    let mut r: Vec<u8> = Vec::with_capacity(n);
    let mut i: usize = 0;
    while i < n
        invariant
            n == text.len(),
            positions_in_range(text@, sa@),
            i <= n,
            r@ =~= bwt_of(text@, sa@).subrange(0, i as int),
        decreases n - i,
    {
        let p = sa[i];
        if p == 0 {
            r.push(text[n - 1]);
        } else {
            r.push(text[p - 1]);
        }
        i += 1;
    }
    r
}

/// Builds the table of smaller symbols by counting each byte value among the
/// first bytes of the suffixes and summing the counts in byte order.
pub fn build_less(text: &Vec<u8>, sa: &Vec<usize>) -> (r: Vec<usize>)
    requires
        positions_in_range(text@, sa@),
    ensures
        r@ == less_table_of(text@, sa@),
{
    let n = sa.len();
    let ghost f = first_column(text@, sa@);
    let mut freq: Vec<usize> = vec![0usize; 256];
    let mut i: usize = 0;
    while i < n
        invariant
            n == sa.len(),
            positions_in_range(text@, sa@),
            f == first_column(text@, sa@),
            i <= n,
            freq.len() == 256,
            forall|d: int| 0 <= d < 256 ==> #[trigger] freq[d] == occ_count(f, d as u8, i as int),
        decreases n - i,
    {
        let b = text[sa[i]];
        proof {
            lemma_occ_bounded(f, b, i as int);
        }
        freq.set(b as usize, freq[b as usize] + 1);
        i += 1;
        assert forall|d: int| 0 <= d < 256 implies #[trigger] freq[d] == occ_count(f, d as u8, i as int) by {
            assert(f[i - 1] == b);
        }
    }
    let mut r: Vec<usize> = Vec::with_capacity(257);
    let mut acc: usize = 0;
    let mut c: usize = 0;
    proof {
        lemma_less_bounded(f, 0, n as int);
    }
    while c < 256
        invariant
            n == sa.len(),
            f == first_column(text@, sa@),
            c <= 256,
            freq.len() == 256,
            forall|d: int| 0 <= d < 256 ==> #[trigger] freq[d] == occ_count(f, d as u8, n as int),
            acc == less_count(f, c as int, n as int),
            r.len() == c,
            forall|d: int| 0 <= d < c ==> #[trigger] r[d] == less_count(f, d, n as int),
        decreases 256 - c,
    {
        r.push(acc);
        proof {
            lemma_less_step(f, c as u8, n as int);
            lemma_less_bounded(f, c as int + 1, n as int);
        }
        acc = acc + freq[c];
        c += 1;
    }
    r.push(acc);
    assert(r@ =~= less_table_of(text@, sa@));
    r
}

} // verus!
