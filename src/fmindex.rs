//! The FM-index: suffix array, transform, table of smaller symbols and
//! occurrence table of one text, with backward search.
use vstd::prelude::*;
use crate::bwt::{bwt_of, build_bwt, build_less, first_column, less_table_of};
use crate::counting::{
    less_count, nondecreasing, occ_count, lemma_less_bounded, lemma_less_sorted, lemma_occ_gap,
    lemma_occ_monotone,
};
use crate::lex::{
    below, ends_with_sentinel, is_prefix, is_suffix_array, lex_lt, sa_index, suffix, lemma_below_cons,
    lemma_prefix_not_lt, lemma_sa_index, lemma_sa_injective, lemma_sa_order, lemma_suffix_array_unique, lemma_suffix_drop_first,
};
use crate::occ::OccTable;
use crate::suffix_array::sort_suffixes;

verus! {

/// First index of the rows whose suffix starts with `c`.
pub open spec fn block_start(t: Seq<u8>, sa: Seq<usize>, c: u8) -> int {
    less_count(first_column(t, sa), c as int, sa.len() as int) as int
}

/// One past the last index of the rows whose suffix starts with `c`.
pub open spec fn block_end(t: Seq<u8>, sa: Seq<usize>, c: u8) -> int {
    less_count(first_column(t, sa), c as int + 1, sa.len() as int) as int
}

/// The row whose suffix starts one position after that of row `i`.
pub open spec fn next_row(sa: Seq<usize>, i: int) -> int {
    sa_index(sa, sa[i] + 1)
}

/// The suffix array is a suffix array of a text whose last byte is not `c`.
pub open spec fn lf_context(t: Seq<u8>, sa: Seq<usize>, c: u8) -> bool {
    is_suffix_array(t, sa) && t.len() >= 1 && c != t[t.len() - 1]
}

proof fn lemma_first_column_sorted(t: Seq<u8>, sa: Seq<usize>)
    requires
        is_suffix_array(t, sa),
    ensures
        nondecreasing(first_column(t, sa)),
{
    let f = first_column(t, sa);
    assert forall|i: int, j: int| 0 <= i < j < f.len() implies f[i] <= f[j] by {
        assert(lex_lt(suffix(t, sa[i] as int), suffix(t, sa[j] as int)));
        lemma_suffix_drop_first(t, sa[i] as int);
        lemma_suffix_drop_first(t, sa[j] as int);
    }
}

/// Row `i` starts with `c` exactly when it lies in the block of `c`.
proof fn lemma_block(t: Seq<u8>, sa: Seq<usize>, c: u8, i: int)
    requires
        is_suffix_array(t, sa),
        0 <= i < sa.len(),
    ensures
        t[sa[i] as int] == c <==> block_start(t, sa, c) <= i < block_end(t, sa, c),
        t[sa[i] as int] < c <==> i < block_start(t, sa, c),
        block_start(t, sa, c) <= block_end(t, sa, c) <= sa.len(),
{
    let f = first_column(t, sa);
    lemma_first_column_sorted(t, sa);
    lemma_less_sorted(f, c as int, sa.len() as int);
    lemma_less_sorted(f, c as int + 1, sa.len() as int);
    assert(f[i] == t[sa[i] as int]);
    let s = block_start(t, sa, c);
    let e = block_end(t, sa, c);
    if s > e {
        assert(f[e] < c + 1);
    }
}

proof fn lemma_next_row(t: Seq<u8>, sa: Seq<usize>, c: u8, i: int)
    requires
        lf_context(t, sa, c),
        0 <= i < sa.len(),
        t[sa[i] as int] == c,
    ensures
        sa[i] + 1 < t.len(),
        0 <= next_row(sa, i) < sa.len(),
        sa[next_row(sa, i)] == sa[i] + 1,
        bwt_of(t, sa)[next_row(sa, i)] == c,
        suffix(t, sa[i] as int).drop_first() == suffix(t, sa[next_row(sa, i)] as int),
{
    lemma_sa_index(t, sa, sa[i] + 1);
    lemma_suffix_drop_first(t, sa[i] as int);
}

proof fn lemma_next_row_monotone(t: Seq<u8>, sa: Seq<usize>, c: u8, i: int, j: int)
    requires
        lf_context(t, sa, c),
        0 <= i < j < sa.len(),
        t[sa[i] as int] == c,
        t[sa[j] as int] == c,
    ensures
        next_row(sa, i) < next_row(sa, j),
{
    lemma_next_row(t, sa, c, i);
    lemma_next_row(t, sa, c, j);
    assert(lex_lt(suffix(t, sa[i] as int), suffix(t, sa[j] as int)));
    lemma_suffix_drop_first(t, sa[i] as int);
    lemma_suffix_drop_first(t, sa[j] as int);
    lemma_sa_order(t, sa, next_row(sa, i), next_row(sa, j));
}

/// Every `c` of the transform is the byte before some suffix of the block of `c`.
proof fn lemma_row_of_byte(t: Seq<u8>, sa: Seq<usize>, c: u8, x: int) -> (j: int)
    requires
        lf_context(t, sa, c),
        0 <= x < sa.len(),
        bwt_of(t, sa)[x] == c,
    ensures
        0 <= j < sa.len(),
        t[sa[j] as int] == c,
        next_row(sa, j) == x,
{
    let q = sa[x] - 1;
    lemma_sa_index(t, sa, q);
    let j = sa_index(sa, q);
    lemma_next_row(t, sa, c, j);
    lemma_sa_injective(t, sa, next_row(sa, j), x);
    j
}

/// The `c`s of the transform appear in the order of the block of `c`.
proof fn lemma_rank(t: Seq<u8>, sa: Seq<usize>, c: u8, i: int)
    requires
        lf_context(t, sa, c),
        0 <= i < sa.len(),
        t[sa[i] as int] == c,
    ensures
        occ_count(bwt_of(t, sa), c, next_row(sa, i)) == i - block_start(t, sa, c),
    decreases i,
{
    let b = bwt_of(t, sa);
    let lo = block_start(t, sa, c);
    lemma_block(t, sa, c, i);
    lemma_next_row(t, sa, c, i);
    let pi = next_row(sa, i);
    if i == lo {
        assert forall|x: int| 0 <= x < pi implies b[x] != c by {
            if b[x] == c {
                let j = lemma_row_of_byte(t, sa, c, x);
                lemma_block(t, sa, c, j);
                if i < j {
                    lemma_next_row_monotone(t, sa, c, i, j);
                }
            }
        }
        lemma_occ_gap(b, c, 0, pi);
    } else {
        lemma_block(t, sa, c, i - 1);
        lemma_rank(t, sa, c, i - 1);
        lemma_next_row(t, sa, c, i - 1);
        lemma_next_row_monotone(t, sa, c, i - 1, i);
        let pp = next_row(sa, i - 1);
        assert forall|x: int| pp + 1 <= x < pi implies b[x] != c by {
            if b[x] == c {
                let j = lemma_row_of_byte(t, sa, c, x);
                if j <= i - 1 {
                    if j < i - 1 {
                        lemma_next_row_monotone(t, sa, c, j, i - 1);
                    }
                } else if i < j {
                    lemma_next_row_monotone(t, sa, c, i, j);
                }
            }
        }
        lemma_occ_gap(b, c, pp + 1, pi);
    }
}

/// The transform holds `c` as often as the block of `c` has rows.
proof fn lemma_occ_total(t: Seq<u8>, sa: Seq<usize>, c: u8)
    requires
        lf_context(t, sa, c),
    ensures
        occ_count(bwt_of(t, sa), c, sa.len() as int) == block_end(t, sa, c) - block_start(t, sa, c),
{
    let b = bwt_of(t, sa);
    let n = sa.len() as int;
    let lo = block_start(t, sa, c);
    let hi = block_end(t, sa, c);
    lemma_block(t, sa, c, 0);
    if lo == hi {
        assert forall|x: int| 0 <= x < n implies b[x] != c by {
            if b[x] == c {
                let j = lemma_row_of_byte(t, sa, c, x);
                lemma_block(t, sa, c, j);
            }
        }
        lemma_occ_gap(b, c, 0, n);
    } else {
        let last = hi - 1;
        lemma_block(t, sa, c, last);
        lemma_rank(t, sa, c, last);
        lemma_next_row(t, sa, c, last);
        let pl = next_row(sa, last);
        assert forall|x: int| pl + 1 <= x < n implies b[x] != c by {
            if b[x] == c {
                let j = lemma_row_of_byte(t, sa, c, x);
                lemma_block(t, sa, c, j);
                if j < last {
                    lemma_next_row_monotone(t, sa, c, j, last);
                }
            }
        }
        lemma_occ_gap(b, c, pl + 1, n);
    }
}

/// One step of backward search: if the rows before `x` are those that sort
/// below `w`, the rows before `block_start(c) + occ(c, x)` are those that sort
/// below `c` followed by `w`.
pub proof fn lemma_backward_step(t: Seq<u8>, sa: Seq<usize>, cw: Seq<u8>, incl: bool, x: int)
    requires
        cw.len() > 0,
        lf_context(t, sa, cw[0]),
        0 <= x <= sa.len(),
        forall|i: int| 0 <= i < sa.len() ==> (i < x <==> below(suffix(t, #[trigger] sa[i] as int), cw.drop_first(), incl)),
    ensures
        block_start(t, sa, cw[0]) + occ_count(bwt_of(t, sa), cw[0], x) <= block_end(t, sa, cw[0]),
        forall|i: int| 0 <= i < sa.len() ==>
            (i < block_start(t, sa, cw[0]) + occ_count(bwt_of(t, sa), cw[0], x) <==> below(suffix(t, #[trigger] sa[i] as int), cw, incl)),
{
    let c = cw[0];
    let b = bwt_of(t, sa);
    let n = sa.len() as int;
    let lo = block_start(t, sa, c);
    let hi = block_end(t, sa, c);
    lemma_occ_total(t, sa, c);
    lemma_occ_monotone(b, c, x, n);
    assert forall|i: int| 0 <= i < sa.len() implies
        (i < lo + occ_count(b, c, x) <==> below(suffix(t, #[trigger] sa[i] as int), cw, incl)) by {
        lemma_below_cons(t, sa[i] as int, cw, incl);
        lemma_block(t, sa, c, i);
        if t[sa[i] as int] == c {
            lemma_rank(t, sa, c, i);
            lemma_next_row(t, sa, c, i);
            let pi = next_row(sa, i);
            if pi < x {
                lemma_occ_monotone(b, c, pi + 1, x);
            } else {
                lemma_occ_monotone(b, c, x, pi);
            }
        }
    }
}

/// The last-to-first map: the row of the suffix that starts one position
/// before the suffix of row `x`.
pub proof fn lemma_last_to_first(t: Seq<u8>, sa: Seq<usize>, x: int)
    requires
        is_suffix_array(t, sa),
        0 <= x < sa.len(),
        bwt_of(t, sa)[x] != t[t.len() - 1],
    ensures
        sa[x] > 0,
        0 <= block_start(t, sa, bwt_of(t, sa)[x]) + occ_count(bwt_of(t, sa), bwt_of(t, sa)[x], x) < sa.len(),
        sa[block_start(t, sa, bwt_of(t, sa)[x]) + occ_count(bwt_of(t, sa), bwt_of(t, sa)[x], x)] == sa[x] - 1,
{
    let c = bwt_of(t, sa)[x];
    let j = lemma_row_of_byte(t, sa, c, x);
    lemma_rank(t, sa, c, j);
    lemma_block(t, sa, c, j);
    lemma_next_row(t, sa, c, j);
}

/// When no suffix starts with the pattern, a backward-search interval is empty.
pub proof fn lemma_absent_interval(t: Seq<u8>, sa: Seq<usize>, w: Seq<u8>, lo: int, hi: int)
    requires
        is_suffix_array(t, sa),
        0 <= lo <= hi <= sa.len(),
        forall|i: int| 0 <= i < sa.len() ==> (lo <= i < hi <==> is_prefix(w, suffix(t, #[trigger] sa[i] as int))),
        forall|p: int| 0 <= p < t.len() ==> !is_prefix(w, #[trigger] suffix(t, p)),
    ensures
        lo == hi,
{
    if lo < hi {
        assert(is_prefix(w, suffix(t, sa[lo] as int)));
    }
}

/// Two indexes of the same text are equal in their suffix arrays, transforms
/// and tables of smaller symbols.
pub proof fn lemma_index_deterministic(a: FMIndex, b: FMIndex)
    requires
        a.wf(),
        b.wf(),
        a.text@ == b.text@,
    ensures
        a.sa@ == b.sa@,
        a.bwt@ == b.bwt@,
        a.less@ == b.less@,
{
    lemma_suffix_array_unique(a.text@, a.sa@, b.sa@);
}

/// Once the interval of a suffix of the pattern is empty, no row starts with
/// the whole pattern.
proof fn lemma_empty_stage(t: Seq<u8>, sa: Seq<usize>, w: Seq<u8>, k: int, lo: int, hi: int)
    requires
        is_suffix_array(t, sa),
        0 <= k <= w.len(),
        hi <= lo <= sa.len(),
        forall|i: int| 0 <= i < sa.len() ==> (i < lo <==> below(suffix(t, #[trigger] sa[i] as int), w.subrange(k, w.len() as int), false)),
        forall|i: int| 0 <= i < sa.len() ==> (i < hi <==> below(suffix(t, #[trigger] sa[i] as int), w.subrange(k, w.len() as int), true)),
    ensures
        forall|i: int| 0 <= i < sa.len() ==> !is_prefix(w, suffix(t, #[trigger] sa[i] as int)),
{
    let m = w.len() as int;
    let wk = w.subrange(k, m);
    assert forall|i: int| 0 <= i < sa.len() implies !is_prefix(w, suffix(t, #[trigger] sa[i] as int)) by {
        let p = sa[i] as int;
        if is_prefix(w, suffix(t, p)) {
            if m - k == 0 {
                assert(suffix(t, p).subrange(0, 0) =~= wk);
                assert(0 < hi);
            } else {
                lemma_sa_index(t, sa, p + k);
                let j = sa_index(sa, p + k);
                assert(suffix(t, p + k).subrange(0, m - k) =~= wk) by {
                    assert forall|q: int| 0 <= q < m - k implies suffix(t, p + k).subrange(0, m - k)[q] == wk[q] by {
                        assert(suffix(t, p).subrange(0, m)[q + k] == w[q + k]);
                    }
                }
                lemma_prefix_not_lt(wk, suffix(t, p + k));
                assert(below(suffix(t, sa[j] as int), wk, true));
            }
        }
    }
}

/// Holds the sentinel-terminated text, whose rows the index ranks.
pub struct FMIndex {
    pub sa: Vec<usize>,
    pub bwt: Vec<u8>,
    pub less: Vec<usize>,
    pub occ: OccTable,
    pub sentinel: u8,
    pub text: Ghost<Seq<u8>>,
}

impl FMIndex {
    pub open spec fn wf(&self) -> bool {
        &&& ends_with_sentinel(self.text@)
        &&& self.sentinel == self.text@[self.text@.len() - 1]
        &&& self.text@.len() + 32 <= usize::MAX / 256
        &&& is_suffix_array(self.text@, self.sa@)
        &&& self.bwt@ == bwt_of(self.text@, self.sa@)
        &&& self.less@ == less_table_of(self.text@, self.sa@)
        &&& self.occ.wf(self.bwt@)
    }

    /// Indexes `text`, whose last byte is a sentinel smaller than all others.
    pub fn new(text: &Vec<u8>) -> (r: FMIndex)
        requires
            ends_with_sentinel(text@),
            text.len() + 32 <= usize::MAX / 256,
        ensures
            r.wf(),
            r.text@ == text@,
    {
        let sa = sort_suffixes(text);
        let bwt = build_bwt(text, &sa);
        let less = build_less(text, &sa);
        let occ = OccTable::new(&bwt);
        FMIndex { sa, bwt, less, occ, sentinel: text[text.len() - 1], text: Ghost(text@) }
    }

    /// `less[c] + occ(c, x)`, the row reached from boundary `x` by the byte `c`.
    fn step(&self, c: u8, x: usize) -> (r: usize)
        requires
            self.wf(),
            c != self.sentinel,
            x <= self.sa.len(),
        ensures
            r == block_start(self.text@, self.sa@, c) + occ_count(self.bwt@, c, x as int),
            r <= block_end(self.text@, self.sa@, c),
    {
        proof {
            let t = self.text@;
            let sa = self.sa@;
            lemma_occ_total(t, sa, c);
            lemma_occ_monotone(self.bwt@, c, x as int, sa.len() as int);
            lemma_block(t, sa, c, 0);
            lemma_less_bounded(first_column(t, sa), c as int, sa.len() as int);
        }
        self.less[c as usize] + self.occ.get(&self.bwt, c, x)
    }

    /// Backward search: the half-open range of rows whose suffixes start with
    /// `pattern`, narrowed one byte at a time from the pattern's end. It stops
    /// as soon as the range is empty, and is empty when the pattern does not
    /// occur.
    pub fn backward_search(&self, pattern: &Vec<u8>) -> (r: (usize, usize))
        requires
            self.wf(),
            forall|k: int| 0 <= k < pattern.len() ==> #[trigger] pattern[k] != self.sentinel,
        ensures
            r.0 <= r.1 <= self.sa.len(),
            forall|i: int| 0 <= i < self.sa.len() ==>
                (r.0 <= i < r.1 <==> is_prefix(pattern@, suffix(self.text@, #[trigger] self.sa@[i] as int))),
    {
        let ghost t = self.text@;
        let ghost sa = self.sa@;
        let n = self.sa.len();
        let m = pattern.len();
        let mut lo: usize = 0;
        let mut hi: usize = n;
        let mut k: usize = m;
        proof {
            assert forall|i: int| 0 <= i < n implies !below(suffix(t, #[trigger] sa[i] as int), pattern@.subrange(m as int, m as int), false)
                && below(suffix(t, sa[i] as int), pattern@.subrange(m as int, m as int), true) by {
                assert(suffix(t, sa[i] as int).subrange(0, 0) =~= pattern@.subrange(m as int, m as int));
            }
        }
        while k > 0
            invariant
                self.wf(),
                t == self.text@,
                sa == self.sa@,
                n == sa.len(),
                m == pattern.len(),
                forall|j: int| 0 <= j < pattern.len() ==> #[trigger] pattern[j] != self.sentinel,
                k <= m,
                lo <= n,
                hi <= n,
                forall|i: int| 0 <= i < n ==> (i < lo <==> below(suffix(t, #[trigger] sa[i] as int), pattern@.subrange(k as int, m as int), false)),
                forall|i: int| 0 <= i < n ==> (i < hi <==> below(suffix(t, #[trigger] sa[i] as int), pattern@.subrange(k as int, m as int), true)),
            decreases k,
        {
            let c = pattern[k - 1];
            let ghost cw = pattern@.subrange(k - 1, m as int);
            proof {
                assert(cw.drop_first() =~= pattern@.subrange(k as int, m as int));
                assert(cw[0] == c);
                lemma_backward_step(t, sa, cw, false, lo as int);
                lemma_backward_step(t, sa, cw, true, hi as int);
                lemma_block(t, sa, c, 0);
            }
            lo = self.step(c, lo);
            hi = self.step(c, hi);
            k -= 1;
            if lo >= hi {
                proof {
                    lemma_empty_stage(t, sa, pattern@, k as int, lo as int, hi as int);
                }
                return (lo, lo);
            }
        }
        proof {
            assert(pattern@.subrange(0, m as int) =~= pattern@);
            assert forall|i: int| 0 <= i < n implies (lo <= i < hi <==> is_prefix(pattern@, suffix(t, #[trigger] sa[i] as int))) by {
                if is_prefix(pattern@, suffix(t, sa[i] as int)) {
                    lemma_prefix_not_lt(pattern@, suffix(t, sa[i] as int));
                }
            }
            if hi < lo {
                assert(below(suffix(t, sa[hi as int] as int), pattern@, false));
            }
        }
        (lo, hi)
    }

    /// Rebuilds the text from the transform alone by following the
    /// last-to-first map from the row of the sentinel.
    pub fn invert(&self) -> (r: Vec<u8>)
        requires
            self.wf(),
        ensures
            r@ == self.text@,
    {
        let ghost t = self.text@;
        let ghost sa = self.sa@;
        let n = self.bwt.len();
        proof {
            lemma_sa_index(t, sa, n - 1);
            let i0 = sa_index(sa, n - 1);
            if i0 != 0 {
                assert(lex_lt(suffix(t, sa[0] as int), suffix(t, sa[i0] as int)));
                lemma_suffix_drop_first(t, sa[0] as int);
                lemma_suffix_drop_first(t, n - 1);
                if sa[0] == n - 1 {
                    lemma_sa_injective(t, sa, 0, i0);
                }
            }
        }
        let mut r: Vec<u8> = vec![self.sentinel; n];
        let mut row: usize = 0;
        let mut k: usize = 1;
        while k < n
            invariant
                self.wf(),
                t == self.text@,
                sa == self.sa@,
                n == t.len(),
                1 <= k <= n,
                row < n,
                sa[row as int] == n - k,
                r.len() == n,
                forall|j: int| n - k <= j < n ==> #[trigger] r[j] == t[j],
            decreases n - k,
        {
            let c = self.bwt[row];
            assert(c == t[n - k - 1]);
            proof {
                lemma_last_to_first(t, sa, row as int);
            }
            r.set(n - k - 1, c);
            row = self.step(c, row);
            k += 1;
        }
        assert(r@ =~= t);
        r
    }
}

} // verus!
