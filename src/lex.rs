//! Lexicographic order on byte sequences, suffixes and prefixes.
use vstd::prelude::*;

verus! {

/// The suffix of `t` that starts at position `j`.
pub open spec fn suffix(t: Seq<u8>, j: int) -> Seq<u8> {
    t.subrange(j, t.len() as int)
}

/// Strict lexicographic order: a proper prefix comes before the longer sequence.
pub open spec fn lex_lt(a: Seq<u8>, b: Seq<u8>) -> bool
    decreases a.len(),
{
    if b.len() == 0 {
        false
    } else if a.len() == 0 {
        true
    } else if a[0] != b[0] {
        a[0] < b[0]
    } else {
        lex_lt(a.drop_first(), b.drop_first())
    }
}

/// `p` is a prefix of `s`.
pub open spec fn is_prefix(p: Seq<u8>, s: Seq<u8>) -> bool {
    p.len() <= s.len() && s.subrange(0, p.len() as int) == p
}

/// `s` sorts before every sequence that starts with `w` (`incl == false`), or
/// before every sequence that starts with `w` or with it (`incl == true`).
pub open spec fn below(s: Seq<u8>, w: Seq<u8>, incl: bool) -> bool {
    lex_lt(s, w) || (incl && is_prefix(w, s))
}

/// Some entry of `sa` is `p`.
pub open spec fn lists_position(sa: Seq<usize>, p: int) -> bool {
    exists|i: int| 0 <= i < sa.len() && sa[i] == p
}

/// `sa` lists every position of `t` once, in the lexicographic order of the
/// suffixes that start there.
pub open spec fn is_suffix_array(t: Seq<u8>, sa: Seq<usize>) -> bool {
    &&& sa.len() == t.len()
    &&& forall|i: int| 0 <= i < sa.len() ==> #[trigger] sa[i] < t.len()
    &&& forall|p: int| 0 <= p < t.len() ==> #[trigger] lists_position(sa, p)
    &&& forall|i: int, k: int|
        0 <= i < k < sa.len() ==> lex_lt(suffix(t, #[trigger] sa[i] as int), suffix(t, #[trigger] sa[k] as int))
}

/// The last byte of `t` occurs nowhere else in it and is smaller than every other byte.
pub open spec fn ends_with_sentinel(t: Seq<u8>) -> bool {
    t.len() >= 1 && forall|j: int| 0 <= j < t.len() - 1 ==> #[trigger] t[j] > t[t.len() - 1]
}

pub proof fn lemma_lt_irreflexive(a: Seq<u8>)
    ensures
        !lex_lt(a, a),
    decreases a.len(),
{
    if a.len() > 0 {
        lemma_lt_irreflexive(a.drop_first());
    }
}

pub proof fn lemma_lt_transitive(a: Seq<u8>, b: Seq<u8>, c: Seq<u8>)
    requires
        lex_lt(a, b),
        lex_lt(b, c),
    ensures
        lex_lt(a, c),
    decreases a.len(),
{
    if a.len() > 0 && a[0] == b[0] && b[0] == c[0] {
        lemma_lt_transitive(a.drop_first(), b.drop_first(), c.drop_first());
    }
}

pub proof fn lemma_lt_asymmetric(a: Seq<u8>, b: Seq<u8>)
    requires
        lex_lt(a, b),
    ensures
        !lex_lt(b, a),
{
    if lex_lt(b, a) {
        lemma_lt_transitive(a, b, a);
        lemma_lt_irreflexive(a);
    }
}

/// A sequence that starts with `w` does not sort before `w`.
pub proof fn lemma_prefix_not_lt(w: Seq<u8>, s: Seq<u8>)
    requires
        is_prefix(w, s),
    ensures
        !lex_lt(s, w),
    decreases w.len(),
{
    if w.len() > 0 {
        assert(s[0] == w[0]) by {
            assert(s.subrange(0, w.len() as int)[0] == s[0]);
        }
        assert(s.drop_first().subrange(0, w.len() - 1) =~= w.drop_first()) by {
            assert forall|k: int| 0 <= k < w.len() - 1 implies s.drop_first().subrange(0, w.len() - 1)[k]
                == w.drop_first()[k] by {
                assert(s.subrange(0, w.len() as int)[k + 1] == s[k + 1]);
            }
        }
        lemma_prefix_not_lt(w.drop_first(), s.drop_first());
    }
}

/// Dropping the first byte of a suffix gives the next suffix.
pub proof fn lemma_suffix_drop_first(t: Seq<u8>, j: int)
    requires
        0 <= j < t.len(),
    ensures
        suffix(t, j).len() > 0,
        suffix(t, j)[0] == t[j],
        suffix(t, j).drop_first() == suffix(t, j + 1),
{
    assert(suffix(t, j).drop_first() =~= suffix(t, j + 1));
}

/// How `below` behaves on a suffix against a pattern `w` preceded by the byte `c`.
pub proof fn lemma_below_cons(t: Seq<u8>, j: int, cw: Seq<u8>, incl: bool)
    requires
        0 <= j < t.len(),
        cw.len() > 0,
    ensures
        t[j] < cw[0] ==> below(suffix(t, j), cw, incl),
        t[j] > cw[0] ==> !below(suffix(t, j), cw, incl),
        t[j] == cw[0] ==> (below(suffix(t, j), cw, incl) <==> below(suffix(t, j + 1), cw.drop_first(), incl)),
{
    let s = suffix(t, j);
    lemma_suffix_drop_first(t, j);
    if is_prefix(cw, s) {
        assert(s.subrange(0, cw.len() as int)[0] == s[0]);
        assert(s.drop_first().subrange(0, cw.len() - 1) =~= cw.drop_first()) by {
            assert forall|k: int| 0 <= k < cw.len() - 1 implies s.drop_first().subrange(0, cw.len() - 1)[k]
                == cw.drop_first()[k] by {
                assert(s.subrange(0, cw.len() as int)[k + 1] == s[k + 1]);
            }
        }
    }
    if t[j] == cw[0] && is_prefix(cw.drop_first(), s.drop_first()) {
        assert(s.subrange(0, cw.len() as int) =~= cw) by {
            assert forall|k: int| 0 <= k < cw.len() implies s.subrange(0, cw.len() as int)[k] == cw[k] by {
                if k > 0 {
                    assert(s.drop_first().subrange(0, cw.len() - 1)[k - 1] == s[k]);
                }
            }
        }
    }
}

/// Positions listed by a suffix array are distinct.
pub proof fn lemma_sa_injective(t: Seq<u8>, sa: Seq<usize>, i: int, k: int)
    requires
        is_suffix_array(t, sa),
        0 <= i < sa.len(),
        0 <= k < sa.len(),
        sa[i] == sa[k],
    ensures
        i == k,
{
    if i < k {
        lemma_lt_irreflexive(suffix(t, sa[i] as int));
    } else if k < i {
        lemma_lt_irreflexive(suffix(t, sa[k] as int));
    }
}

/// Suffix order and index order agree in a suffix array.
pub proof fn lemma_sa_order(t: Seq<u8>, sa: Seq<usize>, i: int, k: int)
    requires
        is_suffix_array(t, sa),
        0 <= i < sa.len(),
        0 <= k < sa.len(),
        lex_lt(suffix(t, sa[i] as int), suffix(t, sa[k] as int)),
    ensures
        i < k,
{
    if i == k {
        lemma_lt_irreflexive(suffix(t, sa[i] as int));
    } else if k < i {
        lemma_lt_asymmetric(suffix(t, sa[k] as int), suffix(t, sa[i] as int));
    }
}

/// The index at which a suffix array lists position `p`.
pub open spec fn sa_index(sa: Seq<usize>, p: int) -> int {
    choose|i: int| 0 <= i < sa.len() && sa[i] == p
}

pub proof fn lemma_sa_index(t: Seq<u8>, sa: Seq<usize>, p: int)
    requires
        is_suffix_array(t, sa),
        0 <= p < t.len(),
    ensures
        0 <= sa_index(sa, p) < sa.len(),
        sa[sa_index(sa, p)] == p,
{
    assert(lists_position(sa, p));
}

/// A text has only one suffix array.
pub proof fn lemma_suffix_array_unique(t: Seq<u8>, a: Seq<usize>, b: Seq<usize>)
    requires
        is_suffix_array(t, a),
        is_suffix_array(t, b),
    ensures
        a == b,
{
    assert forall|i: int| 0 <= i < a.len() implies a[i] == b[i] by {
        lemma_agree_at(t, a, b, i);
    }
    assert(a =~= b);
}

proof fn lemma_agree_at(t: Seq<u8>, a: Seq<usize>, b: Seq<usize>, i: int)
    requires
        is_suffix_array(t, a),
        is_suffix_array(t, b),
        0 <= i < a.len(),
    ensures
        a[i] == b[i],
    decreases i,
{
    assert forall|k: int| 0 <= k < i implies a[k] == b[k] by {
        lemma_agree_at(t, a, b, k);
    }
    if a[i] != b[i] {
        let x = a[i] as int;
        let y = b[i] as int;
        lemma_sa_index(t, b, x);
        lemma_sa_index(t, a, y);
        let j = sa_index(b, x);
        let jj = sa_index(a, y);
        if j < i {
            lemma_sa_injective(t, a, j, i);
        }
        if jj < i {
            lemma_sa_injective(t, b, jj, i);
        }
        assert(lex_lt(suffix(t, b[i] as int), suffix(t, b[j] as int)));
        assert(lex_lt(suffix(t, a[i] as int), suffix(t, a[jj] as int)));
        lemma_lt_asymmetric(suffix(t, y), suffix(t, x));
    }
}

} // verus!
