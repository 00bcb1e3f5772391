//! Sequence records, one FM-index per record, and the manager that swaps in
//! a whole new set of indexes on each ingestion.
use vstd::prelude::*;
use crate::alphabet::{is_symbol, is_word, validate, SENTINEL, lemma_symbol_above_sentinel};
use crate::fmindex::{FMIndex, lemma_index_deterministic};
use vstd::seq_lib::to_multiset_contains;
use crate::lex::{ends_with_sentinel, is_prefix, suffix, sa_index, lemma_sa_index, lemma_sa_injective};

verus! {

/// The longest record that can be indexed.
pub const MAX_RECORD_LEN: usize = usize::MAX / 256 - 33;

/// One record of a corpus: an identifier and a sequence of symbols.
#[derive(Clone, Debug)]
pub struct SequenceRecord {
    pub id: String,
    pub sequence: Vec<u8>,
}

impl View for SequenceRecord {
    type V = (Seq<char>, Seq<u8>);

    open spec fn view(&self) -> (Seq<char>, Seq<u8>) {
        (self.id@, self.sequence@)
    }
}

impl SequenceRecord {
    pub fn new(id: String, sequence: Vec<u8>) -> (r: SequenceRecord)
        ensures
            r.id == id,
            r.sequence == sequence,
    {
        SequenceRecord { id, sequence }
    }
}

/// One occurrence: the record's identifier and the offset in its sequence.
#[derive(Clone, Debug)]
pub struct Match {
    pub record_id: String,
    pub offset: usize,
}

impl View for Match {
    type V = (Seq<char>, usize);

    open spec fn view(&self) -> (Seq<char>, usize) {
        (self.record_id@, self.offset)
    }
}

/// Why an ingestion was refused.
#[derive(Clone, Copy, Debug, PartialEq, Eq, Structural)]
pub enum BuildError {
    /// No records were given.
    EmptyCorpus,
    /// The record at this index holds a byte outside the alphabet.
    InvalidSymbol { record: usize },
    /// The record at this index is longer than `MAX_RECORD_LEN`.
    RecordTooLong { record: usize },
}

/// Why a search could not run.
#[derive(Clone, Copy, Debug, PartialEq, Eq, Structural)]
pub enum QueryError {
    /// No corpus has been ingested yet.
    NotIndexed,
}

/// `w` occurs in `s` at offset `p`, an offset of `s`.
pub open spec fn occurs_at(s: Seq<u8>, w: Seq<u8>, p: int) -> bool {
    0 <= p < s.len() && p + w.len() <= s.len() && s.subrange(p, p + w.len() as int) == w
}

/// The offsets below `k` at which `w` occurs in `s`, ascending.
pub open spec fn offsets_upto(s: Seq<u8>, w: Seq<u8>, k: int) -> Seq<usize>
    decreases k,
{
    if k <= 0 {
        seq![]
    } else {
        offsets_upto(s, w, k - 1) + (if occurs_at(s, w, k - 1) { seq![(k - 1) as usize] } else { seq![] })
    }
}

/// Every offset of `s` at which `w` occurs, ascending. The empty pattern
/// occurs at every offset.
pub open spec fn offsets(s: Seq<u8>, w: Seq<u8>) -> Seq<usize> {
    offsets_upto(s, w, s.len() as int)
}

pub open spec fn record_matches(id: Seq<char>, s: Seq<u8>, w: Seq<u8>) -> Seq<(Seq<char>, usize)> {
    offsets(s, w).map_values(|p: usize| (id, p))
}

/// The matches of `w` in the first `k` records, record by record.
pub open spec fn match_list(recs: Seq<(Seq<char>, Seq<u8>)>, w: Seq<u8>, k: int) -> Seq<(Seq<char>, usize)>
    decreases k,
{
    if k <= 0 {
        seq![]
    } else {
        match_list(recs, w, k - 1) + record_matches(recs[k - 1].0, recs[k - 1].1, w)
    }
}

/// The match set of `w`: in record order, and by ascending offset within a record.
pub open spec fn matches_in(recs: Seq<(Seq<char>, Seq<u8>)>, w: Seq<u8>) -> Seq<(Seq<char>, usize)> {
    match_list(recs, w, recs.len() as int)
}

/// The error that ingestion of records with these sequences reports, if any,
/// looking at the records from index `k` on.
pub open spec fn first_error_from(seqs: Seq<Seq<u8>>, k: int) -> Option<BuildError>
    decreases seqs.len() - k,
{
    if k < 0 || k >= seqs.len() {
        None
    } else if !is_word(seqs[k]) {
        Some(BuildError::InvalidSymbol { record: k as usize })
    } else if seqs[k].len() > MAX_RECORD_LEN {
        Some(BuildError::RecordTooLong { record: k as usize })
    } else {
        first_error_from(seqs, k + 1)
    }
}

/// The error that ingestion of records with these sequences reports, if any.
pub open spec fn build_error(seqs: Seq<Seq<u8>>) -> Option<BuildError> {
    if seqs.len() == 0 {
        Some(BuildError::EmptyCorpus)
    } else {
        first_error_from(seqs, 0)
    }
}

pub open spec fn sequences_of(records: Seq<SequenceRecord>) -> Seq<Seq<u8>> {
    records.map_values(|r: SequenceRecord| r.sequence@)
}

pub open spec fn views_of(records: Seq<SequenceRecord>) -> Seq<(Seq<char>, Seq<u8>)> {
    records.map_values(|r: SequenceRecord| r@)
}

/// In a sentinel-terminated copy of `s`, a suffix starting before the
/// sentinel begins with `w` exactly when `w` occurs there in `s`.
proof fn lemma_prefix_occurs(text: Seq<u8>, s: Seq<u8>, w: Seq<u8>, p: int)
    requires
        text == s.push(SENTINEL),
        is_word(w),
        0 <= p < s.len(),
    ensures
        is_prefix(w, suffix(text, p)) <==> occurs_at(s, w, p),
{
    let m = w.len() as int;
    let suf = suffix(text, p);
    if p + m <= s.len() {
        assert(suf.subrange(0, m) =~= s.subrange(p, p + m));
    } else if m <= suf.len() {
        let k = s.len() - p;
        assert(suf.subrange(0, m)[k] == SENTINEL);
        lemma_symbol_above_sentinel(w[k]);
    }
}

/// A record made of symbols holds no pattern with a byte outside the alphabet.
proof fn lemma_no_offsets(s: Seq<u8>, w: Seq<u8>, k: int)
    requires
        is_word(s),
        !is_word(w),
    ensures
        offsets_upto(s, w, k) == Seq::<usize>::empty(),
    decreases k,
{
    if k > 0 {
        lemma_no_offsets(s, w, k - 1);
        if occurs_at(s, w, k - 1) {
            let j = choose|j: int| 0 <= j < w.len() && !is_symbol(#[trigger] w[j]);
            assert(s.subrange(k - 1, k - 1 + w.len())[j] == s[k - 1 + j]);
        }
        assert(offsets_upto(s, w, k) =~= Seq::<usize>::empty());
    }
}

/// The FM-index of one record's sequence followed by the sentinel.
pub struct RecordIndex {
    pub id: String,
    pub len: usize,
    pub fm: FMIndex,
}

impl RecordIndex {
    pub open spec fn sequence(&self) -> Seq<u8> {
        self.fm.text@.subrange(0, self.len as int)
    }

    pub open spec fn wf(&self) -> bool {
        &&& self.fm.wf()
        &&& self.fm.text@.len() == self.len + 1
        &&& self.fm.text@ == self.sequence().push(SENTINEL)
        &&& self.fm.sentinel == SENTINEL
        &&& is_word(self.sequence())
    }

    pub fn new(id: &String, sequence: &Vec<u8>) -> (r: RecordIndex)
        requires
            is_word(sequence@),
            sequence.len() <= MAX_RECORD_LEN,
        ensures
            r.wf(),
            r.id@ == id@,
            r.sequence() == sequence@,
    {
        let n = sequence.len();
        let mut text: Vec<u8> = Vec::with_capacity(n + 1);
        let mut i: usize = 0;
        while i < n
            invariant
                n == sequence.len(),
                i <= n,
                text@ == sequence@.subrange(0, i as int),
            decreases n - i,
        {
            text.push(sequence[i]);
            i += 1;
            assert(text@ =~= sequence@.subrange(0, i as int));
        }
        text.push(SENTINEL);
        assert(sequence@.subrange(0, n as int) =~= sequence@);
        assert(ends_with_sentinel(text@)) by {
            assert forall|j: int| 0 <= j < text@.len() - 1 implies #[trigger] text@[j] > text@[text@.len() - 1] by {
                lemma_symbol_above_sentinel(sequence@[j]);
            }
        }
        let fm = FMIndex::new(&text);
        assert(fm.text@.subrange(0, n as int) =~= sequence@);
        RecordIndex { id: id.clone(), len: n, fm }
    }

    /// The offsets at which `pattern` occurs in the record, ascending.
    pub fn find(&self, pattern: &Vec<u8>) -> (r: Vec<usize>)
        requires
            self.wf(),
            is_word(pattern@),
        ensures
            r@ == offsets(self.sequence(), pattern@),
    {
        let ghost t = self.fm.text@;
        let ghost sa = self.fm.sa@;
        let n = self.fm.sa.len();
        proof {
            assert forall|k: int| 0 <= k < pattern.len() implies #[trigger] pattern[k] != self.fm.sentinel by {
                lemma_symbol_above_sentinel(pattern@[k]);
            }
        }
        let (lo, hi) = self.fm.backward_search(pattern);
        let len = self.len;
        assert(n == len + 1);
        let mut hits: Vec<usize> = Vec::new();
        let mut i: usize = lo;
        while i < hi
            invariant
                self.wf(),
                t == self.fm.text@,
                sa == self.fm.sa@,
                n == sa.len(),
                n == len + 1,
                lo <= i <= hi,
                hi <= n,
                hits@.no_duplicates(),
                forall|x: usize| #[trigger] hits@.contains(x) <==> (x < len && lo <= sa_index(sa, x as int) < i),
            decreases hi - i,
        {
            let p = self.fm.sa[i];
            proof {
                lemma_sa_index(t, sa, p as int);
                lemma_sa_injective(t, sa, i as int, sa_index(sa, p as int));
            }
            if p < len {
                let ghost before = hits@;
                hits.push(p);
                proof {
                    assert forall|y: usize| #[trigger] hits@.contains(y) <==> (before.contains(y) || y == p) by {
                        if before.contains(y) {
                            let q = choose|q: int| 0 <= q < before.len() && before[q] == y;
                            assert(hits@[q] == y);
                        }
                        if y == p {
                            assert(hits@[before.len() as int] == y);
                        }
                        if hits@.contains(y) {
                            let q = choose|q: int| 0 <= q < hits@.len() && hits@[q] == y;
                            if q < before.len() {
                                assert(before[q] == y);
                            }
                        }
                    }
                    assert forall|y: usize| #[trigger] hits@.contains(y) <==> (y < len && lo <= sa_index(sa, y as int) < i + 1) by {
                        if y < n {
                            lemma_sa_index(t, sa, y as int);
                            if sa_index(sa, y as int) == i {
                                lemma_sa_injective(t, sa, i as int, sa_index(sa, y as int));
                            }
                        }
                    }
                    assert(!before.contains(p));
                }
            } else {
                proof {
                    assert forall|y: usize| #[trigger] hits@.contains(y) <==> (y < len && lo <= sa_index(sa, y as int) < i + 1) by {
                        if y < n {
                            lemma_sa_index(t, sa, y as int);
                        }
                    }
                }
            }
            i += 1;
        }
        let sorted = sort_positions(hits);
        proof {
            let h = hits@;
            let s = sorted@;
            h.lemma_multiset_has_no_duplicates();
            assert forall|x: usize| #[trigger] s.contains(x) <==> h.contains(x) by {
                to_multiset_contains(s, x);
                to_multiset_contains(h, x);
            }
            assert forall|x: usize| s.to_multiset().contains(x) implies s.to_multiset().count(x) == 1 by {
                to_multiset_contains(s, x);
            }
            s.lemma_multiset_has_no_duplicates_conv();
            assert forall|x: usize| #[trigger] s.contains(x) <==> (x < len && occurs_at(self.sequence(), pattern@, x as int)) by {
                if x < len {
                    lemma_sa_index(t, sa, x as int);
                    lemma_prefix_occurs(t, self.sequence(), pattern@, x as int);
                }
            }
            lemma_sorted_offsets(s, self.sequence(), pattern@, len as int);
        }
        sorted
    }
}

/// An ascending list that holds exactly the offsets below `k` at which `w`
/// occurs is `offsets_upto(s, w, k)`.
proof fn lemma_sorted_offsets(v: Seq<usize>, s: Seq<u8>, w: Seq<u8>, k: int)
    requires
        0 <= k <= s.len(),
        k <= usize::MAX,
        forall|i: int, j: int| 0 <= i < j < v.len() ==> v[i] < v[j],
        forall|x: usize| #[trigger] v.contains(x) <==> (x < k && occurs_at(s, w, x as int)),
    ensures
        v == offsets_upto(s, w, k),
    decreases k,
{
    if k == 0 {
        if v.len() > 0 {
            assert(v.contains(v[0]));
        }
        assert(v =~= Seq::<usize>::empty());
    } else if occurs_at(s, w, k - 1) {
        let top = (k - 1) as usize;
        assert(v.contains(top));
        let q = choose|q: int| 0 <= q < v.len() && v[q] == top;
        let last = v.len() - 1;
        if q < last {
            assert(v.contains(v[last]));
        }
        assert(q == last);
        let u = v.drop_last();
        assert forall|x: usize| #[trigger] u.contains(x) <==> (x < k - 1 && occurs_at(s, w, x as int)) by {
            if u.contains(x) {
                let r = choose|r: int| 0 <= r < u.len() && u[r] == x;
                assert(v[r] == x);
                assert(v.contains(x));
            }
            if x < k - 1 && occurs_at(s, w, x as int) {
                assert(v.contains(x));
                let r = choose|r: int| 0 <= r < v.len() && v[r] == x;
                assert(u[r] == x);
            }
        }
        lemma_sorted_offsets(u, s, w, k - 1);
        assert(v =~= u.push(top));
    } else {
        lemma_sorted_offsets(v, s, w, k - 1);
        assert(offsets_upto(s, w, k) =~= offsets_upto(s, w, k - 1));
    }
}

/// Relies on `<[usize]>::sort_unstable`, which sorts the slice in ascending order.
#[verifier::external_body]
fn sort_positions(v: Vec<usize>) -> (r: Vec<usize>)
    ensures
        r@.to_multiset() == v@.to_multiset(),
        forall|i: int, j: int| 0 <= i < j < r.len() ==> r[i] <= r[j],
{
    let mut v = v;
    v.sort_unstable();
    v
}

/// The per-record indexes of one ingested corpus.
pub struct CorpusIndex {
    pub records: Vec<RecordIndex>,
}

impl CorpusIndex {
    /// The identifier and sequence of each record, in order.
    pub open spec fn contents(&self) -> Seq<(Seq<char>, Seq<u8>)> {
        Seq::new(self.records.len() as nat, |i: int| (self.records[i].id@, self.records[i].sequence()))
    }

    pub open spec fn wf(&self) -> bool {
        forall|i: int| 0 <= i < self.records.len() ==> #[trigger] self.records[i].wf()
    }

    /// Indexes every record, or reports the first problem without indexing anything.
    pub fn build(records: &Vec<SequenceRecord>) -> (r: Result<CorpusIndex, BuildError>)
        ensures
            match r {
                Ok(ci) => build_error(sequences_of(records@)) is None && ci.wf() && ci.contents() == views_of(records@),
                Err(e) => build_error(sequences_of(records@)) == Some(e),
            },
    {
        let ghost seqs = sequences_of(records@);
        if records.len() == 0 {
            return Err(BuildError::EmptyCorpus);
        }
        let mut out: Vec<RecordIndex> = Vec::new();
        let mut k: usize = 0;
        while k < records.len()
            invariant
                seqs == sequences_of(records@),
                records.len() > 0,
                k <= records.len(),
                first_error_from(seqs, 0) == first_error_from(seqs, k as int),
                out.len() == k,
                forall|i: int| 0 <= i < k ==> #[trigger] out[i].wf(),
                forall|i: int| 0 <= i < k ==> (#[trigger] out[i].id@, out[i].sequence()) == records@[i]@,
            decreases records.len() - k,
        {
            let rec = &records[k];
            if !validate(rec.sequence.as_slice()) {
                return Err(BuildError::InvalidSymbol { record: k });
            }
            if rec.sequence.len() > MAX_RECORD_LEN {
                return Err(BuildError::RecordTooLong { record: k });
            }
            let ri = RecordIndex::new(&rec.id, &rec.sequence);
            out.push(ri);
            k += 1;
        }
        let ci = CorpusIndex { records: out };
        assert(ci.contents() =~= views_of(records@));
        Ok(ci)
    }

    /// The match set of `pattern` over all records.
    pub fn search(&self, pattern: &Vec<u8>) -> (r: Vec<Match>)
        requires
            self.wf(),
        ensures
            r@.map_values(|m: Match| m@) == matches_in(self.contents(), pattern@),
    {
        let ghost recs = self.contents();
        let mut out: Vec<Match> = Vec::new();
        if !validate(pattern.as_slice()) {
            proof {
                assert forall|i: int| 0 <= i < recs.len() implies is_word(#[trigger] recs[i].1) by {
                    assert(self.records[i].wf());
                }
                assert forall|k: int| 0 <= k <= recs.len() implies match_list(recs, pattern@, k) == Seq::<(Seq<char>, usize)>::empty() by {
                    lemma_no_match_list(recs, pattern@, k);
                }
                assert(out@.map_values(|m: Match| m@) =~= Seq::<(Seq<char>, usize)>::empty());
            }
            return out;
        }
        let mut r: usize = 0;
        while r < self.records.len()
            invariant
                self.wf(),
                recs == self.contents(),
                is_word(pattern@),
                r <= self.records.len(),
                out@.map_values(|m: Match| m@) == match_list(recs, pattern@, r as int),
            decreases self.records.len() - r,
        {
            let ri = &self.records[r];
            let offs = ri.find(pattern);
            let ghost base = out@.map_values(|m: Match| m@);
            let ghost here = record_matches(ri.id@, ri.sequence(), pattern@);
            let mut j: usize = 0;
            while j < offs.len()
                invariant
                    offs@ == offsets(ri.sequence(), pattern@),
                    here == record_matches(ri.id@, ri.sequence(), pattern@),
                    j <= offs.len(),
                    out@.map_values(|m: Match| m@) == base + here.subrange(0, j as int),
                decreases offs.len() - j,
            {
                let ghost before = out@;
                out.push(Match { record_id: ri.id.clone(), offset: offs[j] });
                proof {
                    assert(out@ == before.push(out@[out@.len() - 1]));
                    assert(here[j as int] == (ri.id@, offs@[j as int]));
                    assert(here.subrange(0, j + 1) =~= here.subrange(0, j as int).push(here[j as int]));
                    assert(out@.map_values(|m: Match| m@) =~= before.map_values(|m: Match| m@).push(out@[out@.len() - 1]@));
                }
                j += 1;
                assert(out@.map_values(|m: Match| m@) =~= base + here.subrange(0, j as int));
            }
            assert(here.subrange(0, j as int) =~= here);
            r += 1;
        }
        out
    }
}

proof fn lemma_no_match_list(recs: Seq<(Seq<char>, Seq<u8>)>, w: Seq<u8>, k: int)
    requires
        forall|i: int| 0 <= i < recs.len() ==> is_word(#[trigger] recs[i].1),
        !is_word(w),
        k <= recs.len(),
    ensures
        match_list(recs, w, k) == Seq::<(Seq<char>, usize)>::empty(),
    decreases k,
{
    if k > 0 {
        lemma_no_match_list(recs, w, k - 1);
        lemma_no_offsets(recs[k - 1].1, w, recs[k - 1].1.len() as int);
        assert(match_list(recs, w, k) =~= Seq::<(Seq<char>, usize)>::empty());
    }
}

proof fn lemma_offset_listed(s: Seq<u8>, w: Seq<u8>, p: int, k: int)
    requires
        occurs_at(s, w, p),
        p < k,
    ensures
        offsets_upto(s, w, k).contains(p as usize),
    decreases k,
{
    if k - 1 == p {
        let prev = offsets_upto(s, w, k - 1);
        assert(offsets_upto(s, w, k)[prev.len() as int] == p as usize);
    } else {
        lemma_offset_listed(s, w, p, k - 1);
        let q = choose|q: int| 0 <= q < offsets_upto(s, w, k - 1).len() && #[trigger] offsets_upto(s, w, k - 1)[q] == p as usize;
        assert(offsets_upto(s, w, k)[q] == p as usize);
    }
}

proof fn lemma_match_listed(recs: Seq<(Seq<char>, Seq<u8>)>, w: Seq<u8>, r: int, p: int, k: int)
    requires
        0 <= r < k <= recs.len(),
        occurs_at(recs[r].1, w, p),
    ensures
        match_list(recs, w, k).contains((recs[r].0, p as usize)),
    decreases k,
{
    let prev = match_list(recs, w, k - 1);
    if k - 1 == r {
        let s = recs[r].1;
        lemma_offset_listed(s, w, p, s.len() as int);
        let q = choose|q: int| 0 <= q < offsets(s, w).len() && #[trigger] offsets(s, w)[q] == p as usize;
        assert(match_list(recs, w, k)[prev.len() + q] == (recs[r].0, p as usize));
    } else {
        lemma_match_listed(recs, w, r, p, k - 1);
        let q = choose|q: int| 0 <= q < prev.len() && #[trigger] prev[q] == (recs[r].0, p as usize);
        assert(match_list(recs, w, k)[q] == (recs[r].0, p as usize));
    }
}

/// Every occurrence of a pattern in a record is in the pattern's match set.
pub proof fn lemma_occurrence_reported(recs: Seq<(Seq<char>, Seq<u8>)>, w: Seq<u8>, r: int, p: int)
    requires
        0 <= r < recs.len(),
        occurs_at(recs[r].1, w, p),
    ensures
        matches_in(recs, w).contains((recs[r].0, p as usize)),
{
    lemma_match_listed(recs, w, r, p, recs.len() as int);
}

proof fn lemma_offsets_only_occurrences(s: Seq<u8>, w: Seq<u8>, k: int)
    requires
        forall|p: int| !occurs_at(s, w, p),
    ensures
        offsets_upto(s, w, k) == Seq::<usize>::empty(),
    decreases k,
{
    if k > 0 {
        lemma_offsets_only_occurrences(s, w, k - 1);
        assert(offsets_upto(s, w, k) =~= Seq::<usize>::empty());
    }
}

proof fn lemma_absent_list(recs: Seq<(Seq<char>, Seq<u8>)>, w: Seq<u8>, k: int)
    requires
        k <= recs.len(),
        forall|r: int, p: int| 0 <= r < recs.len() ==> !#[trigger] occurs_at(recs[r].1, w, p),
    ensures
        match_list(recs, w, k) == Seq::<(Seq<char>, usize)>::empty(),
    decreases k,
{
    if k > 0 {
        lemma_absent_list(recs, w, k - 1);
        let s = recs[k - 1].1;
        assert forall|p: int| !occurs_at(s, w, p) by {
            assert(!occurs_at(recs[k - 1].1, w, p));
        }
        lemma_offsets_only_occurrences(s, w, s.len() as int);
        assert(match_list(recs, w, k) =~= Seq::<(Seq<char>, usize)>::empty());
    }
}

/// A pattern that occurs in no record has an empty match set.
pub proof fn lemma_absent_pattern(recs: Seq<(Seq<char>, Seq<u8>)>, w: Seq<u8>)
    requires
        forall|r: int, p: int| 0 <= r < recs.len() ==> !#[trigger] occurs_at(recs[r].1, w, p),
    ensures
        matches_in(recs, w) == Seq::<(Seq<char>, usize)>::empty(),
{
    lemma_absent_list(recs, w, recs.len() as int);
}

/// The empty pattern matches at every offset of a record.
pub proof fn lemma_empty_pattern(s: Seq<u8>, k: int)
    requires
        0 <= k <= s.len(),
    ensures
        offsets_upto(s, Seq::<u8>::empty(), k) == Seq::new(k as nat, |i: int| i as usize),
    decreases k,
{
    if k > 0 {
        lemma_empty_pattern(s, k - 1);
        assert(s.subrange(k - 1, k - 1) =~= Seq::<u8>::empty());
        assert(offsets_upto(s, Seq::<u8>::empty(), k) =~= Seq::new(k as nat, |i: int| i as usize));
    }
}

/// Two corpus indexes over the same records hold the same suffix arrays and
/// transforms; their searches agree too, as `search` returns `matches_in` of
/// the contents alone.
pub proof fn lemma_rebuild_identical(a: CorpusIndex, b: CorpusIndex)
    requires
        a.wf(),
        b.wf(),
        a.contents() == b.contents(),
    ensures
        forall|i: int| 0 <= i < a.records.len() ==> (#[trigger] a.records[i]).fm.sa@ == b.records[i].fm.sa@
            && a.records[i].fm.bwt@ == b.records[i].fm.bwt@,
{
    assert forall|i: int| 0 <= i < a.records.len() implies (#[trigger] a.records[i]).fm.sa@ == b.records[i].fm.sa@
        && a.records[i].fm.bwt@ == b.records[i].fm.bwt@ by {
        assert(a.contents().len() == a.records.len());
        assert(b.contents().len() == b.records.len());
        assert(a.contents()[i] == b.contents()[i]);
        assert(a.records[i].wf() && b.records[i].wf());
        assert(a.records[i].sequence() == b.records[i].sequence());
        lemma_index_deterministic(a.records[i].fm, b.records[i].fm);
    }
}

/// Index generations count successful ingestions, wrapping to 0.
pub open spec fn next_generation(g: u64) -> u64 {
    if g == u64::MAX {
        0
    } else {
        (g + 1) as u64
    }
}

/// Owns the active corpus index; a new one replaces it only when it was
/// built in full.
pub struct IndexManager {
    pub active: Option<CorpusIndex>,
    pub generation: u64,
}

impl IndexManager {
    pub open spec fn wf(&self) -> bool {
        match self.active {
            Some(ci) => ci.wf(),
            None => true,
        }
    }

    pub fn new() -> (r: IndexManager)
        ensures
            r.wf(),
            r.active is None,
            r.generation == 0,
    {
        IndexManager { active: None, generation: 0 }
    }

    /// Builds an index over `records` and makes it active; on an error the
    /// manager is left as it was.
    pub fn ingest(&mut self, records: &Vec<SequenceRecord>) -> (r: Result<u64, BuildError>)
        requires
            old(self).wf(),
        ensures
            final(self).wf(),
            match r {
                Ok(g) => {
                    &&& build_error(sequences_of(records@)) is None
                    &&& g == next_generation(old(self).generation)
                    &&& final(self).generation == g
                    &&& final(self).active is Some
                    &&& final(self).active->Some_0.contents() == views_of(records@)
                },
                Err(e) => build_error(sequences_of(records@)) == Some(e) && *final(self) == *old(self),
            },
    {
        match CorpusIndex::build(records) {
            Ok(ci) => {
                let g = if self.generation == u64::MAX { 0 } else { self.generation + 1 };
                self.active = Some(ci);
                self.generation = g;
                Ok(g)
            },
            Err(e) => Err(e),
        }
    }

    /// The match set of `pattern` in the active corpus.
    pub fn search(&self, pattern: &Vec<u8>) -> (r: Result<Vec<Match>, QueryError>)
        requires
            self.wf(),
        ensures
            match r {
                Ok(v) => self.active is Some && v@.map_values(|m: Match| m@) == matches_in(
                    self.active->Some_0.contents(),
                    pattern@,
                ),
                Err(e) => self.active is None && e == QueryError::NotIndexed,
            },
    {
        match &self.active {
            Some(ci) => Ok(ci.search(pattern)),
            None => Err(QueryError::NotIndexed),
        }
    }
}

} // verus!
