use seqindex::alphabet::{is_alphabet_symbol, rank, validate, InvalidSymbolError};
use seqindex::bwt::{build_bwt, build_less};
use seqindex::corpus::{BuildError, CorpusIndex, IndexManager, Match, QueryError, SequenceRecord};
use seqindex::fmindex::FMIndex;
use seqindex::occ::OccTable;

fn rec(id: &str, seq: &str) -> SequenceRecord {
    SequenceRecord::new(id.to_string(), seq.as_bytes().to_vec())
}

fn pairs(ms: &[Match]) -> Vec<(String, usize)> {
    ms.iter().map(|m| (m.record_id.clone(), m.offset)).collect()
}

fn manager_with(records: Vec<SequenceRecord>) -> IndexManager {
    let mut m = IndexManager::new();
    assert_eq!(m.ingest(&records), Ok(1));
    m
}

fn found(m: &IndexManager, pattern: &str) -> Vec<(String, usize)> {
    pairs(&m.search(&pattern.as_bytes().to_vec()).unwrap())
}

fn naive_offsets(seq: &[u8], pattern: &[u8]) -> Vec<usize> {
    (0..seq.len())
        .filter(|&p| p + pattern.len() <= seq.len() && &seq[p..p + pattern.len()] == pattern)
        .collect()
}

#[test]
fn pattern_spanning_two_records() {
    let m = manager_with(vec![rec("A", "ACGT"), rec("B", "GTAC")]);
    assert_eq!(found(&m, "GT"), vec![("A".to_string(), 2), ("B".to_string(), 0)]);
}

#[test]
fn overlapping_matches_are_reported() {
    let m = manager_with(vec![rec("A", "AAAA")]);
    assert_eq!(
        found(&m, "AA"),
        vec![("A".to_string(), 0), ("A".to_string(), 1), ("A".to_string(), 2)]
    );
}

#[test]
fn pattern_outside_alphabet_gives_empty_set() {
    let m = manager_with(vec![rec("A", "ACGT"), rec("B", "GTAC")]);
    assert_eq!(found(&m, "gt"), vec![]);
    assert_eq!(found(&m, "G$"), vec![]);
    assert_eq!(found(&m, "A-C"), vec![]);
}

#[test]
fn empty_corpus_is_rejected() {
    let mut m = IndexManager::new();
    assert_eq!(m.ingest(&vec![]), Err(BuildError::EmptyCorpus));
    assert!(m.active.is_none());
    assert_eq!(m.generation, 0);
}

#[test]
fn empty_pattern_matches_every_offset() {
    let m = manager_with(vec![rec("A", "ACG"), rec("B", ""), rec("C", "T")]);
    assert_eq!(
        found(&m, ""),
        vec![("A".to_string(), 0), ("A".to_string(), 1), ("A".to_string(), 2), ("C".to_string(), 0)]
    );
}

#[test]
fn search_before_ingest_is_an_error() {
    let m = IndexManager::new();
    assert!(matches!(m.search(&b"A".to_vec()), Err(QueryError::NotIndexed)));
}

#[test]
fn invalid_record_keeps_previous_index() {
    let mut m = manager_with(vec![rec("A", "ACGT")]);
    let bad = vec![rec("X", "ACGT"), rec("Y", "ACxT"), rec("Z", "ACGT")];
    assert_eq!(m.ingest(&bad), Err(BuildError::InvalidSymbol { record: 1 }));
    assert_eq!(m.generation, 1);
    assert_eq!(found(&m, "CG"), vec![("A".to_string(), 1)]);
}

#[test]
fn reingestion_replaces_index() {
    let mut m = manager_with(vec![rec("A", "ACGT")]);
    assert_eq!(m.ingest(&vec![rec("B", "TTCG")]), Ok(2));
    assert_eq!(found(&m, "CG"), vec![("B".to_string(), 2)]);
    assert_eq!(found(&m, "AC"), vec![]);
}

#[test]
fn absent_pattern_has_empty_interval() {
    let text = b"ACGTACGT$".to_vec();
    let fm = FMIndex::new(&text);
    let (lo, hi) = fm.backward_search(&b"GA".to_vec());
    assert_eq!(lo, hi);
    let (lo, hi) = fm.backward_search(&b"ACGTACGTA".to_vec());
    assert_eq!(lo, hi);
    let m = manager_with(vec![rec("A", "ACGTACGT")]);
    assert_eq!(found(&m, "GA"), vec![]);
}

#[test]
fn backward_search_interval_lists_occurrences() {
    let text = b"GCCTTAACATTATTACGCCTA$".to_vec();
    let fm = FMIndex::new(&text);
    let (lo, hi) = fm.backward_search(&b"TTA".to_vec());
    let mut pos: Vec<usize> = fm.sa[lo..hi].to_vec();
    pos.sort();
    assert_eq!(pos, vec![3, 9, 12]);
}

#[test]
fn suffix_array_of_known_text() {
    let fm = FMIndex::new(&b"GCCTTAACATTATTACGCCTA$".to_vec());
    assert_eq!(
        fm.sa,
        vec![21, 20, 5, 6, 14, 11, 8, 7, 17, 1, 15, 18, 2, 16, 0, 19, 4, 13, 10, 3, 12, 9]
    );
}

#[test]
fn transform_of_known_text() {
    let text = b"GCCTTAACATTATTACGCCTA$".to_vec();
    let fm = FMIndex::new(&text);
    assert_eq!(fm.bwt, b"ATTATTCAGGACCC$CTTTCAA".to_vec());
    assert_eq!(build_bwt(&text, &fm.sa), fm.bwt);
}

#[test]
fn transform_inverts_to_text() {
    for t in ["GCCTTAACATTATTACGCCTA$", "$", "A$", "AAAA$", "ACGCGAT$", "NNZZYBACKGT$"] {
        let text = t.as_bytes().to_vec();
        let fm = FMIndex::new(&text);
        assert_eq!(fm.invert(), text);
    }
}

#[test]
fn rebuilding_gives_identical_index() {
    let text = b"ACGTTGCAACGT$".to_vec();
    let a = FMIndex::new(&text);
    let b = FMIndex::new(&text.clone());
    assert_eq!(a.sa, b.sa);
    assert_eq!(a.bwt, b.bwt);
    assert_eq!(a.less, b.less);
    let records = vec![rec("A", "ACGTTGCA"), rec("B", "GGCA")];
    let m1 = manager_with(records.clone());
    let m2 = manager_with(records);
    for p in ["CA", "G", "ACGT", "T"] {
        assert_eq!(found(&m1, p), found(&m2, p));
    }
}

#[test]
fn less_table_counts_smaller_symbols() {
    let text = b"ACGCGAT$".to_vec();
    let fm = FMIndex::new(&text);
    let less = build_less(&text, &fm.sa);
    assert_eq!(less.len(), 257);
    assert_eq!(less[b'$' as usize], 0);
    assert_eq!(less[b'A' as usize], 1);
    assert_eq!(less[b'C' as usize], 3);
    assert_eq!(less[b'G' as usize], 5);
    assert_eq!(less[b'T' as usize], 7);
    assert_eq!(less[b'Z' as usize], 8);
    assert_eq!(less[256], 8);
    assert_eq!(fm.less, less);
}

#[test]
fn occurrence_counts_across_checkpoints() {
    let body: Vec<u8> = (0..150).map(|i| b"ACGTTGCAN"[(i * 7 + i / 5) % 9]).collect();
    let mut text = body.clone();
    text.push(b'$');
    let fm = FMIndex::new(&text);
    let occ = OccTable::new(&fm.bwt);
    for c in [b'A', b'C', b'G', b'T', b'N', b'$', b'Z'] {
        for k in 0..=fm.bwt.len() {
            let expected = fm.bwt[..k].iter().filter(|&&b| b == c).count();
            assert_eq!(occ.get(&fm.bwt, c, k), expected);
        }
    }
}

#[test]
fn search_agrees_with_scan() {
    let body: Vec<u8> = (0..200).map(|i| b"ACGT"[(i * i + 3 * i) % 4]).collect();
    let m = manager_with(vec![SequenceRecord::new("R".to_string(), body.clone())]);
    for p in ["A", "AC", "GTA", "TTTT", "ACGTA", "CCA"] {
        let expected: Vec<(String, usize)> = naive_offsets(&body, p.as_bytes())
            .into_iter()
            .map(|o| ("R".to_string(), o))
            .collect();
        assert_eq!(found(&m, p), expected);
    }
}

#[test]
fn corpus_build_reports_first_bad_record() {
    let r = CorpusIndex::build(&vec![rec("A", "ACGT"), rec("B", "AC GT"), rec("C", "acgt")]);
    assert!(matches!(r, Err(BuildError::InvalidSymbol { record: 1 })));
    let ok = CorpusIndex::build(&vec![rec("A", "ACGT")]).unwrap();
    assert_eq!(pairs(&ok.search(&b"CGT".to_vec())), vec![("A".to_string(), 1)]);
}

#[test]
fn alphabet_rank_and_validation() {
    assert_eq!(rank(b'A'), Ok(0));
    assert_eq!(rank(b'C'), Ok(2));
    assert_eq!(rank(b'G'), Ok(4));
    assert_eq!(rank(b'Z'), Ok(15));
    assert_eq!(rank(b'a'), Err(InvalidSymbolError { symbol: b'a' }));
    assert_eq!(rank(b'E'), Err(InvalidSymbolError { symbol: b'E' }));
    assert!(is_alphabet_symbol(b'N'));
    assert!(!is_alphabet_symbol(b'$'));
    assert!(validate(b"ACGTRYSWKMBDHVNZ"));
    assert!(!validate(b"ACGU"));
    assert!(validate(b""));
}
