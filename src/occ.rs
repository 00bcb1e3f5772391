//! The occurrence table: running counts of each byte value in the transform,
//! kept at every `CHECKPOINT_INTERVAL`-th position.
use vstd::prelude::*;
use crate::counting::{occ_count, lemma_occ_bounded};

verus! {

/// Positions between two stored checkpoints; a lookup rescans at most this many bytes.
pub const CHECKPOINT_INTERVAL: usize = 32;

/// Checkpoint `j` holds, for every byte value `c`, the count of `c` among the
/// first `j * CHECKPOINT_INTERVAL` bytes, at index `j * 256 + c`.
pub struct OccTable {
    pub checkpoints: Vec<usize>,
}

impl OccTable {
    /// The table was built from the transform `bwt`.
    pub open spec fn wf(&self, bwt: Seq<u8>) -> bool {
        &&& self.checkpoints.len() % 256 == 0
        &&& self.checkpoints.len() / 256 * 32 > bwt.len()
        &&& forall|j: int, c: int|
            0 <= j < self.checkpoints.len() / 256 && 0 <= c < 256 ==> #[trigger] self.checkpoints@[j * 256 + c]
                == occ_count(bwt, c as u8, j * 32)
    }

    /// Scans `bwt` once, storing the running counts at every checkpoint.
    pub fn new(bwt: &Vec<u8>) -> (r: OccTable)
        requires
            bwt.len() + 32 <= usize::MAX / 256,
        ensures
            r.wf(bwt@),
    {
        let n = bwt.len();
        let mut run: Vec<usize> = vec![0usize; 256];
        let mut cps: Vec<usize> = Vec::new();
        let mut k: usize = 0;
        let mut i: usize = 0;
        while i <= n
            invariant
                n == bwt.len(),
                n + 32 <= usize::MAX / 256,
                i <= n + 1,
                run.len() == 256,
                i <= n ==> forall|d: int| 0 <= d < 256 ==> #[trigger] run[d] == occ_count(bwt@, d as u8, i as int),
                cps.len() == k * 256,
                k * 32 >= i,
                k * 32 < i + 32,
                forall|j: int, c: int|
                    0 <= j < k && 0 <= c < 256 ==> #[trigger] cps@[j * 256 + c] == occ_count(bwt@, c as u8, j * 32),
            decreases n + 1 - i,
        {
            if i == k * CHECKPOINT_INTERVAL {
                let mut c: usize = 0;
                while c < 256
                    invariant
                        c <= 256,
                        run.len() == 256,
                        cps.len() == k * 256 + c,
                        forall|d: int| 0 <= d < 256 ==> #[trigger] run[d] == occ_count(bwt@, d as u8, i as int),
                        forall|j: int, d: int|
                            0 <= j < k && 0 <= d < 256 ==> #[trigger] cps@[j * 256 + d] == occ_count(bwt@, d as u8, j * 32),
                        forall|d: int| 0 <= d < c ==> #[trigger] cps@[k * 256 + d] == occ_count(bwt@, d as u8, k * 32),
                        i == k * 32,
                        i <= n,
                        n + 32 <= usize::MAX / 256,
                    decreases 256 - c,
                {
                    cps.push(run[c]);
                    c += 1;
                }
                assert forall|j: int, d: int|
                    0 <= j < k + 1 && 0 <= d < 256 implies #[trigger] cps@[j * 256 + d] == occ_count(bwt@, d as u8, j * 32) by {
                    if j == k {
                        assert(cps@[k * 256 + d] == occ_count(bwt@, d as u8, k * 32));
                    }
                }
                k += 1;
            }
            if i < n {
                let b = bwt[i];
                proof {
                    lemma_occ_bounded(bwt@, b, i as int);
                }
                run.set(b as usize, run[b as usize] + 1);
            }
            i += 1;
        }
        assert(cps.len() / 256 == k) by (nonlinear_arith)
            requires cps.len() == k * 256;
        OccTable { checkpoints: cps }
    }

    /// How many of the first `k` bytes of `bwt` equal `c`.
    pub fn get(&self, bwt: &Vec<u8>, c: u8, k: usize) -> (r: usize)
        requires
            self.wf(bwt@),
            k <= bwt.len(),
        ensures
            r == occ_count(bwt@, c, k as int),
    {
        let j = k / CHECKPOINT_INTERVAL;
        let start = j * CHECKPOINT_INTERVAL;
        assert(j < self.checkpoints.len() / 256);
        assert(j * 256 + 256 <= self.checkpoints.len()) by (nonlinear_arith)
            requires j < self.checkpoints.len() / 256, self.checkpoints.len() % 256 == 0;
        let mut r = self.checkpoints[j * 256 + c as usize];
        let mut p = start;
        proof {
            lemma_occ_bounded(bwt@, c, p as int);
        }
        while p < k
            invariant
                start <= p <= k,
                k <= bwt.len(),
                r == occ_count(bwt@, c, p as int),
                r <= p,
            decreases k - p,
        {
            if bwt[p] == c {
                r += 1;
            }
            p += 1;
        }
        r
    }
}

} // verus!
