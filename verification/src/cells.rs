//! What is known of one cell: the loci at which it has reads, with the read
//! counts of the two alleles at each.

use vstd::prelude::*;

verus! {

/// The reads of one cell at one locus.
#[derive(Clone, Copy, Debug, PartialEq, Eq, Structural)]
pub struct Observation {
    /// The compact index of the locus.
    pub locus: usize,
    /// Reads that support the alternate allele.
    pub alt_count: u32,
    /// Reads that support the reference allele.
    pub ref_count: u32,
}

impl Observation {
    /// All reads of the cell at the locus.
    pub open spec fn coverage(self) -> nat {
        (self.alt_count + self.ref_count) as nat
    }

    /// Counts all reads of the cell at the locus.
    pub fn reads(&self) -> (n: u64)
        ensures
            n == self.coverage(),
    {
        self.alt_count as u64 + self.ref_count as u64
    }
}

/// Every observation has at least one read.
pub open spec fn covered(obs: Seq<Observation>) -> bool {
    forall|k: int| 0 <= k < obs.len() ==> (#[trigger] obs[k]).coverage() > 0
}

/// The loci come in strictly ascending order, so none comes twice.
pub open spec fn ascending(obs: Seq<Observation>) -> bool {
    forall|j: int, k: int|
        0 <= j < k < obs.len() ==> (#[trigger] obs[j]).locus < (#[trigger] obs[k]).locus
}

/// Whether `next` may follow the observations `obs`: it has a read, and its
/// locus lies after all of theirs.
pub open spec fn may_follow(obs: Seq<Observation>, next: Observation) -> bool {
    next.coverage() > 0 && (obs.len() > 0 ==> obs.last().locus < next.locus)
}

/// The observations of one cell, held as three columns of one length.
pub struct CellData {
    loci: Vec<usize>,
    alt_counts: Vec<u32>,
    ref_counts: Vec<u32>,
}

impl View for CellData {
    type V = Seq<Observation>;

    closed spec fn view(&self) -> Seq<Observation> {
        Seq::new(
            self.loci@.len(),
            |k: int|
                Observation {
                    locus: self.loci@[k],
                    alt_count: self.alt_counts@[k],
                    ref_count: self.ref_counts@[k],
                },
        )
    }
}

impl CellData {
    /// The three columns have one length.
    pub closed spec fn aligned(&self) -> bool {
        self.alt_counts@.len() == self.loci@.len() && self.ref_counts@.len() == self.loci@.len()
    }

    /// The invariant of the type: aligned columns, no observation without a
    /// read, loci in strictly ascending order.
    pub open spec fn wf(&self) -> bool {
        self.aligned() && covered(self@) && ascending(self@)
    }

    /// A cell of which nothing is known yet.
    pub fn new() -> (cell: CellData)
        ensures
            cell.wf(),
            cell@.len() == 0,
    {
        CellData { loci: Vec::new(), alt_counts: Vec::new(), ref_counts: Vec::new() }
    }

    /// The number of loci at which the cell has reads.
    pub fn len(&self) -> (n: usize)
        ensures
            n == self@.len(),
    {
        self.loci.len()
    }

    /// The `k`-th observation, or nothing where the cell has fewer.
    pub fn get(&self, k: usize) -> (obs: Option<Observation>)
        requires
            self.aligned(),
        ensures
            obs == (if k < self@.len() {
                Some(self@[k as int])
            } else {
                None
            }),
    {
        if k < self.loci.len() {
            Some(
                Observation {
                    locus: self.loci[k],
                    alt_count: self.alt_counts[k],
                    ref_count: self.ref_counts[k],
                },
            )
        } else {
            None
        }
    }

    /// Appends an observation if it may follow those that the cell holds, and
    /// says whether it did.
    pub fn record(&mut self, next: Observation) -> (taken: bool)
        requires
            old(self).wf(),
        ensures
            final(self).wf(),
            taken == may_follow(old(self)@, next),
            taken ==> final(self)@ == old(self)@.push(next),
            !taken ==> final(self)@ == old(self)@,
    {
        let n: usize = self.loci.len();
        if next.alt_count == 0 && next.ref_count == 0 {
            return false;
        }
        if n > 0 && self.loci[n - 1] >= next.locus {
            assert(self@.last().locus == self.loci@[n - 1]);
            return false;
        }
        proof {
            assert(n > 0 ==> self@.last().locus == self.loci@[n - 1]);
        }
        let ghost before = self@;
        self.loci.push(next.locus);
        self.alt_counts.push(next.alt_count);
        self.ref_counts.push(next.ref_count);
        proof {
            assert(self@ =~= before.push(next));
            assert(ascending(self@)) by {
                let after = self@;
                assert forall|j: int, k: int| 0 <= j < k < after.len() implies (
                #[trigger] after[j]).locus < (#[trigger] after[k]).locus by {
                    if k == n {
                        if j < n - 1 {
                            assert(before[j].locus < before[n - 1].locus);
                        }
                    } else {
                        assert(before[j].locus < before[k].locus);
                    }
                }
            }
        }
        true
    }
}

/// Two ascending lists that hold the same observations agree on their first
/// `i` places.
pub proof fn lemma_ascending_prefix(a: Seq<Observation>, b: Seq<Observation>, i: int)
    requires
        ascending(a),
        ascending(b),
        forall|o: Observation| a.contains(o) <==> b.contains(o),
        0 <= i <= a.len(),
    ensures
        i <= b.len(),
        forall|k: int| 0 <= k < i ==> a[k] == b[k],
    decreases i,
{
    if i > 0 {
        lemma_ascending_prefix(a, b, i - 1);
        assert(a.contains(a[i - 1]));
        let j = choose|j: int| 0 <= j < b.len() && b[j] == a[i - 1];
        if j < i - 1 {
            assert(a[j].locus < a[i - 1].locus);
        }
        assert(b.contains(b[i - 1]));
        let k = choose|k: int| 0 <= k < a.len() && a[k] == b[i - 1];
        if k < i - 1 {
            assert(b[k].locus < b[i - 1].locus);
        }
        if j > i - 1 {
            assert(b[i - 1].locus < b[j].locus);
            if k > i - 1 {
                assert(a[i - 1].locus < a[k].locus);
            }
        }
    }
}

/// An ascending list is determined by the observations that it holds.
pub proof fn lemma_ascending_determined(a: Seq<Observation>, b: Seq<Observation>)
    requires
        ascending(a),
        ascending(b),
        forall|o: Observation| a.contains(o) <==> b.contains(o),
    ensures
        a == b,
{
    lemma_ascending_prefix(a, b, a.len() as int);
    lemma_ascending_prefix(b, a, b.len() as int);
    assert(a =~= b);
}

} // verus!
