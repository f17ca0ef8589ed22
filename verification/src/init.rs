//! The seeding of the cluster centers: which strategy governs a run, and the
//! integer part of the strategy that assigns each cell to a random cluster.

use crate::cells::{ascending, CellData, Observation};
use crate::config::{ClusterInit, Params};
use crate::loci::CellMatrix;
use crate::random::{next_byte, pick_below};
use rand::rngs::StdRng;
use vstd::prelude::*;

verus! {

/// Every way of seeding the cluster centers that a run can ask for.
#[derive(Clone, Copy, Debug, PartialEq, Eq, Structural)]
pub enum Strategy {
    KnownGenotypes,
    KnownCellAssignments,
    KmeansPP,
    RandomUniform,
    RandomAssignment,
    MiddleVariance,
}

/// The two ways of seeding that can be carried out.
#[derive(Clone, Copy, Debug, PartialEq, Eq, Structural)]
pub enum Seeding {
    /// Each center is drawn by itself, uniformly.
    Uniform,
    /// Each cell is put into a random cluster, and a center is the share of
    /// alternate reads among the reads of its cluster.
    RandomAssignment,
}

/// The run asks for a strategy that cannot be carried out.
#[derive(Clone, Copy, Debug, PartialEq, Eq, Structural)]
pub struct Unsupported {
    pub strategy: Strategy,
}

/// The strategy that governs a run: known genotypes where a file of them is
/// given, else known cell assignments where a file of them is given, else the
/// strategy that the parameters name.
pub open spec fn governing(params: Params) -> Strategy {
    if params.known_genotypes is Some {
        Strategy::KnownGenotypes
    } else if params.known_cell_assignments is Some {
        Strategy::KnownCellAssignments
    } else {
        match params.initialization_strategy {
            ClusterInit::KmeansPP => Strategy::KmeansPP,
            ClusterInit::RandomUniform => Strategy::RandomUniform,
            ClusterInit::RandomAssignment => Strategy::RandomAssignment,
            ClusterInit::MiddleVariance => Strategy::MiddleVariance,
        }
    }
}

/// The seeding that carries a strategy out, if one does.
pub open spec fn seeding_of(strategy: Strategy) -> Option<Seeding> {
    match strategy {
        Strategy::RandomUniform => Some(Seeding::Uniform),
        Strategy::RandomAssignment => Some(Seeding::RandomAssignment),
        _ => None,
    }
}

/// Finds the strategy that governs a run.
pub fn governing_strategy(params: &Params) -> (s: Strategy)
    ensures
        s == governing(*params),
{
    if params.known_genotypes.is_some() {
        Strategy::KnownGenotypes
    } else if params.known_cell_assignments.is_some() {
        Strategy::KnownCellAssignments
    } else {
        match params.initialization_strategy {
            ClusterInit::KmeansPP => Strategy::KmeansPP,
            ClusterInit::RandomUniform => Strategy::RandomUniform,
            ClusterInit::RandomAssignment => Strategy::RandomAssignment,
            ClusterInit::MiddleVariance => Strategy::MiddleVariance,
        }
    }
}

/// Decides how the centers of a run are seeded. A strategy that cannot be
/// carried out is refused by name; no other takes its place.
pub fn select_seeding(params: &Params) -> (r: Result<Seeding, Unsupported>)
    ensures
        match r {
            Ok(s) => seeding_of(governing(*params)) == Some(s),
            Err(u) => u.strategy == governing(*params) && seeding_of(u.strategy) is None,
        },
{
    let strategy = governing_strategy(params);
    match strategy {
        Strategy::RandomUniform => Ok(Seeding::Uniform),
        Strategy::RandomAssignment => Ok(Seeding::RandomAssignment),
        _ => Err(Unsupported { strategy }),
    }
}

/// Draws a seed for another generator, byte by byte. Every seed may come.
pub fn new_seed(rng: &mut StdRng) -> (seed: [u8; 32]) {
    let mut seed: [u8; 32] = [0u8; 32];
    let mut i: usize = 0;
    while i < 32
        invariant
            i <= 32,
        decreases 32 - i,
    {
        seed[i] = next_byte(rng);
        i += 1;
    }
    seed
}

/// Each cell has a cluster, and the cluster exists.
pub open spec fn assigns(assignment: Seq<usize>, num_cells: nat, num_clusters: usize) -> bool {
    &&& assignment.len() == num_cells
    &&& forall|i: int| 0 <= i < assignment.len() ==> assignment[i] < num_clusters
}

/// Puts each cell into a cluster drawn from the generator, one draw for each
/// cell in the order of the cells.
pub fn assign_cells(rng: &mut StdRng, num_cells: usize, num_clusters: usize) -> (assignment: Vec<
    usize,
>)
    requires
        num_clusters > 0,
    ensures
        assigns(assignment@, num_cells as nat, num_clusters),
{
    let mut assignment: Vec<usize> = Vec::new();
    let mut i: usize = 0;
    while i < num_cells
        invariant
            num_clusters > 0,
            i <= num_cells,
            assigns(assignment@, i as nat, num_clusters),
        decreases num_cells - i,
    {
        let cluster = pick_below(rng, num_clusters);
        assignment.push(cluster);
        i += 1;
    }
    assignment
}

/// The alternate reads of a cell at a locus, among its first `m`
/// observations.
pub open spec fn alt_at(obs: Seq<Observation>, locus: usize, m: int) -> nat
    decreases m,
{
    if m <= 0 {
        0
    } else {
        alt_at(obs, locus, m - 1) + if obs[m - 1].locus == locus {
            obs[m - 1].alt_count as nat
        } else {
            0
        }
    }
}

/// The reads of both alleles of a cell at a locus, among its first `m`
/// observations.
pub open spec fn reads_at(obs: Seq<Observation>, locus: usize, m: int) -> nat
    decreases m,
{
    if m <= 0 {
        0
    } else {
        reads_at(obs, locus, m - 1) + if obs[m - 1].locus == locus {
            obs[m - 1].coverage()
        } else {
            0
        }
    }
}

/// The alternate reads at a locus of those among the first `n` cells that are
/// assigned to the cluster.
pub open spec fn cluster_alt(
    cells: Seq<CellData>,
    assignment: Seq<usize>,
    cluster: usize,
    locus: usize,
    n: int,
) -> nat
    decreases n,
{
    if n <= 0 {
        0
    } else {
        cluster_alt(cells, assignment, cluster, locus, n - 1) + if assignment[n - 1] == cluster {
            alt_at(cells[n - 1]@, locus, cells[n - 1]@.len() as int)
        } else {
            0
        }
    }
}

/// The reads of both alleles at a locus of those among the first `n` cells
/// that are assigned to the cluster.
pub open spec fn cluster_reads(
    cells: Seq<CellData>,
    assignment: Seq<usize>,
    cluster: usize,
    locus: usize,
    n: int,
) -> nat
    decreases n,
{
    if n <= 0 {
        0
    } else {
        cluster_reads(cells, assignment, cluster, locus, n - 1) + if assignment[n - 1] == cluster {
            reads_at(cells[n - 1]@, locus, cells[n - 1]@.len() as int)
        } else {
            0
        }
    }
}

/// For each cluster and locus, the alternate reads and the reads of both
/// alleles of the cells of the cluster.
pub struct AlleleSums {
    pub alt: Vec<Vec<u128>>,
    pub reads: Vec<Vec<u128>>,
}

/// The table has `rows` rows of `columns` numbers each.
pub open spec fn shaped(table: Seq<Vec<u128>>, rows: nat, columns: nat) -> bool {
    &&& table.len() == rows
    &&& forall|c: int| 0 <= c < table.len() ==> (#[trigger] table[c])@.len() == columns
}

impl AlleleSums {
    /// The sums are those of the cells under the assignment.
    pub open spec fn tallies(
        &self,
        cells: Seq<CellData>,
        assignment: Seq<usize>,
        num_clusters: usize,
        loci: usize,
    ) -> bool {
        &&& shaped(self.alt@, num_clusters as nat, loci as nat)
        &&& shaped(self.reads@, num_clusters as nat, loci as nat)
        &&& forall|c: usize, l: usize|
            c < num_clusters && l < loci ==> #[trigger] self.alt@[c as int]@[l as int]
                == cluster_alt(cells, assignment, c, l, cells.len() as int)
        &&& forall|c: usize, l: usize|
            c < num_clusters && l < loci ==> #[trigger] self.reads@[c as int]@[l as int]
                == cluster_reads(cells, assignment, c, l, cells.len() as int)
    }
}

/// No observation before the `m`-th is at the locus.
pub open spec fn absent(obs: Seq<Observation>, locus: usize, m: int) -> bool {
    forall|j: int| 0 <= j < m ==> (#[trigger] obs[j]).locus != locus
}

/// A cell has no reads at a locus at which it has no observation.
pub proof fn lemma_absent_is_zero(obs: Seq<Observation>, locus: usize, m: int)
    requires
        0 <= m <= obs.len(),
        absent(obs, locus, m),
    ensures
        alt_at(obs, locus, m) == 0,
        reads_at(obs, locus, m) == 0,
    decreases m,
{
    if m > 0 {
        assert(obs[m - 1].locus != locus);
        lemma_absent_is_zero(obs, locus, m - 1);
    }
}

/// A cell whose loci ascend has at most one observation at a locus, so its
/// reads there are those of one observation at most.
pub proof fn lemma_reads_of_one(obs: Seq<Observation>, locus: usize, m: int)
    requires
        ascending(obs),
        0 <= m <= obs.len(),
    ensures
        alt_at(obs, locus, m) <= u32::MAX,
        reads_at(obs, locus, m) <= 2 * u32::MAX,
    decreases m,
{
    if m > 0 {
        if obs[m - 1].locus == locus {
            assert forall|j: int| 0 <= j < m - 1 implies (#[trigger] obs[j]).locus != locus by {
                assert(obs[j].locus < obs[m - 1].locus);
            }
            lemma_absent_is_zero(obs, locus, m - 1);
        } else {
            lemma_reads_of_one(obs, locus, m - 1);
        }
    }
}

/// The reads of a well-formed cell at a locus are those of its observation
/// at that locus.
pub proof fn lemma_reads_at_observation(obs: Seq<Observation>, k: int)
    requires
        ascending(obs),
        0 <= k < obs.len(),
    ensures
        alt_at(obs, obs[k].locus, obs.len() as int) == obs[k].alt_count,
        reads_at(obs, obs[k].locus, obs.len() as int) == obs[k].coverage(),
    decreases obs.len(),
{
    let m = obs.len() as int;
    if k == m - 1 {
        assert forall|j: int| 0 <= j < m - 1 implies (#[trigger] obs[j]).locus != obs[k].locus by {
            assert(obs[j].locus < obs[k].locus);
        }
        lemma_absent_is_zero(obs, obs[k].locus, m - 1);
    } else {
        let shorter = obs.drop_last();
        assert(obs[k].locus < obs[m - 1].locus);
        assert(ascending(shorter)) by {
            assert forall|i: int, j: int| 0 <= i < j < shorter.len() implies (
            #[trigger] shorter[i]).locus < (#[trigger] shorter[j]).locus by {
                assert(obs[i].locus < obs[j].locus);
            }
        }
        lemma_reads_at_observation(shorter, k);
        lemma_reads_prefix(obs, shorter, obs[k].locus, m - 1);
    }
}

/// The reads among the first `m` observations depend on those observations
/// only.
pub proof fn lemma_reads_prefix(a: Seq<Observation>, b: Seq<Observation>, locus: usize, m: int)
    requires
        0 <= m <= a.len(),
        m <= b.len(),
        forall|j: int| 0 <= j < m ==> a[j] == b[j],
    ensures
        alt_at(a, locus, m) == alt_at(b, locus, m),
        reads_at(a, locus, m) == reads_at(b, locus, m),
    decreases m,
{
    if m > 0 {
        lemma_reads_prefix(a, b, locus, m - 1);
    }
}

/// The reads of a cluster at a locus are at most those of one observation for
/// each cell.
pub proof fn lemma_cluster_bound(
    cells: Seq<CellData>,
    assignment: Seq<usize>,
    cluster: usize,
    locus: usize,
    n: int,
)
    requires
        0 <= n <= cells.len(),
        forall|i: int| 0 <= i < cells.len() ==> (#[trigger] cells[i]).wf(),
    ensures
        cluster_alt(cells, assignment, cluster, locus, n) <= n * u32::MAX,
        cluster_reads(cells, assignment, cluster, locus, n) <= n * (2 * u32::MAX),
    decreases n,
{
    if n > 0 {
        lemma_cluster_bound(cells, assignment, cluster, locus, n - 1);
        assert(cells[n - 1].wf());
        lemma_reads_of_one(cells[n - 1]@, locus, cells[n - 1]@.len() as int);
    }
}

/// A table of zeros.
fn zeros(rows: usize, columns: usize) -> (table: Vec<Vec<u128>>)
    ensures
        shaped(table@, rows as nat, columns as nat),
        forall|c: int, l: int| 0 <= c < rows && 0 <= l < columns ==> #[trigger] table@[c]@[l] == 0,
{
    let mut table: Vec<Vec<u128>> = Vec::new();
    let mut c: usize = 0;
    while c < rows
        invariant
            c <= rows,
            shaped(table@, c as nat, columns as nat),
            forall|d: int, l: int| 0 <= d < c && 0 <= l < columns ==> #[trigger] table@[d]@[l] == 0,
        decreases rows - c,
    {
        let mut row: Vec<u128> = Vec::new();
        let mut l: usize = 0;
        while l < columns
            invariant
                l <= columns,
                row@.len() == l,
                forall|k: int| 0 <= k < l ==> row@[k] == 0,
            decreases columns - l,
        {
            row.push(0);
            l += 1;
        }
        table.push(row);
        c += 1;
    }
    table
}

/// Adds `x` to one number of a table.
fn add_at(table: &mut Vec<Vec<u128>>, c: usize, l: usize, x: u64)
    requires
        c < old(table)@.len(),
        l < old(table)@[c as int]@.len(),
        old(table)@[c as int]@[l as int] + x <= u128::MAX,
    ensures
        final(table)@.len() == old(table)@.len(),
        final(table)@[c as int]@ == old(table)@[c as int]@.update(
            l as int,
            (old(table)@[c as int]@[l as int] + x) as u128,
        ),
        forall|d: int| 0 <= d < old(table)@.len() && d != c ==> final(table)@[d] == old(table)@[d],
{
    table[c][l] = table[c][l] + x as u128;
}

/// The alternate reads of a cluster at a locus once the first `n` cells and
/// the first `k` observations of the cell after them are summed.
pub open spec fn alt_so_far(
    cells: Seq<CellData>,
    assignment: Seq<usize>,
    cluster: usize,
    locus: usize,
    n: int,
    k: int,
) -> nat {
    cluster_alt(cells, assignment, cluster, locus, n) + if assignment[n] == cluster {
        alt_at(cells[n]@, locus, k)
    } else {
        0
    }
}

/// The reads of both alleles of a cluster at a locus once the first `n` cells
/// and the first `k` observations of the cell after them are summed.
pub open spec fn reads_so_far(
    cells: Seq<CellData>,
    assignment: Seq<usize>,
    cluster: usize,
    locus: usize,
    n: int,
    k: int,
) -> nat {
    cluster_reads(cells, assignment, cluster, locus, n) + if assignment[n] == cluster {
        reads_at(cells[n]@, locus, k)
    } else {
        0
    }
}

/// Sums the reads of the cells by cluster and locus.
pub fn sum_by_cluster(matrix: &CellMatrix, assignment: &Vec<usize>, num_clusters: usize) -> (sums:
    AlleleSums)
    requires
        matrix.wf(),
        assigns(assignment@, matrix.cells@.len(), num_clusters),
    ensures
        sums.tallies(
            matrix.cells@,
            assignment@,
            num_clusters,
            matrix.index_to_locus@.len() as usize,
        ),
{
    let loci: usize = matrix.index_to_locus.len();
    let total: usize = matrix.cells.len();
    let ghost cells = matrix.cells@;
    let ghost a = assignment@;
    let mut alt = zeros(num_clusters, loci);
    let mut reads = zeros(num_clusters, loci);
    let mut n: usize = 0;
    while n < total
        invariant
            matrix.wf(),
            cells == matrix.cells@,
            a == assignment@,
            assigns(a, cells.len(), num_clusters),
            total == cells.len(),
            loci == matrix.index_to_locus@.len(),
            n <= total,
            shaped(alt@, num_clusters as nat, loci as nat),
            shaped(reads@, num_clusters as nat, loci as nat),
            forall|c: usize, l: usize|
                c < num_clusters && l < loci ==> #[trigger] alt@[c as int]@[l as int]
                    == cluster_alt(cells, a, c, l, n as int),
            forall|c: usize, l: usize|
                c < num_clusters && l < loci ==> #[trigger] reads@[c as int]@[l as int]
                    == cluster_reads(cells, a, c, l, n as int),
        decreases total - n,
    {
        let cell: &CellData = &matrix.cells[n];
        let cluster: usize = assignment[n];
        let m: usize = cell.len();
        let mut k: usize = 0;
        while k < m
            invariant
                matrix.wf(),
                cells == matrix.cells@,
                a == assignment@,
                total == cells.len(),
                loci == matrix.index_to_locus@.len(),
                n < total,
                *cell == cells[n as int],
                cell.wf(),
                m == cell@.len(),
                cluster == a[n as int],
                cluster < num_clusters,
                k <= m,
                shaped(alt@, num_clusters as nat, loci as nat),
                shaped(reads@, num_clusters as nat, loci as nat),
                forall|c: usize, l: usize|
                    c < num_clusters && l < loci ==> #[trigger] alt@[c as int]@[l as int]
                        == alt_so_far(cells, a, c, l, n as int, k as int),
                forall|c: usize, l: usize|
                    c < num_clusters && l < loci ==> #[trigger] reads@[c as int]@[l as int]
                        == reads_so_far(cells, a, c, l, n as int, k as int),
            decreases m - k,
        {
            let o: Observation = cell.get(k).unwrap();
            let ghost alt_before = alt@;
            let ghost reads_before = reads@;
            proof {
                assert(o == cells[n as int]@[k as int]);
                assert(o.locus < loci);
                lemma_cluster_bound(cells, a, cluster, o.locus, n as int);
                lemma_reads_of_one(cell@, o.locus, k as int);
                assert(alt@[cluster as int]@[o.locus as int] == alt_so_far(
                    cells,
                    a,
                    cluster,
                    o.locus,
                    n as int,
                    k as int,
                ));
                assert(reads@[cluster as int]@[o.locus as int] == reads_so_far(
                    cells,
                    a,
                    cluster,
                    o.locus,
                    n as int,
                    k as int,
                ));
            }
            add_at(&mut alt, cluster, o.locus, o.alt_count as u64);
            add_at(&mut reads, cluster, o.locus, o.reads());
            proof {
                assert forall|c: usize, l: usize| c < num_clusters && l < loci implies (
                #[trigger] alt@[c as int]@[l as int]) == alt_so_far(
                    cells,
                    a,
                    c,
                    l,
                    n as int,
                    k + 1,
                ) by {
                    assert(alt_before[c as int]@[l as int] == alt_so_far(
                        cells,
                        a,
                        c,
                        l,
                        n as int,
                        k as int,
                    ));
                }
                assert forall|c: usize, l: usize| c < num_clusters && l < loci implies (
                #[trigger] reads@[c as int]@[l as int]) == reads_so_far(
                    cells,
                    a,
                    c,
                    l,
                    n as int,
                    k + 1,
                ) by {
                    assert(reads_before[c as int]@[l as int] == reads_so_far(
                        cells,
                        a,
                        c,
                        l,
                        n as int,
                        k as int,
                    ));
                }
            }
            k += 1;
        }
        n += 1;
    }
    AlleleSums { alt, reads }
}

/// Puts each cell into a random cluster and sums the reads by cluster and
/// locus. Whatever the draws, each cell has a cluster and the sums are those
/// of the cells under the assignment that is returned with them.
pub fn random_assignment(rng: &mut StdRng, matrix: &CellMatrix, num_clusters: usize) -> (out: (
    Vec<usize>,
    AlleleSums,
))
    requires
        matrix.wf(),
        num_clusters > 0,
    ensures
        assigns(out.0@, matrix.cells@.len(), num_clusters),
        out.1.tallies(
            matrix.cells@,
            out.0@,
            num_clusters,
            matrix.index_to_locus@.len() as usize,
        ),
{
    let assignment = assign_cells(rng, matrix.cells.len(), num_clusters);
    let sums = sum_by_cluster(matrix, &assignment, num_clusters);
    (assignment, sums)
}

} // verus!
