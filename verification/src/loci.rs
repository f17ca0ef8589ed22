//! Which loci are kept, how they are numbered, and what each cell gets.
//!
//! A locus is kept when enough cells have a reference read at it and enough
//! cells have an alternate read at it. The kept loci are numbered from zero in
//! the order of their raw numbers, and each cell gets its records at the kept
//! loci, in that order.

use crate::cells::{lemma_ascending_determined, CellData, Observation};
use crate::tables::{counts_of, distinct_keys, entry_le, in_order, key_of, lists};
use vstd::prelude::*;

verus! {

/// The cells with a reference read at the locus.
pub open spec fn ref_supporters(r: Map<(usize, usize), (u32, u32)>, locus: usize) -> Set<usize> {
    Set::new(|cell: usize| r.dom().contains((locus, cell)) && r[(locus, cell)].0 > 0)
}

/// The cells with an alternate read at the locus.
pub open spec fn alt_supporters(r: Map<(usize, usize), (u32, u32)>, locus: usize) -> Set<usize> {
    Set::new(|cell: usize| r.dom().contains((locus, cell)) && r[(locus, cell)].1 > 0)
}

/// Whether any record names the locus.
pub open spec fn seen(r: Map<(usize, usize), (u32, u32)>, locus: usize) -> bool {
    exists|cell: usize| r.dom().contains((locus, cell))
}

/// Whether the locus is kept: a record names it, at least `min_ref` cells
/// have a reference read at it, and at least `min_alt` cells have an
/// alternate read at it.
pub open spec fn retained(
    r: Map<(usize, usize), (u32, u32)>,
    locus: usize,
    min_ref: u32,
    min_alt: u32,
) -> bool {
    seen(r, locus) && ref_supporters(r, locus).len() >= min_ref && alt_supporters(r, locus).len()
        >= min_alt
}

/// Strictly ascending.
pub open spec fn increasing(s: Seq<usize>) -> bool {
    forall|j: int, k: int| 0 <= j < k < s.len() ==> s[j] < s[k]
}

/// Whether `o` is an observation that `cell` is owed, given the raw numbers
/// of the kept loci in the order of their compact indices: its locus is a kept
/// one, the records hold its counts for that locus and the cell, and it has a
/// read.
pub open spec fn observed(
    r: Map<(usize, usize), (u32, u32)>,
    index_to_locus: Seq<usize>,
    cell: usize,
    o: Observation,
) -> bool {
    &&& o.locus < index_to_locus.len()
    &&& r.dom().contains((index_to_locus[o.locus as int], cell))
    &&& r[(index_to_locus[o.locus as int], cell)] == (o.ref_count, o.alt_count)
    &&& o.coverage() > 0
}

/// The loaded data: the observations of each cell, and for each compact
/// index the raw number of its locus. Raw numbers count from zero, as the
/// records do: the number that the files write, less one.
pub struct CellMatrix {
    /// The observations of each declared cell, by the number of the cell.
    pub cells: Vec<CellData>,
    /// The raw number of each kept locus, by its compact index.
    pub index_to_locus: Vec<usize>,
}

impl CellMatrix {
    /// The matrix is sound in itself: the raw numbers ascend with the compact
    /// indices, every cell is well formed, and every observation is at a
    /// locus that the matrix knows.
    pub open spec fn wf(&self) -> bool {
        &&& increasing(self.index_to_locus@)
        &&& forall|c: int| 0 <= c < self.cells@.len() ==> (#[trigger] self.cells@[c]).wf()
        &&& forall|c: int, k: int|
            0 <= c < self.cells@.len() && 0 <= k < self.cells@[c]@.len() ==> (
            #[trigger] self.cells@[c]@[k]).locus < self.index_to_locus@.len()
    }

    /// The matrix is what the records `r` give under the two thresholds: the
    /// kept loci in ascending order, and for each cell exactly the
    /// observations it is owed, in the order of their loci.
    pub open spec fn holds(
        &self,
        r: Map<(usize, usize), (u32, u32)>,
        min_ref: u32,
        min_alt: u32,
    ) -> bool {
        &&& increasing(self.index_to_locus@)
        &&& forall|l: usize| #[trigger]
            self.index_to_locus@.contains(l) <==> retained(r, l, min_ref, min_alt)
        &&& forall|c: int| 0 <= c < self.cells@.len() ==> (#[trigger] self.cells@[c]).wf()
        &&& forall|c: usize, o: Observation|
            c < self.cells@.len() ==> (#[trigger] self.cells@[c as int]@.contains(o) <==> observed(
                r,
                self.index_to_locus@,
                c,
                o,
            ))
    }

    /// The number of kept loci.
    pub fn loci_used(&self) -> (n: usize)
        ensures
            n == self.index_to_locus@.len(),
    {
        self.index_to_locus.len()
    }

    /// The number of cells.
    pub fn total_cells(&self) -> (n: usize)
        ensures
            n == self.cells@.len(),
    {
        self.cells.len()
    }

    /// The compact index of the locus with raw number `raw`, if it is kept.
    pub fn compact_index(&self, raw: usize) -> (r: Option<usize>)
        requires
            increasing(self.index_to_locus@),
        ensures
            match r {
                Some(i) => i < self.index_to_locus@.len() && self.index_to_locus@[i as int] == raw,
                None => !self.index_to_locus@.contains(raw),
            },
    {
        let mut lo: usize = 0;
        let mut hi: usize = self.index_to_locus.len();
        while lo < hi
            invariant
                lo <= hi <= self.index_to_locus@.len(),
                increasing(self.index_to_locus@),
                forall|k: int| 0 <= k < lo ==> self.index_to_locus@[k] < raw,
                forall|k: int| hi <= k < self.index_to_locus@.len() ==> raw < self.index_to_locus@[k],
            decreases hi - lo,
        {
            let mid: usize = lo + (hi - lo) / 2;
            let at: usize = self.index_to_locus[mid];
            if at == raw {
                return Some(mid);
            } else if at < raw {
                lo = mid + 1;
            } else {
                hi = mid;
            }
        }
        None
    }
}

/// The order by locus, then cell.
pub open spec fn key_lt(a: (usize, usize, u32, u32), b: (usize, usize, u32, u32)) -> bool {
    a.0 < b.0 || (a.0 == b.0 && a.1 < b.1)
}

/// Each record of the list comes before the records after it, by locus and
/// then by cell.
pub open spec fn keyed_order(list: Seq<(usize, usize, u32, u32)>) -> bool {
    forall|j: int, k: int| 0 <= j < k < list.len() ==> key_lt(#[trigger] list[j], #[trigger] list[k])
}

/// A list of the records in any order, once sorted, is a list of the same
/// records in the order of locus and cell.
pub proof fn lemma_sorted_listing(
    before: Seq<(usize, usize, u32, u32)>,
    after: Seq<(usize, usize, u32, u32)>,
    r: Map<(usize, usize), (u32, u32)>,
)
    requires
        lists(before, r),
        after.to_multiset() == before.to_multiset(),
        in_order(after),
    ensures
        lists(after, r),
        keyed_order(after),
{
    broadcast use vstd::seq_lib::to_multiset_contains;

    assert(before.no_duplicates()) by {
        assert forall|i: int, j: int|
            0 <= i < before.len() && 0 <= j < before.len() && i != j implies before[i]
            != before[j] by {
            assert(key_of(before[i]) != key_of(before[j]));
        }
    }
    before.lemma_multiset_has_no_duplicates();
    after.lemma_multiset_has_no_duplicates_conv();
    assert forall|k: int| 0 <= k < after.len() implies before.contains(#[trigger] after[k]) by {
        assert(after.contains(after[k]));
        assert(after.to_multiset().count(after[k]) > 0);
    }
    assert forall|k: int| 0 <= k < before.len() implies after.contains(#[trigger] before[k]) by {
        assert(before.contains(before[k]));
        assert(before.to_multiset().count(before[k]) > 0);
    }
    assert(distinct_keys(after)) by {
        assert forall|j: int, k: int|
            0 <= j < after.len() && 0 <= k < after.len() && j != k implies key_of(
            #[trigger] after[j],
        ) != key_of(#[trigger] after[k]) by {
            assert(before.contains(after[j]));
            assert(before.contains(after[k]));
            let p = choose|p: int| 0 <= p < before.len() && before[p] == after[j];
            let q = choose|q: int| 0 <= q < before.len() && before[q] == after[k];
            assert(after[j] != after[k]);
            assert(p != q);
            assert(key_of(before[p]) != key_of(before[q]));
        }
    }
    assert forall|k: int| 0 <= k < after.len() implies r.dom().contains(
        key_of(#[trigger] after[k]),
    ) && r[key_of(after[k])] == counts_of(after[k]) by {
        assert(before.contains(after[k]));
        let p = choose|p: int| 0 <= p < before.len() && before[p] == after[k];
        assert(r.dom().contains(key_of(before[p])));
    }
    assert forall|key: (usize, usize)| #[trigger] r.dom().contains(key) implies exists|k: int|
        0 <= k < after.len() && key_of(#[trigger] after[k]) == key by {
        let p = choose|p: int| 0 <= p < before.len() && key_of(#[trigger] before[p]) == key;
        assert(after.contains(before[p]));
        let k = choose|k: int| 0 <= k < after.len() && after[k] == before[p];
        assert(key_of(after[k]) == key);
    }
    assert forall|j: int, k: int| 0 <= j < k < after.len() implies key_lt(
        #[trigger] after[j],
        #[trigger] after[k],
    ) by {
        assert(entry_le(after[j], after[k]));
        assert(key_of(after[j]) != key_of(after[k]));
    }
}

/// The records from `i` up to `j` are those of one locus, and all of them.
pub open spec fn is_group(list: Seq<(usize, usize, u32, u32)>, i: int, j: int) -> bool {
    &&& 0 <= i < j <= list.len()
    &&& forall|k: int| 0 <= k < list.len() ==> (i <= k < j <==> (#[trigger] list[k]).0 == list[i].0)
}

/// Whether one of the records from `i` up to `k` gives the cell a reference
/// read.
pub open spec fn ref_read_in(list: Seq<(usize, usize, u32, u32)>, i: int, k: int, cell: usize) -> bool {
    exists|p: int| i <= p < k && (#[trigger] list[p]).1 == cell && list[p].2 > 0
}

/// Whether one of the records from `i` up to `k` gives the cell an alternate
/// read.
pub open spec fn alt_read_in(list: Seq<(usize, usize, u32, u32)>, i: int, k: int, cell: usize) -> bool {
    exists|p: int| i <= p < k && (#[trigger] list[p]).1 == cell && list[p].3 > 0
}

/// Whether one of the records from `i` up to `k` gives the cell the
/// observation `o` at the locus with compact index `index`.
pub open spec fn emitted(
    list: Seq<(usize, usize, u32, u32)>,
    i: int,
    k: int,
    index: usize,
    cell: usize,
    o: Observation,
) -> bool {
    o.locus == index && o.coverage() > 0 && exists|p: int|
        i <= p < k && (#[trigger] list[p]).1 == cell && list[p].2 == o.ref_count && list[p].3
            == o.alt_count
}

/// A locus is named by a record exactly when it is the locus of a listed
/// record.
pub proof fn lemma_seen_is_listed(
    list: Seq<(usize, usize, u32, u32)>,
    r: Map<(usize, usize), (u32, u32)>,
    locus: usize,
)
    requires
        lists(list, r),
    ensures
        seen(r, locus) <==> exists|p: int| 0 <= p < list.len() && (#[trigger] list[p]).0 == locus,
{
    if seen(r, locus) {
        let cell = choose|cell: usize| r.dom().contains((locus, cell));
        assert(r.dom().contains((locus, cell)));
        let p = choose|p: int| 0 <= p < list.len() && key_of(#[trigger] list[p]) == (locus, cell);
        assert(list[p].0 == locus);
    }
    if exists|p: int| 0 <= p < list.len() && (#[trigger] list[p]).0 == locus {
        let p = choose|p: int| 0 <= p < list.len() && (#[trigger] list[p]).0 == locus;
        assert(r.dom().contains(key_of(list[p])));
        assert(r.dom().contains((locus, list[p].1)));
    }
}

/// Where the run of records that share the locus of record `i` ends.
fn group_end(list: &Vec<(usize, usize, u32, u32)>, i: usize) -> (j: usize)
    requires
        keyed_order(list@),
        i < list@.len(),
        i > 0 ==> list@[i - 1].0 != list@[i as int].0,
    ensures
        is_group(list@, i as int, j as int),
{
    let locus: usize = list[i].0;
    let n: usize = list.len();
    let mut j: usize = i + 1;
    while j < n && list[j].0 == locus
        invariant
            n == list@.len(),
            i < j <= list@.len(),
            locus == list@[i as int].0,
            forall|k: int| i <= k < j ==> (#[trigger] list@[k]).0 == locus,
        decreases n - j,
    {
        j += 1;
    }
    proof {
        assert forall|k: int| 0 <= k < list@.len() implies (i <= k < j <==> (#[trigger] list@[k]).0
            == locus) by {
            if k < i {
                assert(key_lt(list@[k], list@[i - 1]) || k == i - 1);
                assert(key_lt(list@[i - 1], list@[i as int]));
            } else if k >= j {
                assert(key_lt(list@[j as int], list@[k]) || k == j);
                assert(key_lt(list@[i as int], list@[j as int]));
            }
        }
    }
    j
}

/// Counts the cells with a reference read and the cells with an alternate
/// read among the records of one locus.
fn count_supporters(
    list: &Vec<(usize, usize, u32, u32)>,
    i: usize,
    j: usize,
    Ghost(r): Ghost<Map<(usize, usize), (u32, u32)>>,
) -> (n: (usize, usize))
    requires
        keyed_order(list@),
        lists(list@, r),
        is_group(list@, i as int, j as int),
    ensures
        n.0 == ref_supporters(r, list@[i as int].0).len(),
        n.1 == alt_supporters(r, list@[i as int].0).len(),
{
    let ghost locus = list@[i as int].0;
    let ghost mut with_ref: Set<usize> = Set::empty();
    let ghost mut with_alt: Set<usize> = Set::empty();
    let mut ref_n: usize = 0;
    let mut alt_n: usize = 0;
    let mut k: usize = i;
    while k < j
        invariant
            keyed_order(list@),
            is_group(list@, i as int, j as int),
            locus == list@[i as int].0,
            i <= k <= j,
            ref_n <= k - i,
            alt_n <= k - i,
            with_ref.finite(),
            with_alt.finite(),
            with_ref.len() == ref_n,
            with_alt.len() == alt_n,
            forall|c: usize| with_ref.contains(c) <==> ref_read_in(list@, i as int, k as int, c),
            forall|c: usize| with_alt.contains(c) <==> alt_read_in(list@, i as int, k as int, c),
        decreases j - k,
    {
        let entry = list[k];
        proof {
            assert(list@[k as int].0 == locus);
            assert forall|p: int| i <= p < k implies (#[trigger] list@[p]).1 != entry.1 by {
                assert(list@[p].0 == locus);
                assert(key_lt(list@[p], list@[k as int]));
            }
            assert(!ref_read_in(list@, i as int, k as int, entry.1));
            assert(!alt_read_in(list@, i as int, k as int, entry.1));
        }
        let ghost old_ref = with_ref;
        let ghost old_alt = with_alt;
        if entry.2 > 0 {
            ref_n += 1;
            proof {
                with_ref = with_ref.insert(entry.1);
            }
        }
        if entry.3 > 0 {
            alt_n += 1;
            proof {
                with_alt = with_alt.insert(entry.1);
            }
        }
        proof {
            assert forall|c: usize| with_ref.contains(c) <==> ref_read_in(
                list@,
                i as int,
                k + 1,
                c,
            ) by {
                if ref_read_in(list@, i as int, k + 1, c) {
                    let p = choose|p: int|
                        i <= p < k + 1 && (#[trigger] list@[p]).1 == c && list@[p].2 > 0;
                    if p < k {
                        assert(ref_read_in(list@, i as int, k as int, c));
                    }
                }
                if old_ref.contains(c) {
                    let p = choose|p: int|
                        i <= p < k && (#[trigger] list@[p]).1 == c && list@[p].2 > 0;
                    assert(i <= p < k + 1 && list@[p].1 == c && list@[p].2 > 0);
                }
                if c == entry.1 && entry.2 > 0 {
                    assert(list@[k as int].1 == c && list@[k as int].2 > 0);
                }
            }
            assert forall|c: usize| with_alt.contains(c) <==> alt_read_in(
                list@,
                i as int,
                k + 1,
                c,
            ) by {
                if alt_read_in(list@, i as int, k + 1, c) {
                    let p = choose|p: int|
                        i <= p < k + 1 && (#[trigger] list@[p]).1 == c && list@[p].3 > 0;
                    if p < k {
                        assert(alt_read_in(list@, i as int, k as int, c));
                    }
                }
                if old_alt.contains(c) {
                    let p = choose|p: int|
                        i <= p < k && (#[trigger] list@[p]).1 == c && list@[p].3 > 0;
                    assert(i <= p < k + 1 && list@[p].1 == c && list@[p].3 > 0);
                }
                if c == entry.1 && entry.3 > 0 {
                    assert(list@[k as int].1 == c && list@[k as int].3 > 0);
                }
            }
        }
        k += 1;
    }
    proof {
        assert forall|c: usize| with_ref.contains(c) <==> ref_supporters(r, locus).contains(
            c,
        ) by {
            if with_ref.contains(c) {
                let p = choose|p: int|
                    i <= p < j && (#[trigger] list@[p]).1 == c && list@[p].2 > 0;
                assert(list@[p].0 == locus);
                assert(r.dom().contains(key_of(list@[p])));
                assert(key_of(list@[p]) == (locus, c));
                assert(r[(locus, c)] == counts_of(list@[p]));
            }
            if ref_supporters(r, locus).contains(c) {
                assert(r.dom().contains((locus, c)));
                let p = choose|p: int|
                    0 <= p < list@.len() && key_of(#[trigger] list@[p]) == (locus, c);
                assert(list@[p].0 == locus);
                assert(i <= p < j);
                assert(r[key_of(list@[p])] == counts_of(list@[p]));
                assert(list@[p].1 == c && list@[p].2 > 0);
            }
        }
        assert(with_ref =~= ref_supporters(r, locus));
        assert forall|c: usize| with_alt.contains(c) <==> alt_supporters(r, locus).contains(
            c,
        ) by {
            if with_alt.contains(c) {
                let p = choose|p: int|
                    i <= p < j && (#[trigger] list@[p]).1 == c && list@[p].3 > 0;
                assert(list@[p].0 == locus);
                assert(r.dom().contains(key_of(list@[p])));
                assert(key_of(list@[p]) == (locus, c));
                assert(r[(locus, c)] == counts_of(list@[p]));
            }
            if alt_supporters(r, locus).contains(c) {
                assert(r.dom().contains((locus, c)));
                let p = choose|p: int|
                    0 <= p < list@.len() && key_of(#[trigger] list@[p]) == (locus, c);
                assert(list@[p].0 == locus);
                assert(i <= p < j);
                assert(r[key_of(list@[p])] == counts_of(list@[p]));
                assert(list@[p].1 == c && list@[p].3 > 0);
            }
        }
        assert(with_alt =~= alt_supporters(r, locus));
    }
    (ref_n, alt_n)
}

/// What a sequence holds once a value is appended: what it held, and the
/// value.
pub proof fn lemma_push_contains<A>(s: Seq<A>, x: A, y: A)
    ensures
        s.push(x).contains(y) <==> s.contains(y) || y == x,
{
    let t = s.push(x);
    if s.contains(y) {
        let k = choose|k: int| 0 <= k < s.len() && s[k] == y;
        assert(t[k] == y);
    }
    if y == x {
        assert(t[s.len() as int] == y);
    }
    if t.contains(y) {
        let k = choose|k: int| 0 <= k < t.len() && t[k] == y;
        if k < s.len() {
            assert(s[k] == y);
        }
    }
}

/// Gives each cell its observation at one kept locus, from the records of
/// that locus.
fn emit_group(
    cells: &mut Vec<CellData>,
    list: &Vec<(usize, usize, u32, u32)>,
    i: usize,
    j: usize,
    index: usize,
    Ghost(r): Ghost<Map<(usize, usize), (u32, u32)>>,
    Ghost(index_to_locus): Ghost<Seq<usize>>,
)
    requires
        keyed_order(list@),
        lists(list@, r),
        is_group(list@, i as int, j as int),
        index_to_locus.len() == index + 1,
        index_to_locus[index as int] == list@[i as int].0,
        forall|k: int| i <= k < j ==> (#[trigger] list@[k]).1 < old(cells)@.len(),
        forall|c: int| 0 <= c < old(cells)@.len() ==> (#[trigger] old(cells)@[c]).wf(),
        forall|c: usize, o: Observation|
            c < old(cells)@.len() ==> (#[trigger] old(cells)@[c as int]@.contains(o) <==> observed(
                r,
                index_to_locus.drop_last(),
                c,
                o,
            )),
    ensures
        final(cells)@.len() == old(cells)@.len(),
        forall|c: int| 0 <= c < final(cells)@.len() ==> (#[trigger] final(cells)@[c]).wf(),
        forall|c: usize, o: Observation|
            c < final(cells)@.len() ==> (#[trigger] final(cells)@[c as int]@.contains(o)
                <==> observed(r, index_to_locus, c, o)),
{
    let ghost prev = index_to_locus.drop_last();
    let ghost locus = list@[i as int].0;
    let ghost total = cells@.len();
    let mut k: usize = i;
    while k < j
        invariant
            keyed_order(list@),
            is_group(list@, i as int, j as int),
            locus == list@[i as int].0,
            prev == index_to_locus.drop_last(),
            index_to_locus.len() == index + 1,
            i <= k <= j,
            cells@.len() == total,
            forall|p: int| i <= p < j ==> (#[trigger] list@[p]).1 < total,
            forall|c: int| 0 <= c < total ==> (#[trigger] cells@[c]).wf(),
            forall|c: usize, o: Observation|
                c < total ==> (#[trigger] cells@[c as int]@.contains(o) <==> (observed(
                    r,
                    prev,
                    c,
                    o,
                ) || emitted(list@, i as int, k as int, index, c, o))),
        decreases j - k,
    {
        let entry = list[k];
        let ghost before = cells@;
        let ghost c0 = entry.1 as int;
        let obs = Observation { locus: index, alt_count: entry.3, ref_count: entry.2 };
        proof {
            assert(list@[k as int].1 < total);
            assert forall|p: int| i <= p < k implies (#[trigger] list@[p]).1 != entry.1 by {
                assert(list@[p].0 == locus);
                assert(list@[k as int].0 == locus);
                assert(key_lt(list@[p], list@[k as int]));
            }
        }
        if entry.2 > 0 || entry.3 > 0 {
            proof {
                let held = before[c0]@;
                if held.len() > 0 {
                    let last = held.last();
                    assert(held.contains(last));
                    assert(observed(r, prev, entry.1, last) || emitted(
                        list@,
                        i as int,
                        k as int,
                        index,
                        entry.1,
                        last,
                    ));
                    assert(!emitted(list@, i as int, k as int, index, entry.1, last));
                    assert(last.locus < index);
                }
            }
            let taken = cells[entry.1].record(obs);
            proof {
                assert(taken);
                assert(cells@[c0]@ == before[c0]@.push(obs));
                assert forall|c: int| 0 <= c < total implies (#[trigger] cells@[c]).wf() by {
                    if c != c0 {
                        assert(cells@[c] == before[c]);
                    }
                }
                assert forall|c: usize, o: Observation| c < total implies (
                #[trigger] cells@[c as int]@.contains(o) <==> (observed(r, prev, c, o) || emitted(
                    list@,
                    i as int,
                    k + 1,
                    index,
                    c,
                    o,
                ))) by {
                    lemma_emitted_step(list@, i as int, k as int, index, c, o);
                    if c == entry.1 {
                        lemma_push_contains(before[c0]@, obs, o);
                    } else {
                        assert(cells@[c as int] == before[c as int]);
                    }
                }
            }
        } else {
            proof {
                assert forall|c: usize, o: Observation| c < total implies (
                #[trigger] cells@[c as int]@.contains(o) <==> (observed(r, prev, c, o) || emitted(
                    list@,
                    i as int,
                    k + 1,
                    index,
                    c,
                    o,
                ))) by {
                    lemma_emitted_step(list@, i as int, k as int, index, c, o);
                }
            }
        }
        k += 1;
    }
    proof {
        assert forall|c: usize, o: Observation| c < total implies (
        #[trigger] cells@[c as int]@.contains(o) <==> observed(r, index_to_locus, c, o)) by {
            lemma_emitted_group(list@, r, i as int, j as int, index, index_to_locus, c, o);
        }
    }
}

/// What one more record adds to what was emitted: the observation that it
/// writes for its cell, if it has a read.
pub proof fn lemma_emitted_step(
    list: Seq<(usize, usize, u32, u32)>,
    i: int,
    k: int,
    index: usize,
    cell: usize,
    o: Observation,
)
    requires
        0 <= i <= k < list.len(),
    ensures
        emitted(list, i, k + 1, index, cell, o) <==> (emitted(list, i, k, index, cell, o) || (
        list[k].1 == cell && o == (Observation {
            locus: index,
            alt_count: list[k].3,
            ref_count: list[k].2,
        }) && o.coverage() > 0)),
{
    if emitted(list, i, k + 1, index, cell, o) {
        let p = choose|p: int|
            i <= p < k + 1 && (#[trigger] list[p]).1 == cell && list[p].2 == o.ref_count
                && list[p].3 == o.alt_count;
        if p < k {
            assert(emitted(list, i, k, index, cell, o));
        }
    }
    if emitted(list, i, k, index, cell, o) {
        let p = choose|p: int|
            i <= p < k && (#[trigger] list[p]).1 == cell && list[p].2 == o.ref_count && list[p].3
                == o.alt_count;
        assert(i <= p < k + 1 && list[p].1 == cell);
    }
    if list[k].1 == cell && o == (Observation {
        locus: index,
        alt_count: list[k].3,
        ref_count: list[k].2,
    }) && o.coverage() > 0 {
        assert(i <= k < k + 1 && list[k].1 == cell && list[k].2 == o.ref_count);
    }
}

/// Once the records of a kept locus are all emitted, a cell is owed what it
/// was owed at the loci before, and what was emitted.
pub proof fn lemma_emitted_group(
    list: Seq<(usize, usize, u32, u32)>,
    r: Map<(usize, usize), (u32, u32)>,
    i: int,
    j: int,
    index: usize,
    index_to_locus: Seq<usize>,
    cell: usize,
    o: Observation,
)
    requires
        lists(list, r),
        is_group(list, i, j),
        index_to_locus.len() == index + 1,
        index_to_locus.last() == list[i].0,
    ensures
        observed(r, index_to_locus, cell, o) <==> (observed(
            r,
            index_to_locus.drop_last(),
            cell,
            o,
        ) || emitted(list, i, j, index, cell, o)),
{
    let prev = index_to_locus.drop_last();
    let locus = list[i].0;
    if observed(r, index_to_locus, cell, o) {
        if o.locus < index {
            assert(prev[o.locus as int] == index_to_locus[o.locus as int]);
        } else {
            assert(r.dom().contains((locus, cell)));
            let p = choose|p: int| 0 <= p < list.len() && key_of(#[trigger] list[p]) == (locus, cell);
            assert(list[p].0 == locus);
            assert(i <= p < j);
            assert(r[key_of(list[p])] == counts_of(list[p]));
            assert(list[p].1 == cell && list[p].2 == o.ref_count && list[p].3 == o.alt_count);
        }
    }
    if observed(r, prev, cell, o) {
        assert(prev[o.locus as int] == index_to_locus[o.locus as int]);
    }
    if emitted(list, i, j, index, cell, o) {
        let p = choose|p: int|
            i <= p < j && (#[trigger] list[p]).1 == cell && list[p].2 == o.ref_count && list[p].3
                == o.alt_count;
        assert(list[p].0 == locus);
        assert(r.dom().contains(key_of(list[p])));
        assert(key_of(list[p]) == (locus, cell));
        assert(r[(locus, cell)] == counts_of(list[p]));
    }
}

/// Whether the walk that stands at record `i` has passed the locus: every
/// record of the locus, if there is one, lies before `i`.
pub open spec fn passed(list: Seq<(usize, usize, u32, u32)>, i: int, locus: usize) -> bool {
    i < list.len() ==> locus < list[i].0
}

/// A locus that lies between the records before `i` and the records from `i`
/// on is named by no record.
pub proof fn lemma_gap_unseen(
    list: Seq<(usize, usize, u32, u32)>,
    r: Map<(usize, usize), (u32, u32)>,
    i: int,
    locus: usize,
)
    requires
        lists(list, r),
        keyed_order(list),
        0 <= i <= list.len(),
        passed(list, i, locus),
        forall|p: int| 0 <= p < i ==> (#[trigger] list[p]).0 != locus,
    ensures
        !seen(r, locus),
{
    lemma_seen_is_listed(list, r, locus);
    if seen(r, locus) {
        let p = choose|p: int| 0 <= p < list.len() && (#[trigger] list[p]).0 == locus;
        if p > i {
            assert(key_lt(list[i], list[p]));
        }
    }
}

/// As many cells as asked for, with nothing known of any.
fn empty_cells(total_cells: usize) -> (cells: Vec<CellData>)
    ensures
        cells@.len() == total_cells,
        forall|c: int| 0 <= c < cells@.len() ==> (#[trigger] cells@[c]).wf() && cells@[c]@.len() == 0,
{
    let mut cells: Vec<CellData> = Vec::new();
    let mut c: usize = 0;
    while c < total_cells
        invariant
            c <= total_cells,
            cells@.len() == c,
            forall|d: int|
                0 <= d < cells@.len() ==> (#[trigger] cells@[d]).wf() && cells@[d]@.len() == 0,
        decreases total_cells - c,
    {
        cells.push(CellData::new());
        c += 1;
    }
    cells
}

/// Builds the matrix from the records, listed in the order of locus and
/// cell: walks the loci in ascending order, keeps those with enough support,
/// numbers them as they come, and hands each record of a kept locus to its
/// cell.
pub(crate) fn distribute(
    list: &Vec<(usize, usize, u32, u32)>,
    total_cells: usize,
    min_ref: u32,
    min_alt: u32,
    Ghost(r): Ghost<Map<(usize, usize), (u32, u32)>>,
) -> (m: CellMatrix)
    requires
        keyed_order(list@),
        lists(list@, r),
        forall|k: int| 0 <= k < list@.len() ==> (#[trigger] list@[k]).1 < total_cells,
    ensures
        m.cells@.len() == total_cells,
        m.holds(r, min_ref, min_alt),
{
    let mut cells = empty_cells(total_cells);
    let mut index_to_locus: Vec<usize> = Vec::new();
    let n: usize = list.len();
    let mut i: usize = 0;
    proof {
        assert forall|l: usize| #[trigger]
            index_to_locus@.contains(l) <==> (retained(r, l, min_ref, min_alt) && passed(
                list@,
                0,
                l,
            )) by {
            if passed(list@, 0, l) {
                lemma_gap_unseen(list@, r, 0, l);
            }
        }
    }
    while i < n
        invariant
            n == list@.len(),
            i <= n,
            keyed_order(list@),
            lists(list@, r),
            forall|k: int| 0 <= k < list@.len() ==> (#[trigger] list@[k]).1 < total_cells,
            0 < i < n ==> list@[i - 1].0 != list@[i as int].0,
            cells@.len() == total_cells,
            index_to_locus@.len() <= i,
            increasing(index_to_locus@),
            forall|l: usize| #[trigger]
                index_to_locus@.contains(l) <==> (retained(r, l, min_ref, min_alt) && passed(
                    list@,
                    i as int,
                    l,
                )),
            forall|c: int| 0 <= c < cells@.len() ==> (#[trigger] cells@[c]).wf(),
            forall|c: usize, o: Observation|
                c < cells@.len() ==> (#[trigger] cells@[c as int]@.contains(o) <==> observed(
                    r,
                    index_to_locus@,
                    c,
                    o,
                )),
        decreases n - i,
    {
        let locus: usize = list[i].0;
        let j = group_end(list, i);
        let support = count_supporters(list, i, j, Ghost(r));
        let ghost known = index_to_locus@;
        let keep: bool = support.0 >= min_ref as usize && support.1 >= min_alt as usize;
        proof {
            lemma_seen_is_listed(list@, r, locus);
            assert(seen(r, locus));
            assert(keep == retained(r, locus, min_ref, min_alt));
            assert(!known.contains(locus));
        }
        if keep {
            let index: usize = index_to_locus.len();
            index_to_locus.push(locus);
            proof {
                assert(index_to_locus@.drop_last() == known);
                assert(increasing(index_to_locus@)) by {
                    let grown = index_to_locus@;
                    assert forall|a: int, b: int| 0 <= a < b < grown.len() implies grown[a]
                        < grown[b] by {
                        if b == index {
                            assert(known.contains(known[a]));
                        } else {
                            assert(known[a] < known[b]);
                        }
                    }
                }
            }
            emit_group(&mut cells, list, i, j, index, Ghost(r), Ghost(index_to_locus@));
        }
        proof {
            assert forall|l: usize| #[trigger]
                index_to_locus@.contains(l) <==> (retained(r, l, min_ref, min_alt) && passed(
                    list@,
                    j as int,
                    l,
                )) by {
                if keep {
                    lemma_push_contains(known, locus, l);
                }
                if l < locus {
                    assert(j < n ==> key_lt(list@[i as int], list@[j as int]));
                } else if l == locus {
                    assert(j < n ==> key_lt(list@[i as int], list@[j as int]));
                } else {
                    if passed(list@, j as int, l) {
                        assert forall|p: int| 0 <= p < j implies (#[trigger] list@[p]).0 != l by {
                            if p < i {
                                assert(key_lt(list@[p], list@[i as int]));
                            }
                        }
                        lemma_gap_unseen(list@, r, j as int, l);
                    }
                }
            }
        }
        i = j;
    }
    CellMatrix { cells, index_to_locus }
}

/// A matrix that is what some records give is sound in itself.
pub proof fn lemma_holds_wf(
    m: CellMatrix,
    r: Map<(usize, usize), (u32, u32)>,
    min_ref: u32,
    min_alt: u32,
)
    requires
        m.holds(r, min_ref, min_alt),
        m.cells@.len() <= usize::MAX,
    ensures
        m.wf(),
{
    assert forall|c: int, k: int|
        0 <= c < m.cells@.len() && 0 <= k < m.cells@[c]@.len() implies (#[trigger] m.cells@[c]@[k]).locus
        < m.index_to_locus@.len() by {
        let o = m.cells@[c]@[k];
        let cu = c as usize;
        assert(m.cells@[cu as int]@.contains(o));
        assert(observed(r, m.index_to_locus@, cu, o));
    }
}

/// The kept loci with a raw number below `bound`.
pub open spec fn kept_below(
    r: Map<(usize, usize), (u32, u32)>,
    min_ref: u32,
    min_alt: u32,
    bound: usize,
) -> Set<usize> {
    Set::new(|l: usize| l < bound && retained(r, l, min_ref, min_alt))
}

/// The compact index of a kept locus is its rank among the kept loci in the
/// order of their raw numbers: as many kept loci lie below it as its compact
/// index says.
pub proof fn lemma_compact_index_is_rank(
    m: CellMatrix,
    r: Map<(usize, usize), (u32, u32)>,
    min_ref: u32,
    min_alt: u32,
    i: int,
)
    requires
        m.holds(r, min_ref, min_alt),
        0 <= i < m.index_to_locus@.len(),
    ensures
        kept_below(r, min_ref, min_alt, m.index_to_locus@[i]).finite(),
        kept_below(r, min_ref, min_alt, m.index_to_locus@[i]).len() == i,
    decreases i,
{
    let kept = m.index_to_locus@;
    let here = kept_below(r, min_ref, min_alt, kept[i]);
    if i == 0 {
        assert forall|l: usize| !here.contains(l) by {
            if l < kept[0] && retained(r, l, min_ref, min_alt) {
                assert(kept.contains(l));
                let j = choose|j: int| 0 <= j < kept.len() && kept[j] == l;
                assert(j == 0 || kept[0] < kept[j]);
            }
        }
        assert(here =~= Set::<usize>::empty());
    } else {
        lemma_compact_index_is_rank(m, r, min_ref, min_alt, i - 1);
        let below = kept_below(r, min_ref, min_alt, kept[i - 1]);
        assert(kept[i - 1] < kept[i]);
        assert(kept.contains(kept[i - 1]));
        assert forall|l: usize| here.contains(l) <==> below.insert(kept[i - 1]).contains(l) by {
            if here.contains(l) && l > kept[i - 1] {
                assert(kept.contains(l));
                let j = choose|j: int| 0 <= j < kept.len() && kept[j] == l;
                if j < i - 1 {
                    assert(kept[j] < kept[i - 1]);
                } else if j > i {
                    assert(kept[i] < kept[j]);
                }
            }
        }
        assert(here =~= below.insert(kept[i - 1]));
    }
}

/// All kept loci.
pub open spec fn kept(r: Map<(usize, usize), (u32, u32)>, min_ref: u32, min_alt: u32) -> Set<usize> {
    Set::new(|l: usize| retained(r, l, min_ref, min_alt))
}

/// The matrix has as many compact indices as loci are kept.
pub proof fn lemma_loci_used_counts_kept(
    m: CellMatrix,
    r: Map<(usize, usize), (u32, u32)>,
    min_ref: u32,
    min_alt: u32,
)
    requires
        m.holds(r, min_ref, min_alt),
    ensures
        kept(r, min_ref, min_alt).finite(),
        kept(r, min_ref, min_alt).len() == m.index_to_locus@.len(),
{
    let listed = m.index_to_locus@;
    let all = kept(r, min_ref, min_alt);
    if listed.len() == 0 {
        assert forall|l: usize| !all.contains(l) by {
            if retained(r, l, min_ref, min_alt) {
                assert(listed.contains(l));
            }
        }
        assert(all =~= Set::<usize>::empty());
    } else {
        let last = listed.len() - 1;
        lemma_compact_index_is_rank(m, r, min_ref, min_alt, last);
        let below = kept_below(r, min_ref, min_alt, listed[last]);
        assert(listed.contains(listed[last]));
        assert forall|l: usize| all.contains(l) <==> below.insert(listed[last]).contains(l) by {
            if all.contains(l) && l > listed[last] {
                assert(listed.contains(l));
                let j = choose|j: int| 0 <= j < listed.len() && listed[j] == l;
                if j < last {
                    assert(listed[j] < listed[last]);
                }
            }
        }
        assert(all =~= below.insert(listed[last]));
    }
}

/// Two strictly ascending lists that hold the same numbers agree on their
/// first `i` places.
pub proof fn lemma_increasing_prefix(a: Seq<usize>, b: Seq<usize>, i: int)
    requires
        increasing(a),
        increasing(b),
        forall|l: usize| a.contains(l) <==> b.contains(l),
        0 <= i <= a.len(),
    ensures
        i <= b.len(),
        forall|k: int| 0 <= k < i ==> a[k] == b[k],
    decreases i,
{
    if i > 0 {
        lemma_increasing_prefix(a, b, i - 1);
        assert(a.contains(a[i - 1]));
        let j = choose|j: int| 0 <= j < b.len() && b[j] == a[i - 1];
        if j < i - 1 {
            assert(a[j] < a[i - 1]);
        }
        assert(b.contains(b[i - 1]));
        let k = choose|k: int| 0 <= k < a.len() && a[k] == b[i - 1];
        if k < i - 1 {
            assert(b[k] < b[i - 1]);
        }
        if j > i - 1 {
            assert(b[i - 1] < b[j]);
            if k > i - 1 {
                assert(a[i - 1] < a[k]);
            }
        }
    }
}

/// The records and the thresholds determine the matrix: two matrices with
/// the same number of cells that are both what the records give have the same
/// kept loci under the same compact indices, and the same observations for
/// each cell.
pub proof fn lemma_matrix_is_determined(
    m1: CellMatrix,
    m2: CellMatrix,
    r: Map<(usize, usize), (u32, u32)>,
    min_ref: u32,
    min_alt: u32,
)
    requires
        m1.holds(r, min_ref, min_alt),
        m2.holds(r, min_ref, min_alt),
        m1.cells@.len() == m2.cells@.len(),
    ensures
        m1.index_to_locus@ == m2.index_to_locus@,
        forall|c: usize|
            c < m1.cells@.len() ==> (#[trigger] m1.cells@[c as int])@ == m2.cells@[c as int]@,
{
    let a = m1.index_to_locus@;
    let b = m2.index_to_locus@;
    assert forall|l: usize| a.contains(l) <==> b.contains(l) by {
        assert(a.contains(l) <==> retained(r, l, min_ref, min_alt));
        assert(b.contains(l) <==> retained(r, l, min_ref, min_alt));
    }
    lemma_increasing_prefix(a, b, a.len() as int);
    lemma_increasing_prefix(b, a, b.len() as int);
    assert(a =~= b);
    assert forall|c: usize| c < m1.cells@.len() implies (#[trigger] m1.cells@[c as int])@
        == m2.cells@[c as int]@ by {
        let x = m1.cells@[c as int]@;
        let y = m2.cells@[c as int]@;
        assert(m1.cells@[c as int].wf());
        assert(m2.cells@[c as int].wf());
        assert forall|o: Observation| x.contains(o) <==> y.contains(o) by {
            assert(m1.cells@[c as int]@.contains(o) <==> observed(r, a, c, o));
            assert(m2.cells@[c as int]@.contains(o) <==> observed(r, b, c, o));
        }
        lemma_ascending_determined(x, y);
    }
}

} // verus!
