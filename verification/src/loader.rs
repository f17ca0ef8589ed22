//! The loader of the two count matrices.
//!
//! A matrix file is a list of lines: two lines of heading, a line with the
//! dimensions (`loci cells entries`), then one line for each entry
//! (`locus cell count`, both numbered from one). The file of alternate counts
//! and the file of reference counts are read side by side: line for line they
//! speak of the same locus and cell, which the alternate file names.

use crate::loci::{distribute, lemma_holds_wf, lemma_sorted_listing, CellMatrix};
use crate::tables::{list_records, new_table, put_record, records, sort_records};
use crate::tables::key_of;
use crate::text::{count_written, parse_u32, parse_usize, size_written, split_whitespace, tokens, views};
use hashbrown::HashMap;
use vstd::prelude::*;

verus! {

/// Why a pair of matrix files was not loaded. Lines are numbered from zero.
#[derive(Clone, Copy, Debug, PartialEq, Eq, Structural)]
pub enum LoadError {
    /// The two files do not have the same number of lines.
    LineCounts,
    /// The dimensions line has fewer than two tokens, or one of its first two
    /// is no number.
    Dimensions,
    /// An entry line has fewer than three tokens in one of the files, or a
    /// token that is read from it is no number.
    Malformed { line: usize },
    /// An entry names a locus or a cell that is zero or beyond the dimensions.
    OutOfRange { line: usize },
}

/// An entry as the files write it: locus and cell are numbered from one.
#[derive(Clone, Copy, Debug, PartialEq, Eq, Structural)]
pub struct RawEntry {
    pub locus: usize,
    pub cell: usize,
    pub ref_count: u32,
    pub alt_count: u32,
}

/// The number of loci and the number of cells that a dimensions line declares.
pub open spec fn dimensions_of(line: Seq<u8>) -> Option<(usize, usize)> {
    let t = tokens(line);
    if t.len() >= 2 && size_written(t[0]) is Some && size_written(t[1]) is Some {
        Some((size_written(t[0]).unwrap(), size_written(t[1]).unwrap()))
    } else {
        None
    }
}

/// The entry that a line of the alternate file and the line of the reference
/// file beside it write. Locus, cell and alternate count are the first three
/// tokens of the alternate line; the reference count is the third token of the
/// reference line.
pub open spec fn entry_of(alt_line: Seq<u8>, ref_line: Seq<u8>) -> Option<RawEntry> {
    let a = tokens(alt_line);
    let r = tokens(ref_line);
    if a.len() >= 3 && r.len() >= 3 && size_written(a[0]) is Some && size_written(a[1]) is Some
        && count_written(r[2]) is Some && count_written(a[2]) is Some {
        Some(
            RawEntry {
                locus: size_written(a[0]).unwrap(),
                cell: size_written(a[1]).unwrap(),
                ref_count: count_written(r[2]).unwrap(),
                alt_count: count_written(a[2]).unwrap(),
            },
        )
    } else {
        None
    }
}

/// Whether an entry lies within the declared dimensions.
pub open spec fn in_range(e: RawEntry, loci: usize, cells: usize) -> bool {
    1 <= e.locus && e.locus <= loci && 1 <= e.cell && e.cell <= cells
}

/// What is wrong with line `i`, if anything is.
pub open spec fn line_fault(
    alt_lines: Seq<Seq<u8>>,
    ref_lines: Seq<Seq<u8>>,
    loci: usize,
    cells: usize,
    i: int,
) -> Option<LoadError> {
    match entry_of(alt_lines[i], ref_lines[i]) {
        None => Some(LoadError::Malformed { line: i as usize }),
        Some(e) => if in_range(e, loci, cells) {
            None
        } else {
            Some(LoadError::OutOfRange { line: i as usize })
        },
    }
}

/// What is wrong with the first faulty entry line before line `n`, if one of
/// them is faulty.
pub open spec fn fault_before(
    alt_lines: Seq<Seq<u8>>,
    ref_lines: Seq<Seq<u8>>,
    loci: usize,
    cells: usize,
    n: int,
) -> Option<LoadError>
    decreases n,
{
    if n <= 3 {
        None
    } else {
        match fault_before(alt_lines, ref_lines, loci, cells, n - 1) {
            Some(e) => Some(e),
            None => line_fault(alt_lines, ref_lines, loci, cells, n - 1),
        }
    }
}

/// Why the two files cannot be loaded, if they cannot. Files of fewer than
/// three lines declare nothing and are loaded as the empty matrix.
pub open spec fn load_fault(alt_lines: Seq<Seq<u8>>, ref_lines: Seq<Seq<u8>>) -> Option<LoadError> {
    if alt_lines.len() != ref_lines.len() {
        Some(LoadError::LineCounts)
    } else if alt_lines.len() < 3 {
        None
    } else {
        match dimensions_of(alt_lines[2]) {
            None => Some(LoadError::Dimensions),
            Some((loci, cells)) => fault_before(
                alt_lines,
                ref_lines,
                loci,
                cells,
                alt_lines.len() as int,
            ),
        }
    }
}

/// The number of cells that the files declare.
pub open spec fn declared_cells(alt_lines: Seq<Seq<u8>>) -> usize {
    if alt_lines.len() < 3 {
        0
    } else {
        match dimensions_of(alt_lines[2]) {
            Some((_, cells)) => cells,
            None => 0,
        }
    }
}

/// The records that the entry lines before line `n` leave: for each locus and
/// cell, both numbered from zero here, the counts of the last entry that
/// names them.
pub open spec fn records_before(alt_lines: Seq<Seq<u8>>, ref_lines: Seq<Seq<u8>>, n: int) -> Map<
    (usize, usize),
    (u32, u32),
>
    decreases n,
{
    if n <= 3 {
        Map::empty()
    } else {
        let rest = records_before(alt_lines, ref_lines, n - 1);
        match entry_of(alt_lines[n - 1], ref_lines[n - 1]) {
            Some(e) => rest.insert(
                ((e.locus - 1) as usize, (e.cell - 1) as usize),
                (e.ref_count, e.alt_count),
            ),
            None => rest,
        }
    }
}

/// Whether line `i` writes an entry for the locus and cell `key`, both
/// numbered from zero.
pub open spec fn names(
    alt_lines: Seq<Seq<u8>>,
    ref_lines: Seq<Seq<u8>>,
    i: int,
    key: (usize, usize),
) -> bool {
    match entry_of(alt_lines[i], ref_lines[i]) {
        Some(e) => key == ((e.locus - 1) as usize, (e.cell - 1) as usize),
        None => false,
    }
}

/// The counts that the entry of line `i` gives: reference reads, then
/// alternate reads.
pub open spec fn counts_at(alt_lines: Seq<Seq<u8>>, ref_lines: Seq<Seq<u8>>, i: int) -> (u32, u32) {
    let e = entry_of(alt_lines[i], ref_lines[i]).unwrap();
    (e.ref_count, e.alt_count)
}

/// The records hold a locus and cell exactly when an entry line names them,
/// and hold for them the counts of the last line that does.
pub proof fn lemma_records_are_last_entries(
    alt_lines: Seq<Seq<u8>>,
    ref_lines: Seq<Seq<u8>>,
    n: int,
    key: (usize, usize),
)
    ensures
        records_before(alt_lines, ref_lines, n).dom().contains(key) <==> exists|i: int|
            3 <= i < n && names(alt_lines, ref_lines, i, key),
        forall|i: int|
            3 <= i < n && names(alt_lines, ref_lines, i, key) && (forall|j: int|
                i < j < n ==> !names(alt_lines, ref_lines, j, key)) ==> records_before(
                alt_lines,
                ref_lines,
                n,
            )[key] == counts_at(alt_lines, ref_lines, i),
    decreases n,
{
    if n > 3 {
        lemma_records_are_last_entries(alt_lines, ref_lines, n - 1, key);
        let rest = records_before(alt_lines, ref_lines, n - 1);
        if names(alt_lines, ref_lines, n - 1, key) {
            assert(3 <= n - 1 < n && names(alt_lines, ref_lines, n - 1, key));
        } else {
            assert(records_before(alt_lines, ref_lines, n).dom().contains(key) == rest.dom().contains(
                key,
            ));
            if rest.dom().contains(key) {
                let i = choose|i: int| 3 <= i < n - 1 && names(alt_lines, ref_lines, i, key);
                assert(3 <= i < n && names(alt_lines, ref_lines, i, key));
            }
        }
        assert forall|i: int|
            3 <= i < n && names(alt_lines, ref_lines, i, key) && (forall|j: int|
                i < j < n ==> !names(alt_lines, ref_lines, j, key)) implies records_before(
            alt_lines,
            ref_lines,
            n,
        )[key] == counts_at(alt_lines, ref_lines, i) by {
            if i < n - 1 {
                assert(!names(alt_lines, ref_lines, n - 1, key));
                assert forall|j: int| i < j < n - 1 implies !names(alt_lines, ref_lines, j, key) by {}
            }
        }
    }
}

/// The records that the two files leave.
pub open spec fn records_read(alt_lines: Seq<Seq<u8>>, ref_lines: Seq<Seq<u8>>) -> Map<
    (usize, usize),
    (u32, u32),
> {
    records_before(alt_lines, ref_lines, alt_lines.len() as int)
}

/// Reads a dimensions line.
pub fn parse_dimensions(line: &[u8]) -> (r: Option<(usize, usize)>)
    ensures
        r == dimensions_of(line@),
{
    let t = split_whitespace(line);
    if t.len() < 2 {
        return None;
    }
    proof {
        assert(views(t@)[0] == t@[0]@);
        assert(views(t@)[1] == t@[1]@);
    }
    let loci = parse_usize(t[0].as_slice());
    let cells = parse_usize(t[1].as_slice());
    match (loci, cells) {
        (Some(l), Some(c)) => Some((l, c)),
        _ => None,
    }
}

/// Reads an entry from a line of the alternate file and the line of the
/// reference file beside it.
pub fn parse_entry(alt_line: &[u8], ref_line: &[u8]) -> (r: Option<RawEntry>)
    ensures
        r == entry_of(alt_line@, ref_line@),
{
    let a = split_whitespace(alt_line);
    let r = split_whitespace(ref_line);
    if a.len() < 3 || r.len() < 3 {
        return None;
    }
    proof {
        assert(views(a@)[0] == a@[0]@);
        assert(views(a@)[1] == a@[1]@);
        assert(views(a@)[2] == a@[2]@);
        assert(views(r@)[2] == r@[2]@);
    }
    let locus = parse_usize(a[0].as_slice());
    let cell = parse_usize(a[1].as_slice());
    let ref_count = parse_u32(r[2].as_slice());
    let alt_count = parse_u32(a[2].as_slice());
    match (locus, cell, ref_count, alt_count) {
        (Some(l), Some(c), Some(rc), Some(ac)) => Some(
            RawEntry { locus: l, cell: c, ref_count: rc, alt_count: ac },
        ),
        _ => None,
    }
}

/// Once an entry line is faulty, the first fault stays what it is however many
/// lines follow.
pub proof fn lemma_fault_stays(
    alt_lines: Seq<Seq<u8>>,
    ref_lines: Seq<Seq<u8>>,
    loci: usize,
    cells: usize,
    k: int,
    n: int,
)
    requires
        k <= n,
        fault_before(alt_lines, ref_lines, loci, cells, k) is Some,
    ensures
        fault_before(alt_lines, ref_lines, loci, cells, n) == fault_before(
            alt_lines,
            ref_lines,
            loci,
            cells,
            k,
        ),
    decreases n - k,
{
    if k < n {
        lemma_fault_stays(alt_lines, ref_lines, loci, cells, k, n - 1);
    }
}

/// Every record lies within the dimensions.
pub open spec fn within(r: Map<(usize, usize), (u32, u32)>, loci: usize, cells: usize) -> bool {
    forall|key: (usize, usize)| #[trigger] r.dom().contains(key) ==> key.0 < loci && key.1 < cells
}

/// Walks the entry lines and records each entry in a table, until a line is
/// faulty.
fn scan_entries(
    alt_lines: &Vec<Vec<u8>>,
    ref_lines: &Vec<Vec<u8>>,
    loci: usize,
    cells: usize,
) -> (r: Result<HashMap<(usize, usize), (u32, u32)>, LoadError>)
    requires
        alt_lines@.len() == ref_lines@.len(),
    ensures
        match r {
            Ok(table) => fault_before(
                views(alt_lines@),
                views(ref_lines@),
                loci,
                cells,
                alt_lines@.len() as int,
            ) is None && records(table) == records_read(views(alt_lines@), views(ref_lines@))
                && within(records(table), loci, cells),
            Err(e) => fault_before(
                views(alt_lines@),
                views(ref_lines@),
                loci,
                cells,
                alt_lines@.len() as int,
            ) == Some(e),
        },
{
    let ghost alt = views(alt_lines@);
    let ghost refl = views(ref_lines@);
    let n: usize = alt_lines.len();
    let mut table = new_table();
    let mut i: usize = 3;
    while i < n
        invariant
            alt == views(alt_lines@),
            refl == views(ref_lines@),
            n == alt_lines@.len(),
            n == ref_lines@.len(),
            3 <= i,
            i <= n || (n < 3 && i == 3),
            fault_before(alt, refl, loci, cells, i as int) is None,
            records(table) == records_before(alt, refl, i as int),
            within(records(table), loci, cells),
        decreases n - i,
    {
        proof {
            assert(alt[i as int] == alt_lines@[i as int]@);
            assert(refl[i as int] == ref_lines@[i as int]@);
        }
        match parse_entry(alt_lines[i].as_slice(), ref_lines[i].as_slice()) {
            None => {
                proof {
                    lemma_fault_stays(alt, refl, loci, cells, i + 1, n as int);
                }
                return Err(LoadError::Malformed { line: i });
            },
            Some(e) => {
                if e.locus < 1 || e.locus > loci || e.cell < 1 || e.cell > cells {
                    proof {
                        lemma_fault_stays(alt, refl, loci, cells, i + 1, n as int);
                    }
                    return Err(LoadError::OutOfRange { line: i });
                }
                put_record(&mut table, (e.locus - 1, e.cell - 1), (e.ref_count, e.alt_count));
            },
        }
        i += 1;
    }
    proof {
        if n < 3 {
            assert(records_before(alt, refl, 3) == records_before(alt, refl, n as int));
        }
        assert(alt.len() == n);
    }
    Ok(table)
}

/// Loads the two matrices from the lines of their files.
///
/// The files are refused as `load_fault` says. Otherwise each entry is
/// recorded under its locus and cell, a later entry replacing an earlier one
/// for the same pair, and the matrix is built from the records: it keeps the
/// loci at which at least `min_ref` cells have a reference read and at least
/// `min_alt` cells have an alternate read, numbers them in ascending order of
/// their raw numbers, and gives each declared cell its records at the kept
/// loci, without those that have no read at all.
pub fn load_cell_data(
    alt_lines: &Vec<Vec<u8>>,
    ref_lines: &Vec<Vec<u8>>,
    min_ref: u32,
    min_alt: u32,
) -> (r: Result<CellMatrix, LoadError>)
    ensures
        match r {
            Ok(m) => load_fault(views(alt_lines@), views(ref_lines@)) is None && m.cells@.len()
                == declared_cells(views(alt_lines@)) && m.wf() && m.holds(
                records_read(views(alt_lines@), views(ref_lines@)),
                min_ref,
                min_alt,
            ),
            Err(e) => load_fault(views(alt_lines@), views(ref_lines@)) == Some(e),
        },
{
    let ghost alt = views(alt_lines@);
    let ghost refl = views(ref_lines@);
    if alt_lines.len() != ref_lines.len() {
        return Err(LoadError::LineCounts);
    }
    let dimensions: (usize, usize) = if alt_lines.len() < 3 {
        (0, 0)
    } else {
        proof {
            assert(alt[2] == alt_lines@[2]@);
        }
        match parse_dimensions(alt_lines[2].as_slice()) {
            None => {
                return Err(LoadError::Dimensions);
            },
            Some(d) => d,
        }
    };
    let table = match scan_entries(alt_lines, ref_lines, dimensions.0, dimensions.1) {
        Err(e) => {
            return Err(e);
        },
        Ok(table) => table,
    };
    let mut list = list_records(&table);
    let ghost listed = list@;
    sort_records(&mut list);
    proof {
        lemma_sorted_listing(listed, list@, records(table));
        assert forall|k: int| 0 <= k < list@.len() implies (#[trigger] list@[k]).1
            < dimensions.1 by {
            assert(records(table).dom().contains(key_of(list@[k])));
        }
    }
    let m = distribute(&list, dimensions.1, min_ref, min_alt, Ghost(records(table)));
    proof {
        lemma_holds_wf(m, records(table), min_ref, min_alt);
    }
    Ok(m)
}

} // verus!
