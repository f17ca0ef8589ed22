use souporcell::cells::Observation;
use souporcell::loader::{load_cell_data, parse_dimensions, parse_entry, LoadError, RawEntry};
use souporcell::loci::CellMatrix;

fn lines(text: &str) -> Vec<Vec<u8>> {
    text.lines().map(|l| l.as_bytes().to_vec()).collect()
}

/// Builds the two files from `(locus, cell, ref, alt)` entries.
fn files(loci: usize, cells: usize, entries: &[(usize, usize, u32, u32)]) -> (Vec<Vec<u8>>, Vec<Vec<u8>>) {
    let mut alt = String::from("%%MatrixMarket matrix coordinate real general\n%\n");
    let mut refs = alt.clone();
    alt.push_str(&format!("{} {} {}\n", loci, cells, entries.len()));
    refs.push_str(&format!("{} {} {}\n", loci, cells, entries.len()));
    for &(l, c, r, a) in entries {
        alt.push_str(&format!("{} {} {}\n", l, c, a));
        refs.push_str(&format!("{} {} {}\n", l, c, r));
    }
    (lines(&alt), lines(&refs))
}

fn observations(m: &CellMatrix, cell: usize) -> Vec<(usize, u32, u32)> {
    let data = &m.cells[cell];
    let mut out = Vec::new();
    for k in 0..data.len() {
        let o = data.get(k).unwrap();
        out.push((o.locus, o.alt_count, o.ref_count));
    }
    assert_eq!(data.get(data.len()), None);
    out
}

#[test]
fn locus_below_min_ref_is_excluded_and_rank_is_compact_index() {
    // locus 1: 4 ref, 4 alt; locus 2: 3 ref, 5 alt; locus 4: 4 ref, 6 alt.
    let mut entries = Vec::new();
    for c in 1..=4 {
        entries.push((1, c, 1, 2));
    }
    for c in 1..=5 {
        entries.push((2, c, if c <= 3 { 1 } else { 0 }, 1));
    }
    for c in 1..=6 {
        entries.push((4, c, if c <= 4 { 2 } else { 0 }, 3));
    }
    let (alt, refs) = files(5, 6, &entries);
    let m = load_cell_data(&alt, &refs, 4, 4).unwrap();
    assert_eq!(m.loci_used(), 2);
    assert_eq!(m.total_cells(), 6);
    assert_eq!(m.index_to_locus, vec![0, 3]);
    assert_eq!(m.compact_index(3), Some(1));
    assert_eq!(m.compact_index(0), Some(0));
    assert_eq!(m.compact_index(1), None);
    assert_eq!(m.compact_index(2), None);
    assert_eq!(m.compact_index(4), None);
    assert_eq!(observations(&m, 0), vec![(0, 2, 1), (1, 3, 2)]);
    assert_eq!(observations(&m, 3), vec![(0, 2, 1), (1, 3, 2)]);
    assert_eq!(observations(&m, 4), vec![(1, 3, 0)]);
    assert_eq!(observations(&m, 5), vec![(1, 3, 0)]);
}

#[test]
fn entries_out_of_order_give_ascending_loci() {
    let entries = [(3, 1, 1, 1), (1, 1, 2, 0), (2, 1, 0, 5), (1, 2, 0, 7), (3, 2, 4, 4)];
    let (alt, refs) = files(3, 2, &entries);
    let m = load_cell_data(&alt, &refs, 0, 0).unwrap();
    assert_eq!(m.index_to_locus, vec![0, 1, 2]);
    assert_eq!(observations(&m, 0), vec![(0, 0, 2), (1, 5, 0), (2, 1, 1)]);
    assert_eq!(observations(&m, 1), vec![(0, 7, 0), (2, 4, 4)]);
}

#[test]
fn zero_coverage_entries_are_dropped() {
    let entries = [(1, 1, 0, 0), (1, 2, 3, 4)];
    let (alt, refs) = files(1, 3, &entries);
    let m = load_cell_data(&alt, &refs, 1, 1).unwrap();
    assert_eq!(m.index_to_locus, vec![0]);
    assert_eq!(observations(&m, 0), vec![]);
    assert_eq!(observations(&m, 1), vec![(0, 4, 3)]);
    assert_eq!(observations(&m, 2), vec![]);
}

#[test]
fn later_entry_replaces_earlier_for_same_pair() {
    // Cell 1 first has a reference read at locus 1, then none: one supporter is left.
    let entries = [(1, 1, 5, 1), (1, 2, 5, 1), (1, 1, 0, 9)];
    let (alt, refs) = files(1, 2, &entries);
    let kept = load_cell_data(&alt, &refs, 1, 2).unwrap();
    assert_eq!(kept.index_to_locus, vec![0]);
    assert_eq!(observations(&kept, 0), vec![(0, 9, 0)]);
    assert_eq!(observations(&kept, 1), vec![(0, 1, 5)]);
    let dropped = load_cell_data(&alt, &refs, 2, 2).unwrap();
    assert_eq!(dropped.loci_used(), 0);
    assert_eq!(observations(&dropped, 0), vec![]);
}

#[test]
fn thresholds_are_inclusive() {
    let entries = [(1, 1, 1, 1), (1, 2, 1, 1)];
    let (alt, refs) = files(1, 2, &entries);
    assert_eq!(load_cell_data(&alt, &refs, 2, 2).unwrap().loci_used(), 1);
    assert_eq!(load_cell_data(&alt, &refs, 3, 2).unwrap().loci_used(), 0);
    assert_eq!(load_cell_data(&alt, &refs, 2, 3).unwrap().loci_used(), 0);
}

#[test]
fn files_without_dimensions_are_empty() {
    let m = load_cell_data(&lines("%a\n%b\n"), &lines("%a\n%b\n"), 4, 4).unwrap();
    assert_eq!(m.total_cells(), 0);
    assert_eq!(m.loci_used(), 0);
    let none = load_cell_data(&Vec::new(), &Vec::new(), 4, 4).unwrap();
    assert_eq!(none.total_cells(), 0);
}

#[test]
fn unequal_line_counts_are_refused() {
    let (alt, mut refs) = files(2, 2, &[(1, 1, 1, 1), (2, 2, 1, 1)]);
    refs.pop();
    assert_eq!(load_cell_data(&alt, &refs, 0, 0).err(), Some(LoadError::LineCounts));
}

#[test]
fn bad_dimensions_are_refused() {
    let alt = lines("%\n%\nfive 2 1\n1 1 1\n");
    let refs = lines("%\n%\n5 2 1\n1 1 1\n");
    assert_eq!(load_cell_data(&alt, &refs, 0, 0).err(), Some(LoadError::Dimensions));
    let short = lines("%\n%\n5\n");
    assert_eq!(load_cell_data(&short, &short, 0, 0).err(), Some(LoadError::Dimensions));
}

#[test]
fn malformed_entry_is_refused_with_its_line() {
    let alt = lines("%\n%\n5 2 2\n1 1 1\n2 x 1\n");
    let refs = lines("%\n%\n5 2 2\n1 1 1\n2 1 1\n");
    assert_eq!(load_cell_data(&alt, &refs, 0, 0).err(), Some(LoadError::Malformed { line: 4 }));
    let alt = lines("%\n%\n5 2 2\n1 1 1\n2 1 1\n");
    let refs = lines("%\n%\n5 2 2\n1 1\n2 1 1\n");
    assert_eq!(load_cell_data(&alt, &refs, 0, 0).err(), Some(LoadError::Malformed { line: 3 }));
    let refs = lines("%\n%\n5 2 2\n1 1 -1\n2 1 1\n");
    assert_eq!(load_cell_data(&alt, &refs, 0, 0).err(), Some(LoadError::Malformed { line: 3 }));
    let refs = lines("%\n%\n5 2 2\n1 1 1\n\n");
    assert_eq!(load_cell_data(&alt, &refs, 0, 0).err(), Some(LoadError::Malformed { line: 4 }));
}

#[test]
fn ids_outside_dimensions_are_refused() {
    let refs = lines("%\n%\n5 2 1\n1 1 1\n");
    for (bad, line) in [("6 1 1", 3), ("0 1 1", 3), ("1 3 1", 3), ("1 0 1", 3)] {
        let alt = lines(&format!("%\n%\n5 2 1\n{}\n", bad));
        assert_eq!(load_cell_data(&alt, &refs, 0, 0).err(), Some(LoadError::OutOfRange { line }));
    }
    let alt = lines("%\n%\n5 2 1\n5 2 1\n");
    assert!(load_cell_data(&alt, &refs, 0, 0).is_ok());
}

#[test]
fn first_fault_wins() {
    let alt = lines("%\n%\n5 2 3\n1 1 1\n9 1 1\n1 y 1\n");
    let refs = lines("%\n%\n5 2 3\n1 1 1\n1 1 1\n1 1 1\n");
    assert_eq!(load_cell_data(&alt, &refs, 0, 0).err(), Some(LoadError::OutOfRange { line: 4 }));
}

#[test]
fn dimensions_line_is_read() {
    assert_eq!(parse_dimensions(b"  12\t7 99 "), Some((12, 7)));
    assert_eq!(parse_dimensions(b"12 7"), Some((12, 7)));
    assert_eq!(parse_dimensions(b"12"), None);
    assert_eq!(parse_dimensions(b"12 seven 3"), None);
    assert_eq!(parse_dimensions(b""), None);
}

#[test]
fn entry_takes_reference_count_from_reference_line() {
    assert_eq!(
        parse_entry(b"3 4 5", b"3 4 6"),
        Some(RawEntry { locus: 3, cell: 4, ref_count: 6, alt_count: 5 })
    );
    assert_eq!(
        parse_entry(b"3 4 5", b"x y 6"),
        Some(RawEntry { locus: 3, cell: 4, ref_count: 6, alt_count: 5 })
    );
    assert_eq!(parse_entry(b"3 4 5", b"3 4"), None);
    assert_eq!(parse_entry(b"3 4 4294967296", b"3 4 1"), None);
    assert_eq!(
        parse_entry(b"3 4 4294967295", b"3 4 1"),
        Some(RawEntry { locus: 3, cell: 4, ref_count: 1, alt_count: 4294967295 })
    );
}

#[test]
fn observation_is_a_plain_value() {
    let o = Observation { locus: 1, alt_count: 2, ref_count: 3 };
    assert_eq!(o, o.clone());
}

#[test]
fn many_loci_come_out_in_ascending_order() {
    let mut entries = Vec::new();
    for l in (1..=300usize).rev() {
        entries.push((l, 1 + l % 3, 1, 1));
    }
    let (alt, refs) = files(300, 3, &entries);
    let m = load_cell_data(&alt, &refs, 1, 1).unwrap();
    assert_eq!(m.index_to_locus, (0..300).collect::<Vec<usize>>());
    for raw in 0..300 {
        assert_eq!(m.compact_index(raw), Some(raw));
    }
    assert_eq!(m.compact_index(300), None);
    let mine: Vec<usize> = observations(&m, 0).iter().map(|o| o.0).collect();
    assert_eq!(mine, (0..300).filter(|raw| (raw + 1) % 3 == 0).collect::<Vec<usize>>());
}

#[test]
fn compact_index_skips_dropped_loci() {
    let entries = [(2, 1, 1, 1), (5, 1, 1, 0), (7, 1, 1, 1), (9, 1, 0, 1), (10, 1, 2, 2)];
    let (alt, refs) = files(10, 1, &entries);
    let m = load_cell_data(&alt, &refs, 1, 1).unwrap();
    assert_eq!(m.index_to_locus, vec![1, 6, 9]);
    assert_eq!(m.compact_index(1), Some(0));
    assert_eq!(m.compact_index(6), Some(1));
    assert_eq!(m.compact_index(9), Some(2));
    assert_eq!(m.compact_index(4), None);
    assert_eq!(m.compact_index(8), None);
    assert_eq!(m.compact_index(0), None);
    assert_eq!(observations(&m, 0), vec![(0, 1, 1), (1, 1, 1), (2, 2, 2)]);
}

#[test]
fn stored_counts_are_those_of_the_files() {
    let entries = [(1, 1, 3, 1), (1, 2, 0, 4), (2, 2, 6, 2)];
    let (alt, refs) = files(2, 2, &entries);
    let m = load_cell_data(&alt, &refs, 0, 0).unwrap();
    let first = m.cells[0].get(0).unwrap();
    assert_eq!(first, Observation { locus: 0, alt_count: 1, ref_count: 3 });
    assert_eq!(first.alt_count as f32 / (first.alt_count + first.ref_count) as f32, 0.25);
    assert_eq!(observations(&m, 1), vec![(0, 4, 0), (1, 2, 6)]);
}
