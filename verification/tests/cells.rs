use souporcell::cells::{CellData, Observation};

#[test]
fn new_cell_is_empty() {
    let cell = CellData::new();
    assert_eq!(cell.len(), 0);
    assert_eq!(cell.get(0), None);
}

#[test]
fn record_takes_observations_in_ascending_order() {
    let mut cell = CellData::new();
    assert!(cell.record(Observation { locus: 2, alt_count: 1, ref_count: 0 }));
    assert!(cell.record(Observation { locus: 5, alt_count: 0, ref_count: 3 }));
    assert_eq!(cell.len(), 2);
    assert_eq!(cell.get(0), Some(Observation { locus: 2, alt_count: 1, ref_count: 0 }));
    assert_eq!(cell.get(1), Some(Observation { locus: 5, alt_count: 0, ref_count: 3 }));
    assert_eq!(cell.get(2), None);
}

#[test]
fn record_refuses_what_breaks_the_order() {
    let mut cell = CellData::new();
    assert!(cell.record(Observation { locus: 5, alt_count: 1, ref_count: 1 }));
    assert!(!cell.record(Observation { locus: 5, alt_count: 1, ref_count: 1 }));
    assert!(!cell.record(Observation { locus: 4, alt_count: 1, ref_count: 1 }));
    assert_eq!(cell.len(), 1);
}

#[test]
fn record_refuses_an_observation_without_reads() {
    let mut cell = CellData::new();
    assert!(!cell.record(Observation { locus: 0, alt_count: 0, ref_count: 0 }));
    assert_eq!(cell.len(), 0);
    assert!(cell.record(Observation { locus: 0, alt_count: u32::MAX, ref_count: u32::MAX }));
    assert_eq!(cell.len(), 1);
}
