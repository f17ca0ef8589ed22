//! The library decides which loci are kept, how the cells are assigned and when
//! the rounds end; the rounds themselves are floating point and are written
//! here, around the library's calls.

use rand::rngs::StdRng;
use rand::{Rng, SeedableRng};
use souporcell::em::EmProgress;
use souporcell::init::{new_seed, random_assignment};
use souporcell::loader::load_cell_data;
use souporcell::loci::CellMatrix;

const LOW: f32 = 0.0001;
const HIGH: f32 = 0.9999;
const SMOOTHING: f32 = 0.1;

fn log_sum_exp(p: &[f32]) -> f32 {
    let max_p = p.iter().cloned().fold(f32::NEG_INFINITY, f32::max);
    if max_p == f32::NEG_INFINITY {
        return f32::NEG_INFINITY;
    }
    let sum: f32 = p.iter().map(|x| (x - max_p).exp()).sum();
    max_p + sum.ln()
}

fn normalize_in_log(log_probs: &[f32]) -> Vec<f32> {
    let sum = log_sum_exp(log_probs);
    log_probs.iter().map(|x| (x - sum).exp()).collect()
}

fn update_center(sum: f32, denom: f32) -> f32 {
    (sum / denom).min(HIGH).max(LOW)
}

fn log_likelihoods(matrix: &CellMatrix, cell: usize, centers: &[Vec<f32>]) -> Vec<f32> {
    let log_prior = (1.0 / centers.len() as f32).ln();
    let data = &matrix.cells[cell];
    centers
        .iter()
        .map(|center| {
            let mut total = log_prior;
            for k in 0..data.len() {
                let o = data.get(k).unwrap();
                let coefficient = statrs::function::factorial::ln_binomial(o.reads(), o.alt_count as u64) as f32;
                total += coefficient
                    + o.alt_count as f32 * center[o.locus].ln()
                    + o.ref_count as f32 * (1.0 - center[o.locus]).ln();
            }
            total
        })
        .collect()
}

/// One round: the new centers, the posterior of each cell, the log-loss and the squared change.
fn round(matrix: &CellMatrix, centers: &[Vec<f32>]) -> (Vec<Vec<f32>>, Vec<Vec<f32>>, f32, f32) {
    let loci = matrix.loci_used();
    let mut sums: Vec<Vec<f32>> = centers.iter().map(|c| c.iter().map(|x| x * SMOOTHING).collect()).collect();
    let mut denoms: Vec<Vec<f32>> = vec![vec![SMOOTHING; loci]; centers.len()];
    let mut posteriors = Vec::new();
    let mut log_loss = 0.0;
    for cell in 0..matrix.total_cells() {
        let log_probabilities = log_likelihoods(matrix, cell, centers);
        log_loss += log_sum_exp(&log_probabilities);
        let probabilities = normalize_in_log(&log_probabilities);
        let data = &matrix.cells[cell];
        for k in 0..data.len() {
            let o = data.get(k).unwrap();
            for cluster in 0..centers.len() {
                sums[cluster][o.locus] += probabilities[cluster] * o.alt_count as f32;
                denoms[cluster][o.locus] += probabilities[cluster] * o.reads() as f32;
            }
        }
        posteriors.push(probabilities);
    }
    let mut change = 0.0;
    let mut next = centers.to_vec();
    for cluster in 0..centers.len() {
        for locus in 0..loci {
            let update = sums[cluster][locus] / denoms[cluster][locus];
            change += (update - centers[cluster][locus]).powf(2.0);
            next[cluster][locus] = update_center(sums[cluster][locus], denoms[cluster][locus]);
        }
    }
    (next, posteriors, log_loss, change)
}

fn seed_by_random_assignment(matrix: &CellMatrix, clusters: usize, seed: [u8; 32]) -> Vec<Vec<f32>> {
    let mut rng = StdRng::from_seed(seed);
    let loci = matrix.loci_used();
    let noise: Vec<Vec<f32>> = (0..clusters).map(|_| (0..loci).map(|_| rng.gen::<f32>() * 0.01).collect()).collect();
    let (_, counts) = random_assignment(&mut rng, matrix, clusters);
    (0..clusters)
        .map(|c| {
            (0..loci)
                .map(|l| update_center(noise[c][l] + counts.alt[c][l] as f32, 0.01 + counts.reads[c][l] as f32))
                .collect()
        })
        .collect()
}

fn matrix(loci: usize, cells: usize, entries: &[(usize, usize, u32, u32)], min: u32) -> CellMatrix {
    let mut alt = vec![b"%".to_vec(), b"%".to_vec(), format!("{} {} {}", loci, cells, entries.len()).into_bytes()];
    let mut refs = alt.clone();
    for &(l, c, r, a) in entries {
        alt.push(format!("{} {} {}", l, c, a).into_bytes());
        refs.push(format!("{} {} {}", l, c, r).into_bytes());
    }
    load_cell_data(&alt, &refs, min, min).unwrap()
}

#[test]
fn normalized_probabilities_sum_to_one() {
    let vectors: Vec<Vec<f32>> = vec![
        vec![-1.0, -2.0, -3.0],
        vec![0.0],
        vec![-10.0, -11.0, -12.5, -9.0],
        vec![-5.0, f32::NEG_INFINITY, -6.0],
        vec![7.0, 6.0],
        vec![-0.6931472, -0.6931472],
    ];
    for v in vectors {
        let p = normalize_in_log(&v);
        assert_eq!(p.len(), v.len());
        let sum: f32 = p.iter().sum();
        assert!((sum - 1.0).abs() < 1e-5);
        assert!(p.iter().all(|x| *x >= 0.0 && *x <= 1.0));
    }
    let halves = normalize_in_log(&[-3.0, -3.0]);
    assert!((halves[0] - 0.5).abs() < 1e-6 && (halves[1] - 0.5).abs() < 1e-6);
}

#[test]
fn log_sum_exp_shifts_with_its_input() {
    let v: [f32; 4] = [-1.5, 0.25, -7.0, 2.0];
    let base = log_sum_exp(&v);
    assert!((base - 2.1866).abs() < 1e-3);
    for c in [-50.0f32, -1.0, 0.0, 3.5, 40.0] {
        let shifted: Vec<f32> = v.iter().map(|x| x + c).collect();
        assert!((log_sum_exp(&shifted) - (base + c)).abs() < 1e-4);
    }
}

#[test]
fn log_sum_exp_takes_negative_infinity() {
    assert_eq!(log_sum_exp(&[f32::NEG_INFINITY, f32::NEG_INFINITY]), f32::NEG_INFINITY);
    assert_eq!(log_sum_exp(&[f32::NEG_INFINITY, -2.0]), -2.0);
    assert!((log_sum_exp(&[0.0, 0.0]) - std::f32::consts::LN_2).abs() < 1e-6);
}

#[test]
fn updated_center_stays_within_its_bounds() {
    assert_eq!(update_center(0.0, SMOOTHING), LOW);
    assert_eq!(update_center(SMOOTHING, SMOOTHING), HIGH);
    assert_eq!(update_center(0.5 * SMOOTHING, SMOOTHING), 0.5);
    assert_eq!(update_center(1000.0, 1000.0), HIGH);
    assert_eq!(update_center(3.0, 12.0), 0.25);
    for center in [LOW, 0.3, HIGH] {
        let kept = update_center(center * SMOOTHING, SMOOTHING);
        assert!(kept >= LOW && kept <= HIGH);
        assert!((kept - center).abs() < 1e-6);
    }
}

#[test]
fn log_loss_does_not_decrease_between_rounds() {
    // 3 cells, 2 loci, 2 clusters.
    let m = matrix(2, 3, &[(1, 1, 1, 9), (2, 1, 5, 5), (1, 2, 8, 2), (2, 2, 4, 6), (1, 3, 2, 8), (2, 3, 6, 4)], 1);
    assert_eq!(m.loci_used(), 2);
    assert_eq!(m.total_cells(), 3);
    let mut centers = vec![vec![0.6, 0.4], vec![0.3, 0.7]];
    let mut last = f32::NEG_INFINITY;
    let mut progress = EmProgress::start();
    while !progress.is_finished() {
        let (next, _, log_loss, change) = round(&m, &centers);
        assert!(log_loss >= last - 1e-4);
        last = log_loss;
        centers = next;
        progress = progress.after_iteration(change < 0.01);
    }
    assert!(progress.iterations >= 2 && progress.iterations <= 1000);
    assert!(centers.iter().flatten().all(|c| *c >= LOW && *c <= HIGH));
}

#[test]
fn two_pairs_of_cells_land_in_two_clusters() {
    // 4 cells, 3 loci: cells 1 and 2 are alternate at locus 1, cells 3 and 4 are reference there.
    let mut entries = Vec::new();
    for cell in 1..=4 {
        let (r, a) = if cell <= 2 { (1, 30) } else { (30, 1) };
        entries.push((1, cell, r, a));
        entries.push((2, cell, 5, 5));
        entries.push((3, cell, 6, 4));
    }
    let m = matrix(3, 4, &entries, 4);
    assert_eq!(m.loci_used(), 3);
    let mut rng = StdRng::from_seed([4u8; 32]);
    let mut centers = seed_by_random_assignment(&m, 2, new_seed(&mut rng));
    let mut posteriors = Vec::new();
    let mut progress = EmProgress::start();
    while !progress.is_finished() {
        let (next, p, _, change) = round(&m, &centers);
        centers = next;
        posteriors = p;
        progress = progress.after_iteration(change < 0.01);
    }
    assert!(progress.converged);
    let cluster_of = |cell: usize| if posteriors[cell][0] > posteriors[cell][1] { 0 } else { 1 };
    assert_eq!(cluster_of(0), cluster_of(1));
    assert_eq!(cluster_of(2), cluster_of(3));
    assert_ne!(cluster_of(0), cluster_of(2));
    for cell in 0..4 {
        assert!(posteriors[cell][cluster_of(cell)] > 0.9);
    }
}
