use particlinator::binning::{count_particles_per_bin, create_bin, init_bins};
use particlinator::collision::{bin_solver, check, collide_bins, collide_same_bins};
use particlinator::grid::{get_bin_index, TOTAL_NUM_BIN_INDICES, TOTAL_NUM_BINS_WITH_PADDING};

fn sorted_bins(bin_ids: &[usize], capacity: usize) -> (Vec<u32>, Vec<u32>) {
    let mut bin_indices = vec![0u32; TOTAL_NUM_BIN_INDICES];
    let mut bin_particles = vec![0u32; capacity];
    create_bin(&mut bin_indices, &mut bin_particles, bin_ids);
    (bin_indices, bin_particles)
}

#[test]
fn counts_add_to_existing_counts() {
    let mut counts = vec![0u32, 10, 0, 0, 0, 0];
    count_particles_per_bin(&mut counts, &[5, 3, 5, 1, 5]);
    assert_eq!(counts, vec![0, 11, 0, 1, 0, 3]);
}

#[test]
fn init_bins_sorts_stably() {
    let ids = [5usize, 3, 5, 0];
    let mut counts = vec![0u32; TOTAL_NUM_BINS_WITH_PADDING];
    count_particles_per_bin(&mut counts, &ids);
    let mut bin_indices = vec![7u32; TOTAL_NUM_BIN_INDICES + 2];
    let mut bin_particles = vec![99u32; 6];
    init_bins(&mut bin_indices, &mut bin_particles, &counts, &ids);
    assert_eq!(&bin_indices[..7], &[0, 1, 1, 1, 2, 2, 4]);
    assert_eq!(bin_indices[TOTAL_NUM_BIN_INDICES - 1], 4);
    // entries past the table are left as they were
    assert_eq!(&bin_indices[TOTAL_NUM_BIN_INDICES..], &[7, 7]);
    assert_eq!(bin_particles, vec![3, 1, 0, 2, 99, 99]);
}

#[test]
fn create_bin_places_every_particle_once() {
    let ids: Vec<usize> = (0..500).map(|p| (p * 37 + 11) % 1000 + 103).collect();
    let (bin_indices, bin_particles) = sorted_bins(&ids, 600);
    assert_eq!(bin_indices[0], 0);
    assert_eq!(bin_indices[TOTAL_NUM_BINS_WITH_PADDING], 500);
    let mut seen = vec![false; 500];
    for bin in 0..TOTAL_NUM_BINS_WITH_PADDING {
        let (start, end) = (bin_indices[bin] as usize, bin_indices[bin + 1] as usize);
        assert!(start <= end);
        for j in start..end {
            let p = bin_particles[j] as usize;
            assert_eq!(ids[p], bin);
            assert!(!seen[p]);
            seen[p] = true;
            if j > start {
                assert!(bin_particles[j - 1] < bin_particles[j]);
            }
        }
    }
    assert!(seen.iter().all(|&s| s));
}

#[test]
fn create_bin_with_no_particles() {
    let (bin_indices, bin_particles) = sorted_bins(&[], 3);
    assert!(bin_indices.iter().all(|&i| i == 0));
    assert_eq!(bin_particles, vec![0, 0, 0]);
}

#[test]
fn bins_of_neighbouring_cells_collide_pairwise() {
    let a = get_bin_index(5, 5) as usize;
    let b = get_bin_index(5, 6) as usize;
    let ids = [a, b, a, b, b];
    let (bin_indices, bin_particles) = sorted_bins(&ids, 5);
    let pairs = collide_bins(a as u32, b as u32, &bin_indices, &bin_particles);
    assert_eq!(pairs, vec![(0, 1), (0, 3), (0, 4), (2, 1), (2, 3), (2, 4)]);
    let within = collide_same_bins(b as u32, &bin_indices, &bin_particles);
    assert_eq!(within, vec![(1, 3), (1, 4), (3, 1), (3, 4), (4, 1), (4, 3)]);
    assert!(collide_same_bins(0, &bin_indices, &bin_particles).is_empty());
    assert!(collide_bins(0, a as u32, &bin_indices, &bin_particles).is_empty());
}

#[test]
fn solver_visits_each_neighbour_pair() {
    let a = get_bin_index(1, 1) as usize;
    let b = get_bin_index(2, 2) as usize;
    let c = get_bin_index(50, 50) as usize;
    let ids = [a, b, c, a];
    let (bin_indices, bin_particles) = sorted_bins(&ids, 4);
    let pairs = bin_solver(&bin_indices, &bin_particles);
    // Bin (1, 1): its upper-right neighbour (2, 2), then itself.
    // Bin (2, 2): its lower-left neighbour (1, 1).
    assert_eq!(pairs, vec![(0, 1), (3, 1), (0, 3), (3, 0), (1, 0), (1, 3)]);
    assert!(pairs.iter().all(|&(x, y)| x != y));
}

#[test]
fn check_reports_repeated_particles() {
    // bin 0: [7, 8, 7]; bin 1: [9]; bin 200: [5, 6, 5, 5]; all others empty.
    let mut bin_indices = vec![0u32; TOTAL_NUM_BIN_INDICES];
    bin_indices[1] = 3;
    for k in 2..=200 {
        bin_indices[k] = 4;
    }
    for k in 201..TOTAL_NUM_BIN_INDICES {
        bin_indices[k] = 8;
    }
    let bin_particles = vec![7u32, 8, 7, 9, 5, 6, 5, 5];
    let findings = check(&bin_indices, &bin_particles);
    assert_eq!(findings, vec![(0, 7), (200, 5), (200, 5), (200, 5)]);
}

#[test]
fn check_is_clean_on_built_bins() {
    let ids: Vec<usize> = (0..300).map(|p| (p * 31) % 10404).collect();
    let (bin_indices, bin_particles) = sorted_bins(&ids, 300);
    assert!(check(&bin_indices, &bin_particles).is_empty());
    let same: Vec<usize> = vec![5000; 40];
    let (bin_indices, bin_particles) = sorted_bins(&same, 40);
    assert!(check(&bin_indices, &bin_particles).is_empty());
}
