use particlinator::dispatch::{
    concat_dispatches, create_dispatch, create_dispatch_metadata, create_dispatches,
    dispatch_compute_groups, dispatch_uniform_metadata, workgroups_for,
};
use particlinator::grid::{
    get_bin_id_from_cell, get_bin_index, get_bin_index_above, get_bin_index_below, COMPUTE_GROUPS, MAX_PARTICLES,
    NUM_BINS_WITH_PADDING, TOTAL_NUM_BIN_INDICES, TOTAL_NUM_BINS_WITH_PADDING,
};
use particlinator::upload::dispatch_upload_bytes;

#[test]
fn grid_constants() {
    assert_eq!(NUM_BINS_WITH_PADDING, 102);
    assert_eq!(TOTAL_NUM_BINS_WITH_PADDING, 102 * 102);
    assert_eq!(TOTAL_NUM_BIN_INDICES, 102 * 102 + 1);
    assert_eq!(MAX_PARTICLES, 250_000);
    assert_eq!(COMPUTE_GROUPS, 977);
}

#[test]
fn bin_index_arithmetic() {
    assert_eq!(get_bin_index(0, 0), 0);
    assert_eq!(get_bin_index(3, 5), 311);
    assert_eq!(get_bin_index(101, 101), 10403);
    assert_eq!(get_bin_index_above(311), 413);
    assert_eq!(get_bin_index_below(413), 311);
    assert_eq!(get_bin_index_below(get_bin_index_above(7)), 7);
}

#[test]
fn bin_of_a_cell() {
    assert_eq!(get_bin_id_from_cell(0, 0), 0);
    assert_eq!(get_bin_id_from_cell(15, 7), 15 + 7 * 102);
    assert_eq!(get_bin_id_from_cell(101, 101), 10403);
}

#[test]
fn dispatch_walks_every_third_bin() {
    let d = create_dispatch(1, 1);
    assert_eq!(d.len(), 34 * 34);
    assert_eq!(&d[..3], &[103, 106, 109]);
    assert_eq!(d[33], get_bin_index(1, 100));
    assert_eq!(d[34], get_bin_index(4, 1));
    assert_eq!(*d.last().unwrap(), get_bin_index(100, 100));
    assert_eq!(create_dispatch(1, 2).len(), 34 * 33);
    assert_eq!(create_dispatch(3, 3).len(), 33 * 33);
    assert!(d.windows(2).all(|w| w[0] < w[1]));
}

#[test]
fn dispatch_with_row_offset_outside_grid_is_empty() {
    assert!(create_dispatch(101, 1).is_empty());
    assert!(create_dispatch(500, 7).is_empty());
}

#[test]
fn dispatch_with_column_offset_outside_grid() {
    // No row has a column to walk, yet each row after the first lists the
    // offset column once.
    let d = create_dispatch(90, 101);
    assert_eq!(d, vec![get_bin_index(93, 101), get_bin_index(96, 101), get_bin_index(99, 101)]);
    assert!(create_dispatch(99, 200).is_empty());
}

#[test]
fn nine_dispatches_partition_the_interior() {
    let dispatches = create_dispatches();
    let mut seen = vec![0u32; TOTAL_NUM_BINS_WITH_PADDING];
    for d in dispatches.iter() {
        for &bin in d.iter() {
            seen[bin as usize] += 1;
        }
    }
    for row in 0..102u32 {
        for col in 0..102u32 {
            let interior = (1..=100).contains(&row) && (1..=100).contains(&col);
            let expected = if interior { 1 } else { 0 };
            assert_eq!(seen[get_bin_index(row, col) as usize], expected, "bin ({row}, {col})");
        }
    }
}

#[test]
fn bins_of_one_dispatch_have_disjoint_neighbourhoods() {
    let dispatches = create_dispatches();
    for d in dispatches.iter() {
        let mut touched = vec![false; TOTAL_NUM_BINS_WITH_PADDING];
        for &bin in d.iter() {
            let (row, col) = (bin / 102, bin % 102);
            for r in row - 1..=row + 1 {
                for c in col - 1..=col + 1 {
                    let b = get_bin_index(r, c) as usize;
                    assert!(!touched[b], "bin {b} touched twice");
                    touched[b] = true;
                }
            }
        }
    }
}

#[test]
fn metadata_locates_each_dispatch() {
    let dispatches = create_dispatches();
    let metadata = create_dispatch_metadata(&dispatches);
    let flat = concat_dispatches(&dispatches);
    assert_eq!(metadata[0], (0, 1156));
    assert_eq!(metadata[1], (1156, 1122));
    assert_eq!(metadata[3], (1156 + 1122 + 1122, 1122));
    assert_eq!(flat.len(), 10_000);
    for (i, &(offset, len)) in metadata.iter().enumerate() {
        assert_eq!(&flat[offset as usize..(offset + len) as usize], dispatches[i].as_slice());
    }
}

#[test]
fn metadata_of_small_dispatches() {
    let dispatches: [Vec<u32>; 9] = [
        vec![1, 2],
        vec![],
        vec![3],
        vec![4, 5, 6],
        vec![],
        vec![],
        vec![7],
        vec![],
        vec![8, 9],
    ];
    let metadata = create_dispatch_metadata(&dispatches);
    assert_eq!(metadata, [(0, 2), (2, 0), (2, 1), (3, 3), (6, 0), (6, 0), (6, 1), (7, 0), (7, 2)]);
    let words = dispatch_uniform_metadata(&metadata);
    assert_eq!(&words[..8], &[0, 2, 0, 0, 2, 0, 0, 0]);
    assert_eq!(&words[32..], &[7, 2, 0, 0]);
    assert_eq!(concat_dispatches(&dispatches), vec![1, 2, 3, 4, 5, 6, 7, 8, 9]);
}

#[test]
fn workgroups_round_up() {
    assert_eq!(workgroups_for(0), 0);
    assert_eq!(workgroups_for(1), 1);
    assert_eq!(workgroups_for(256), 1);
    assert_eq!(workgroups_for(257), 2);
    assert_eq!(workgroups_for(250_000), 977);
    let groups = dispatch_compute_groups(&create_dispatches());
    assert_eq!(groups, [5, 5, 5, 5, 5, 5, 5, 5, 5]);
    let mut small: [Vec<u32>; 9] = Default::default();
    small[2] = vec![0; 513];
    assert_eq!(dispatch_compute_groups(&small), [0, 0, 3, 0, 0, 0, 0, 0, 0]);
}

#[test]
fn dispatch_upload_is_four_bytes_per_bin() {
    let dispatches = create_dispatches();
    let bytes = dispatch_upload_bytes(&dispatches);
    assert_eq!(bytes.len(), 4 * 10_000);
    let first = u32::from_ne_bytes([bytes[0], bytes[1], bytes[2], bytes[3]]);
    assert_eq!(first, 103);
}
