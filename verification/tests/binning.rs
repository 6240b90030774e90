use soa_lab::binning::{block_cells, build_csr, build_rep};

#[test]
fn csr_groups_items_by_cell_in_order() {
    let cells = [2u32, 0, 2, 1, 0, 2];
    let (offsets, items) = build_csr(&cells, 4);
    assert_eq!(offsets, vec![0, 2, 3, 6, 6]);
    assert_eq!(items, vec![1, 4, 3, 0, 2, 5]);
}

#[test]
fn csr_matches_a_naive_grouping() {
    let cells: Vec<u32> = (0..1000u32).map(|i| (i * 7919) % 37).collect();
    let (offsets, items) = build_csr(&cells, 37);
    for c in 0..37usize {
        let expect: Vec<u32> = (0..1000u32).filter(|&i| cells[i as usize] == c as u32).collect();
        assert_eq!(&items[offsets[c] as usize..offsets[c + 1] as usize], &expect[..]);
    }
}

#[test]
fn representative_is_the_last_item_of_a_cell() {
    let cells = [2usize, 0, 2, 1, 0];
    assert_eq!(build_rep(&cells, 4), vec![4, 3, 2, -1]);
    assert_eq!(build_rep(&[], 2), vec![-1, -1]);
}

#[test]
fn block_of_cells_clips_at_the_grid_edge() {
    // Interior cell (1, 1) of a 3 x 3 grid: the whole grid, row by row.
    assert_eq!(block_cells(1, 1, 3), vec![0, 1, 2, 3, 4, 5, 6, 7, 8]);
    // Corner (0, 0): only the in-grid neighbours.
    assert_eq!(block_cells(0, 0, 3), vec![0, 1, 3, 4]);
    assert_eq!(block_cells(2, 2, 3), vec![4, 5, 7, 8]);
    assert_eq!(block_cells(0, 0, 1), vec![0]);
}
