use kvrs::vacant::{allocate, free_block, VacantBlock};

#[test]
fn vacant_block_new_sets_fields() {
    let b = VacantBlock::new(25, 100);
    assert_eq!(b.pos, 25);
    assert_eq!(b.size, 100);
}

#[test]
fn allocate_picks_best_fit() {
    let mut blocks = vec![
        VacantBlock::new(30, 10),
        VacantBlock::new(50, 4),
        VacantBlock::new(60, 8),
    ];
    // The smallest block of size at least 5 is the 8-byte one.
    assert_eq!(allocate(&mut blocks, 5), Some(60));
    assert_eq!(
        blocks,
        vec![
            VacantBlock::new(30, 10),
            VacantBlock::new(50, 4),
            VacantBlock::new(65, 3),
        ]
    );
}

#[test]
fn allocate_breaks_ties_by_lowest_offset() {
    let mut blocks = vec![VacantBlock::new(30, 6), VacantBlock::new(40, 6)];
    assert_eq!(allocate(&mut blocks, 6), Some(30));
    // An exact fit removes the block entirely.
    assert_eq!(blocks, vec![VacantBlock::new(40, 6)]);
}

#[test]
fn allocate_fails_when_nothing_fits() {
    let mut blocks = vec![VacantBlock::new(30, 6), VacantBlock::new(40, 6)];
    assert_eq!(allocate(&mut blocks, 7), None);
    assert_eq!(blocks, vec![VacantBlock::new(30, 6), VacantBlock::new(40, 6)]);
}

#[test]
fn free_merges_left_neighbour() {
    let mut blocks = vec![VacantBlock::new(30, 10)];
    free_block(&mut blocks, 40, 5);
    assert_eq!(blocks, vec![VacantBlock::new(30, 15)]);
}

#[test]
fn free_merges_right_neighbour() {
    let mut blocks = vec![VacantBlock::new(40, 5)];
    free_block(&mut blocks, 30, 10);
    assert_eq!(blocks, vec![VacantBlock::new(30, 15)]);
}

#[test]
fn free_merges_both_neighbours() {
    let mut blocks = vec![VacantBlock::new(30, 10), VacantBlock::new(50, 10)];
    free_block(&mut blocks, 40, 10);
    assert_eq!(blocks, vec![VacantBlock::new(30, 30)]);
}

#[test]
fn free_inserts_isolated_block_in_order() {
    let mut blocks = vec![VacantBlock::new(30, 4), VacantBlock::new(60, 4)];
    free_block(&mut blocks, 45, 5);
    assert_eq!(
        blocks,
        vec![
            VacantBlock::new(30, 4),
            VacantBlock::new(45, 5),
            VacantBlock::new(60, 4),
        ]
    );
}

#[test]
fn free_of_empty_range_changes_nothing() {
    let mut blocks = vec![VacantBlock::new(30, 4)];
    free_block(&mut blocks, 50, 0);
    assert_eq!(blocks, vec![VacantBlock::new(30, 4)]);
}
