use std::collections::HashSet;
use sudoku::{
    block_num_for_row_col, grid_origin_offset_for_block, line_up_water_cannon,
    solve_with_guesses, CellAssignment, Consolidation, Cell, IllDefinedReason, Puzzle, PuzzleStatus,
    WaterCannonSights,
};

const SAMPLE: &str = r#"
.4.5.2...
76....1.2
9...18.64
..429...8
.8.3.6.7.
6...754..
21.68...3
4.6....27
...4.9.1.
    "#;

fn assert_eq_set(a: &HashSet<u8>, b: &[u8]) {
    let a: HashSet<_> = a.iter().collect();
    let b: HashSet<_> = b.iter().collect();

    assert!(a == b, "Sets do not match. Expected {:?}, found {:?}", b, a);
}

fn eq_slice(a: &[u8], b: &[u8]) -> bool {
    let mut a: HashSet<&u8> = a.iter().collect();
    let mut b: HashSet<&u8> = b.iter().collect();

    a.remove(&0);
    b.remove(&0);

    if a != b {
        println!("Slices do not match. Expected {:?}, found {:?}.", b, a);
    }

    a == b
}

#[test]
fn helpers() {
    assert_eq!(0, block_num_for_row_col(0, 0));
    assert_eq!(0, block_num_for_row_col(2, 2));
    assert_eq!(2, block_num_for_row_col(1, 6));
    assert_eq!(6, block_num_for_row_col(7, 2));
    assert_eq!(8, block_num_for_row_col(8, 8));

    assert_eq!((0, 0), grid_origin_offset_for_block(0));
    assert_eq!((0, 3), grid_origin_offset_for_block(1));
    assert_eq!((3, 0), grid_origin_offset_for_block(3));
    assert_eq!((3, 3), grid_origin_offset_for_block(4));
    assert_eq!((6, 6), grid_origin_offset_for_block(8));

    let mut block = [
        [
            Cell::with_number(7),
            Cell::with_candidates(vec![3, 9]),
            Cell::with_number(5),
        ],
        [
            Cell::with_number(6),
            Cell::with_candidates(vec![4, 9]),
            Cell::with_number(1),
        ],
        [
            Cell::with_candidates(vec![2, 3, 9]),
            Cell::with_candidates(vec![2, 3, 4, 9]),
            Cell::with_number(8),
        ],
    ];
    assert_eq!(line_up_water_cannon(block, 4), WaterCannonSights::Column(1));

    block = [
        [
            Cell::with_candidates(vec![3, 7, 9]),
            Cell::with_number(6),
            Cell::with_candidates(vec![1, 3, 7]),
        ],
        [
            Cell::with_number(2),
            Cell::with_number(8),
            Cell::with_candidates(vec![1, 3]),
        ],
        [
            Cell::with_candidates(vec![3, 9]),
            Cell::with_number(4),
            Cell::with_number(5),
        ],
    ];
    assert_eq!(line_up_water_cannon(block, 9), WaterCannonSights::Column(0));

    block = [
        [
            Cell::with_candidates(vec![1, 3, 9]),
            Cell::with_number(2),
            Cell::with_number(5),
        ],
        [
            Cell::with_candidates(vec![1, 3, 9]),
            Cell::with_number(8),
            Cell::with_number(6),
        ],
        [
            Cell::with_number(7),
            Cell::with_candidates(vec![1, 4]),
            Cell::with_candidates(vec![4, 9]),
        ],
    ];
    assert_eq!(line_up_water_cannon(block, 1), WaterCannonSights::Unaligned);
    assert_eq!(line_up_water_cannon(block, 3), WaterCannonSights::Column(0));
    assert_eq!(line_up_water_cannon(block, 4), WaterCannonSights::Row(2));
    assert_eq!(line_up_water_cannon(block, 5), WaterCannonSights::Unaligned);
    assert_eq!(line_up_water_cannon(block, 9), WaterCannonSights::Unaligned);
}

#[test]
fn baby_steps() {
    let mut puzzle = Puzzle::parse(SAMPLE);

    assert_eq_set(&puzzle.numbers_in_row(0), &[4, 5, 2]);
    assert_eq_set(&puzzle.numbers_in_row(1), &[7, 6, 1, 2]);
    assert_eq_set(&puzzle.numbers_in_row(2), &[9, 1, 8, 6, 4]);
    assert_eq_set(&puzzle.numbers_in_row(3), &[4, 2, 9, 8]);
    assert_eq_set(&puzzle.numbers_in_row(4), &[8, 3, 6, 7]);
    assert_eq_set(&puzzle.numbers_in_row(5), &[6, 7, 5, 4]);
    assert_eq_set(&puzzle.numbers_in_row(6), &[2, 1, 6, 8, 3]);
    assert_eq_set(&puzzle.numbers_in_row(7), &[4, 6, 2, 7]);
    assert_eq_set(&puzzle.numbers_in_row(8), &[4, 9, 1]);

    assert_eq_set(&puzzle.numbers_in_column(0), &[7, 9, 6, 2, 4]);
    assert_eq_set(&puzzle.numbers_in_column(1), &[4, 6, 8, 1]);
    assert_eq_set(&puzzle.numbers_in_column(2), &[4, 6]);
    assert_eq_set(&puzzle.numbers_in_column(3), &[5, 2, 3, 6, 4]);
    assert_eq_set(&puzzle.numbers_in_column(4), &[1, 9, 7, 8]);
    assert_eq_set(&puzzle.numbers_in_column(5), &[2, 8, 6, 5, 9]);
    assert_eq_set(&puzzle.numbers_in_column(6), &[1, 4]);
    assert_eq_set(&puzzle.numbers_in_column(7), &[6, 7, 2, 1]);
    assert_eq_set(&puzzle.numbers_in_column(8), &[2, 4, 8, 3, 7]);

    assert_eq_set(&puzzle.numbers_in_block(0), &[4, 7, 6, 9]);
    assert_eq_set(&puzzle.numbers_in_block(1), &[5, 2, 1, 8]);
    assert_eq_set(&puzzle.numbers_in_block(2), &[1, 2, 6, 4]);
    assert_eq_set(&puzzle.numbers_in_block(3), &[4, 8, 6]);
    assert_eq_set(&puzzle.numbers_in_block(4), &[2, 9, 3, 6, 7, 5]);
    assert_eq_set(&puzzle.numbers_in_block(5), &[8, 7, 4]);
    assert_eq_set(&puzzle.numbers_in_block(6), &[2, 1, 4, 6]);
    assert_eq_set(&puzzle.numbers_in_block(7), &[6, 8, 4, 9]);
    assert_eq_set(&puzzle.numbers_in_block(8), &[3, 2, 7, 1]);

    puzzle.assign_candidates();

    // Block 0
    assert!(eq_slice(&puzzle.cell(0, 0).candidates_as_vec(), &[1, 3, 8]));
    assert!(eq_slice(&puzzle.cell(0, 2).candidates_as_vec(), &[1, 3, 8]));
    assert!(eq_slice(&puzzle.cell(1, 2).candidates_as_vec(), &[5, 8]));
    assert!(eq_slice(&puzzle.cell(2, 1).candidates_as_vec(), &[2, 3, 5]));
    assert!(eq_slice(&puzzle.cell(2, 2).candidates_as_vec(), &[2, 3, 5]));
}

#[test]
fn reduce_candidates_by_uniqueness() {
    let pinned_pair: Vec<Vec<u8>> = vec![
        vec![2, 7],
        vec![2, 5, 7, 8],
        vec![1],
        vec![3],
        vec![9],
        vec![4],
        vec![6],
        vec![5, 8],
        vec![5, 8],
    ];

    let mut reduced = sudoku::reduce_candidates_by_uniqueness(pinned_pair);

    assert_eq!(reduced[0], vec![2, 7]);
    assert_eq!(reduced[1], vec![2, 7]);
    assert_eq!(reduced[2], vec![1]);
    assert_eq!(reduced[3], vec![3]);
    assert_eq!(reduced[4], vec![9]);
    assert_eq!(reduced[5], vec![4]);
    assert_eq!(reduced[6], vec![6]);
    assert_eq!(reduced[7], vec![5, 8]);
    assert_eq!(reduced[8], vec![5, 8]);

    let pinned_triplet: Vec<Vec<u8>> = vec![
        vec![6, 3, 8],
        vec![3, 4, 8],
        vec![3, 4, 8],
        vec![1],
        vec![2, 4],
        vec![5],
        vec![4, 8, 9],
        vec![7],
        vec![3, 4, 8],
    ];

    reduced = sudoku::reduce_candidates_by_uniqueness(pinned_triplet);

    assert_eq!(reduced[0], vec![6]);
    assert_eq!(reduced[1], vec![3, 4, 8]);
    assert_eq!(reduced[2], vec![3, 4, 8]);
    assert_eq!(reduced[3], vec![1]);
    assert_eq!(reduced[4], vec![2]);
    assert_eq!(reduced[5], vec![5]);
    assert_eq!(reduced[6], vec![9]);
    assert_eq!(reduced[7], vec![7]);
    assert_eq!(reduced[8], vec![3, 4, 8]);
}
