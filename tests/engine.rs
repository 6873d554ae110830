use sudoku::{
    reduce_candidates_by_uniqueness, solve_with_guesses, Cell, CellAssignment, Consolidation,
    IllDefinedReason, Puzzle, PuzzleStatus,
};

const SAMPLE: &str = "
.4.5.2...
76....1.2
9...18.64
..429...8
.8.3.6.7.
6...754..
21.68...3
4.6....27
...4.9.1.
";

const SOLVED_SAMPLE: &str = "
341562789
768934152
952718364
574291638
189346275
623875491
215687943
496153827
837429516
";

// Stalls after solving; its largest first guess is ill-defined, another one solves it.
const NEEDS_A_GUESS: &str = "
3....2..9
....3415.
9.2....6.
....9.638
..9....7.
..3..5...
.15..7...
....5....
.3.4....6
";

// Stalls after solving, and no guess leads to a solved grid.
const NO_SOLUTION: &str = "
.41562.8.
..8..4...
95..18..4
5.4.9....
....4..75
.2.......
.1.6..9..
...2..8..
..74...1.
";

fn values(p: &Puzzle) -> String {
    let mut s = String::new();
    for r in 0..9 {
        for c in 0..9 {
            match p.cell(r, c).number() {
                Some(n) => s.push((b'0' + n) as char),
                None => s.push('.'),
            }
        }
        s.push('\n');
    }
    s
}

#[test]
fn blank_grid_gets_every_digit() {
    let mut p = Puzzle::parse("");
    p.assign_candidates();
    for r in 0..9 {
        for c in 0..9 {
            assert_eq!(p.cell(r, c).candidates_as_vec(), vec![1, 2, 3, 4, 5, 6, 7, 8, 9]);
        }
    }
}

#[test]
fn assigned_cells_list_no_candidates_after_a_step() {
    let mut p = Puzzle::parse(SAMPLE);
    for _ in 0..3 {
        p.step();
        for r in 0..9 {
            for c in 0..9 {
                let cell = p.cell(r, c);
                if cell.number().is_some() {
                    assert!(cell.candidates_as_vec().is_empty());
                }
            }
        }
    }
}

#[test]
fn propagation_twice_changes_nothing() {
    let mut p = Puzzle::parse(SAMPLE);
    p.assign_candidates();
    let first: Vec<Vec<u8>> = (0..81).map(|t| p.cell(t / 9, t % 9).candidates_as_vec()).collect();
    p.assign_candidates();
    let second: Vec<Vec<u8>> = (0..81).map(|t| p.cell(t / 9, t % 9).candidates_as_vec()).collect();
    assert_eq!(first, second);
    assert_eq!(p.reduce_candidates_with_sara_flex(), 0);
    assert_eq!(p.reduce_candidates_using_water_cannon(), 0);
}

#[test]
fn locked_candidates_narrow_beyond_peer_values() {
    let p = Puzzle::parse(SAMPLE);
    assert_eq!(p.numbers_in_row(0).len(), 3);
    let mut q = p;
    q.assign_candidates();
    assert_eq!(q.cell(1, 2).candidates_as_vec(), vec![5, 8]);
}

#[test]
fn first_step_assigns_the_single_candidates() {
    let mut p = Puzzle::parse(SAMPLE);
    let progress = p.step();
    let expected: Vec<(u8, usize, usize, usize)> = vec![
        (6, 1, 0, 1),
        (9, 1, 1, 0),
        (7, 1, 2, 0),
        (9, 2, 0, 2),
        (1, 4, 0, 2),
        (4, 4, 1, 1),
        (7, 7, 0, 2),
        (1, 7, 1, 0),
        (9, 8, 0, 0),
    ];
    assert_eq!(progress.len(), expected.len());
    for (rec, (number, block, row, col)) in progress.iter().zip(expected) {
        assert_eq!(
            *rec,
            Consolidation::SingleCandidateForCell(CellAssignment { number, block, row, col })
        );
    }
    assert_eq!(p.cell(2, 3).number(), Some(7));
}

#[test]
fn solving_the_sample() {
    let mut p = Puzzle::parse(SAMPLE);
    p.solve();
    assert_eq!(p.status(), PuzzleStatus::Solved);
    assert_eq!(values(&p), SOLVED_SAMPLE.trim_start());
}

#[test]
fn status_of_a_full_consistent_grid_is_solved() {
    let p = Puzzle::parse(SOLVED_SAMPLE);
    assert_eq!(p.status(), PuzzleStatus::Solved);
}

#[test]
fn status_reports_a_row_repeat_before_column_and_block() {
    let mut p = Puzzle::parse(".........\n.........\n5.5......\n.........\n7........\n7........\n");
    p.assign_candidates();
    assert_eq!(
        p.status(),
        PuzzleStatus::IllDefined(IllDefinedReason::NumberRepeatsInRow(5, 2))
    );
}

#[test]
fn status_reports_a_column_then_a_block_repeat() {
    let mut p = Puzzle::parse("7........\n\n\n7........\n");
    p.assign_candidates();
    assert_eq!(
        p.status(),
        PuzzleStatus::IllDefined(IllDefinedReason::NumberRepeatsInColumn(7, 0))
    );
    let mut q = Puzzle::parse("7........\n.7.......\n");
    q.assign_candidates();
    assert_eq!(
        q.status(),
        PuzzleStatus::IllDefined(IllDefinedReason::NumberRepeatsInBlock(7, 0))
    );
}

#[test]
fn status_reports_a_cell_with_nothing_left() {
    let p = Puzzle::parse("1........");
    assert_eq!(
        p.status(),
        PuzzleStatus::IllDefined(IllDefinedReason::NoPossibleSolution((0, 1)))
    );
    let mut q = Puzzle::parse("1........");
    q.assign_candidates();
    assert_eq!(q.status(), PuzzleStatus::Unsolved);
}

#[test]
fn guessing_solves_a_stalled_puzzle() {
    let mut p = Puzzle::parse(NEEDS_A_GUESS);
    p.solve();
    assert_eq!(p.status(), PuzzleStatus::Unsolved);
    let solved = solve_with_guesses(p).expect("a solved grid");
    assert_eq!(solved.status(), PuzzleStatus::Solved);
    assert_eq!(
        values(&solved),
        "341562789\n867934152\n952178463\n524791638\n189346275\n673825941\n215687394\n496253817\n738419526\n"
    );
}

#[test]
fn guessing_gives_nothing_without_a_solution() {
    let mut p = Puzzle::parse(NO_SOLUTION);
    p.solve();
    assert_eq!(p.status(), PuzzleStatus::Unsolved);
    assert!(solve_with_guesses(p).is_none());
}

#[test]
fn parse_skips_blank_lines_and_reads_only_digits() {
    let p = Puzzle::parse("\n\n  12\r\n\n0.3\n4\n\n5\n6\n7\n8\n9\n1\n2\n");
    assert_eq!(
        values(&p),
        "12.......\n..3......\n4........\n5........\n6........\n7........\n8........\n9........\n1........\n"
    );
    assert!(p.cell(0, 0).given());
    assert!(!p.cell(0, 2).given());
}

#[test]
fn cell_candidates_are_kept_sorted() {
    let mut c = Cell::with_candidates(vec![8, 3, 5]);
    assert_eq!(c.candidates_as_vec(), vec![3, 5, 8]);
    assert!(c.remove_candidate(5));
    assert!(!c.remove_candidate(5));
    assert_eq!(c.candidates_as_vec(), vec![3, 8]);
    c.set_candidates(vec![9, 1]);
    assert_eq!(c.candidates_as_vec(), vec![1, 9]);
    assert_eq!(Cell::with_number(4).number(), Some(4));
    assert!(Cell::with_number(4).candidates_as_vec().is_empty());
}

#[test]
fn counts_and_updates_within_groups() {
    let mut p = Puzzle::parse(SAMPLE);
    p.assign_candidates();
    // Row 0 candidates: (0,0) {1,3,8}, (0,2) {1,3,8}, (0,4) .., count of 8 in row 0.
    let row_count = p.count_candidates_in_row(0, 8);
    let by_hand = (0..9)
        .filter(|&c| p.cell(0, c).number().is_none() && p.cell(0, c).candidates_as_vec().contains(&8))
        .count();
    assert_eq!(row_count, by_hand);
    assert_eq!(p.count_candidates_in_block_for(0, 5), 3);
    assert_eq!(p.count_candidates_in_col(2, 5), {
        (0..9)
            .filter(|&r| p.cell(r, 2).number().is_none() && p.cell(r, 2).candidates_as_vec().contains(&5))
            .count()
    });
    assert!(p.update_block_candidates(0, 1, 2, [5, 0, 0, 0, 0, 0, 0, 0, 0]));
    assert!(!p.update_block_candidates(0, 1, 2, [5, 0, 0, 0, 0, 0, 0, 0, 0]));
    assert_eq!(p.cell(1, 2).candidates_as_vec(), vec![5]);
    p.update_block(4, 1, 1, 9);
    assert_eq!(p.cell(4, 4).number(), Some(9));
    assert!(p.cell(4, 4).candidates_as_vec().is_empty());
    p.set_number(8, 8, 2);
    assert_eq!(p.block(8)[2][2].number(), Some(2));
    assert_eq!(p.block_as_slice(8)[8].number(), Some(2));
    assert_eq!(p.row(8)[8].number(), Some(2));
    assert_eq!(p.column(8)[8].number(), Some(2));
}

#[test]
fn pinned_sets_leave_their_own_cells() {
    let r = reduce_candidates_by_uniqueness(vec![
        vec![1, 2],
        vec![1, 2],
        vec![1, 2, 3],
        vec![1, 2, 3, 4],
        vec![5],
        vec![5],
        vec![],
        vec![6, 7],
        vec![7, 6],
    ]);
    assert_eq!(r[0], vec![1, 2]);
    assert_eq!(r[1], vec![1, 2]);
    assert_eq!(r[2], vec![3]);
    assert_eq!(r[3], vec![3, 4]);
    assert_eq!(r[4], vec![5]);
    assert_eq!(r[5], vec![5]);
    assert!(r[6].is_empty());
    assert_eq!(r[7], vec![6, 7]);
    assert_eq!(r[8], vec![6, 7]);
}
