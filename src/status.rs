use vstd::prelude::*;
use crate::cell::CellModel;
use crate::grid::{Puzzle, group_cell};

verus! {

/// Why a grid admits no completion.
#[derive(Clone, Copy, Debug, PartialEq, Eq)]
pub enum IllDefinedReason {
    /// The cell at (row, column) has no value and no candidate left.
    NoPossibleSolution((usize, usize)),
    /// The value appears more than once in the row.
    NumberRepeatsInRow(u8, usize),
    /// The value appears more than once in the column.
    NumberRepeatsInColumn(u8, usize),
    /// The value appears more than once in the block.
    NumberRepeatsInBlock(u8, usize),
}

#[derive(Clone, Copy, Debug, PartialEq, Eq)]
pub enum PuzzleStatus {
    Solved,
    Unsolved,
    IllDefined(IllDefinedReason),
}

/// How many of the first `n` cells of group `gi` hold the value `d`.
pub open spec fn value_count_upto(g: Seq<Seq<CellModel>>, gi: int, d: u8, n: int) -> nat
    decreases n,
{
    if n <= 0 {
        0
    } else {
        value_count_upto(g, gi, d, n - 1) + if group_cell(g, gi, n - 1).value == Some(d) {
            1nat
        } else {
            0nat
        }
    }
}

/// How many cells of group `gi` hold the value `d`.
pub open spec fn value_count(g: Seq<Seq<CellModel>>, gi: int, d: u8) -> nat {
    value_count_upto(g, gi, d, 9)
}

/// In row-major order, the `t`-th cell has no value and no candidate.
pub open spec fn dead_cell_at(g: Seq<Seq<CellModel>>, t: int) -> bool {
    g[t / 9][t % 9].value is None && g[t / 9][t % 9].cands == Set::<u8>::empty()
}

/// Group `t / 9` holds the value `t % 9 + 1` more than once.
pub open spec fn repeat_at(g: Seq<Seq<CellModel>>, t: int) -> bool {
    value_count(g, t / 9, (t % 9 + 1) as u8) > 1
}

/// The first cell, in row-major order, with no value and no candidate.
pub open spec fn first_dead(g: Seq<Seq<CellModel>>) -> Option<int> {
    if exists|t: int| 0 <= t < 81 && #[trigger] dead_cell_at(g, t) {
        Some(
            choose|t: int|
                0 <= t < 81 && #[trigger] dead_cell_at(g, t) && forall|u: int|
                    0 <= u < t ==> !#[trigger] dead_cell_at(g, u),
        )
    } else {
        None
    }
}

/// The first group and value, in scan order, where a value repeats.
pub open spec fn first_repeat(g: Seq<Seq<CellModel>>) -> Option<int> {
    if exists|t: int| 0 <= t < 243 && #[trigger] repeat_at(g, t) {
        Some(
            choose|t: int|
                0 <= t < 243 && #[trigger] repeat_at(g, t) && forall|u: int|
                    0 <= u < t ==> !#[trigger] repeat_at(g, u),
        )
    } else {
        None
    }
}

proof fn lemma_first_dead(g: Seq<Seq<CellModel>>, t: int)
    requires
        0 <= t < 81,
        dead_cell_at(g, t),
        forall|u: int| 0 <= u < t ==> !#[trigger] dead_cell_at(g, u),
    ensures
        first_dead(g) == Some(t),
{
    let w = choose|w: int|
        0 <= w < 81 && #[trigger] dead_cell_at(g, w) && forall|u: int|
            0 <= u < w ==> !#[trigger] dead_cell_at(g, u);
    if w < t {
        assert(!dead_cell_at(g, w));
    } else if t < w {
        assert(!dead_cell_at(g, t));
    }
}

proof fn lemma_first_repeat(g: Seq<Seq<CellModel>>, t: int)
    requires
        0 <= t < 243,
        repeat_at(g, t),
        forall|u: int| 0 <= u < t ==> !#[trigger] repeat_at(g, u),
    ensures
        first_repeat(g) == Some(t),
{
    let w = choose|w: int|
        0 <= w < 243 && #[trigger] repeat_at(g, w) && forall|u: int|
            0 <= u < w ==> !#[trigger] repeat_at(g, u);
    if w < t {
        assert(!repeat_at(g, w));
    } else if t < w {
        assert(!repeat_at(g, t));
    }
}

/// Every cell has a value.
pub open spec fn all_assigned(g: Seq<Seq<CellModel>>) -> bool {
    forall|r: int, c: int| 0 <= r < 9 && 0 <= c < 9 ==> (#[trigger] g[r][c]).value is Some
}

/// The status of a grid: first a cell with nothing left (row-major), then a
/// repeated value in rows, columns and blocks in turn (each group's values
/// in ascending order), then whether every cell has a value.
pub open spec fn status_of(g: Seq<Seq<CellModel>>) -> PuzzleStatus {
    match first_dead(g) {
        Some(t) => PuzzleStatus::IllDefined(
            IllDefinedReason::NoPossibleSolution(((t / 9) as usize, (t % 9) as usize)),
        ),
        None => match first_repeat(g) {
            Some(t) => {
                let gi = t / 9;
                let d = (t % 9 + 1) as u8;
                if gi < 9 {
                    PuzzleStatus::IllDefined(IllDefinedReason::NumberRepeatsInRow(d, gi as usize))
                } else if gi < 18 {
                    PuzzleStatus::IllDefined(
                        IllDefinedReason::NumberRepeatsInColumn(d, (gi - 9) as usize),
                    )
                } else {
                    PuzzleStatus::IllDefined(
                        IllDefinedReason::NumberRepeatsInBlock(d, (gi - 18) as usize),
                    )
                }
            },
            None => if all_assigned(g) {
                PuzzleStatus::Solved
            } else {
                PuzzleStatus::Unsolved
            },
        },
    }
}

pub proof fn lemma_value_count_bound(g: Seq<Seq<CellModel>>, gi: int, d: u8, n: int)
    requires
        0 <= n,
    ensures
        value_count_upto(g, gi, d, n) <= n,
    decreases n,
{
    if n > 0 {
        lemma_value_count_bound(g, gi, d, n - 1);
    }
}

proof fn lemma_least_repeat(g: Seq<Seq<CellModel>>, t0: int)
    requires
        0 <= t0 < 243,
        repeat_at(g, t0),
    ensures
        first_repeat(g) matches Some(t) && t <= t0,
    decreases t0,
{
    if exists|u: int| 0 <= u < t0 && #[trigger] repeat_at(g, u) {
        let u = choose|u: int| 0 <= u < t0 && #[trigger] repeat_at(g, u);
        lemma_least_repeat(g, u);
    } else {
        lemma_first_repeat(g, t0);
    }
}

/// A grid where every cell has a value and no group repeats a value is solved.
pub proof fn lemma_full_consistent_grid_is_solved(g: Seq<Seq<CellModel>>)
    requires
        all_assigned(g),
        forall|gi: int, d: u8| 0 <= gi < 27 && 1 <= d <= 9 ==> #[trigger] value_count(g, gi, d) <= 1,
    ensures
        status_of(g) == PuzzleStatus::Solved,
{
    assert forall|t: int| 0 <= t < 81 implies !#[trigger] dead_cell_at(g, t) by {
        assert(g[t / 9][t % 9].value is Some);
    }
    assert forall|t: int| 0 <= t < 243 implies !#[trigger] repeat_at(g, t) by {
        assert(value_count(g, t / 9, (t % 9 + 1) as u8) <= 1);
    }
}

/// When no open cell has run out of candidates and some row repeats a
/// value, the status reports a repeat in a row, whatever repeats in
/// columns or blocks.
pub proof fn lemma_row_repeat_comes_first(g: Seq<Seq<CellModel>>, r: int, d: u8)
    requires
        forall|t: int| 0 <= t < 81 ==> !#[trigger] dead_cell_at(g, t),
        0 <= r < 9,
        1 <= d <= 9,
        value_count(g, r, d) > 1,
    ensures
        status_of(g) matches PuzzleStatus::IllDefined(IllDefinedReason::NumberRepeatsInRow(_, _)),
{
    let t0 = r * 9 + (d - 1);
    assert(t0 / 9 == r && t0 % 9 + 1 == d);
    assert(repeat_at(g, t0));
    lemma_least_repeat(g, t0);
}

impl Puzzle {
    /// How many cells of group `gi` hold `needle`.
    fn count_values_in_group(&self, gi: usize, needle: u8) -> (r: usize)
        requires
            gi < 27,
        ensures
            r == value_count(self@, gi as int, needle),
    {
        let cells = self.group(gi);
        let mut count: usize = 0;
        let mut k: usize = 0;
        while k < 9
            invariant
                k <= 9,
                forall|j: int| 0 <= j < 9 ==> #[trigger] cells@[j]@ == group_cell(self@, gi as int, j),
                count == value_count_upto(self@, gi as int, needle, k as int),
            decreases 9 - k,
        {
            proof {
                lemma_value_count_bound(self@, gi as int, needle, k as int);
            }
            assert(cells@[k as int]@ == group_cell(self@, gi as int, k as int));
            match cells[k].number() {
                Some(number) => {
                    if number == needle {
                        count += 1;
                    }
                },
                None => {},
            }
            k += 1;
        }
        count
    }

    /// Classifies the grid as solved, unsolved, or ill-defined with the first
    /// reason found.
    pub fn status(&self) -> (r: PuzzleStatus)
        ensures
            r == status_of(self@),
    {
        let ghost g = self@;
        // A cell with nothing left.
        let mut t: usize = 0;
        while t < 81
            invariant
                t <= 81,
                g == self@,
                forall|u: int| 0 <= u < t ==> !#[trigger] dead_cell_at(g, u),
            decreases 81 - t,
        {
            let row = t / 9;
            let col = t % 9;
            let cell = self.cell(row, col);
            if cell.number().is_none() && cell.has_no_candidates() {
                proof {
                    lemma_first_dead(g, t as int);
                }
                return PuzzleStatus::IllDefined(IllDefinedReason::NoPossibleSolution((row, col)));
            }
            t += 1;
        }
        // A value repeated in a row, then a column, then a block.
        let mut t: usize = 0;
        while t < 243
            invariant
                t <= 243,
                g == self@,
                first_dead(g) is None,
                forall|u: int| 0 <= u < t ==> !#[trigger] repeat_at(g, u),
            decreases 243 - t,
        {
            let gi = t / 9;
            let needle = (t % 9 + 1) as u8;
            if self.count_values_in_group(gi, needle) > 1 {
                proof {
                    lemma_first_repeat(g, t as int);
                }
                if gi < 9 {
                    return PuzzleStatus::IllDefined(IllDefinedReason::NumberRepeatsInRow(needle, gi));
                } else if gi < 18 {
                    return PuzzleStatus::IllDefined(
                        IllDefinedReason::NumberRepeatsInColumn(needle, gi - 9),
                    );
                } else {
                    return PuzzleStatus::IllDefined(
                        IllDefinedReason::NumberRepeatsInBlock(needle, gi - 18),
                    );
                }
            }
            t += 1;
        }
        // Solved once every cell has a value.
        let mut t: usize = 0;
        while t < 81
            invariant
                t <= 81,
                g == self@,
                first_dead(g) is None,
                first_repeat(g) is None,
                forall|u: int| 0 <= u < t ==> (#[trigger] g[u / 9][u % 9]).value is Some,
            decreases 81 - t,
        {
            if self.cell(t / 9, t % 9).number().is_none() {
                assert(!all_assigned(g)) by {
                    assert(g[(t / 9) as int][(t % 9) as int].value is None);
                }
                return PuzzleStatus::Unsolved;
            }
            t += 1;
        }
        assert(all_assigned(g)) by {
            assert forall|r: int, c: int| 0 <= r < 9 && 0 <= c < 9 implies (#[trigger] g[r][c]).value is Some by {
                let u = r * 9 + c;
                assert(u / 9 == r && u % 9 == c);
                assert(g[u / 9][u % 9].value is Some);
            }
        }
        PuzzleStatus::Solved
    }
}

} // verus!
