use vstd::prelude::*;
use crate::cell::{CellModel, ascending, lemma_ascending_upto};
use crate::grid::{
    Puzzle, block_of, block_row, block_col, group_cell, group_col, group_pos, group_row,
    index_in_group, in_group, is_grid, lemma_group_geometry, open_count, set_cell, wf,
    block_num_for_row_col,
};

verus! {

/// A value given to a cell, with where it went.
#[derive(Clone, Copy, Debug, PartialEq, Eq, Structural)]
pub struct CellAssignment {
    pub number: u8,
    pub block: usize,
    pub row: usize,
    pub col: usize,
}

/// The rule that forced an assignment. For the first two, `row` and `col`
/// count within the block; for the last two they count within the grid.
#[derive(Clone, Copy, Debug, PartialEq, Eq, Structural)]
pub enum Consolidation {
    SingleCandidateForCell(CellAssignment),
    OnlyOnePossibleCandidateForBlock(CellAssignment),
    OnlyOnePossibleCandidateForRow(CellAssignment),
    OnlyOnePossibleCandidateForColumn(CellAssignment),
}

/// The cell lists exactly one candidate.
pub open spec fn is_single(m: CellModel) -> bool {
    ascending(m.cands).len() == 1
}

/// The cell with `d` as its value and no candidates.
pub open spec fn filled(m: CellModel, d: u8) -> CellModel {
    CellModel { value: Some(d), cands: Set::empty(), ..m }
}

/// Every cell with exactly one candidate takes it as its value.
pub open spec fn fill_singles(g: Seq<Seq<CellModel>>) -> Seq<Seq<CellModel>> {
    Seq::new(
        9,
        |r: int|
            Seq::new(
                9,
                |c: int|
                    if is_single(g[r][c]) {
                        filled(g[r][c], ascending(g[r][c].cands)[0])
                    } else {
                        g[r][c]
                    },
            ),
    )
}

/// Records of the cells with one candidate among the first `n` cells, in
/// block order (blocks in turn, each left to right, top to bottom).
pub open spec fn single_records_upto(g: Seq<Seq<CellModel>>, n: int) -> Seq<Consolidation>
    decreases n,
{
    if n <= 0 {
        Seq::empty()
    } else {
        let prev = single_records_upto(g, n - 1);
        let t = n - 1;
        let m = group_cell(g, 18 + t / 9, t % 9);
        if is_single(m) {
            prev.push(
                Consolidation::SingleCandidateForCell(
                    CellAssignment {
                        number: ascending(m.cands)[0],
                        block: (t / 9) as usize,
                        row: (t % 9 / 3) as usize,
                        col: (t % 9 % 3) as usize,
                    },
                ),
            )
        } else {
            prev
        }
    }
}

/// Groups `base..base + 9` (blocks for 18, rows for 0, columns for 9) scanned
/// group by group, cell by cell, digit by digit: the `t`-th step finds a
/// digit that the cell lists and that no other open cell of the group lists.
#[verifier::opaque]
pub open spec fn hidden_at(g: Seq<Seq<CellModel>>, base: int, t: int) -> bool {
    let gi = base + t / 81;
    let d = (t % 9 + 1) as u8;
    group_cell(g, gi, t / 9 % 9).cands.contains(d) && open_count(g, gi, d) == 1
}

/// The first step of that scan that finds one.
pub open spec fn first_hidden(g: Seq<Seq<CellModel>>, base: int) -> Option<int> {
    if exists|t: int| 0 <= t < 729 && #[trigger] hidden_at(g, base, t) {
        Some(
            choose|t: int|
                0 <= t < 729 && #[trigger] hidden_at(g, base, t) && forall|u: int|
                    0 <= u < t ==> !#[trigger] hidden_at(g, base, u),
        )
    } else {
        None
    }
}

proof fn lemma_first_hidden(g: Seq<Seq<CellModel>>, base: int, t: int)
    requires
        0 <= t < 729,
        hidden_at(g, base, t),
        forall|u: int| 0 <= u < t ==> !#[trigger] hidden_at(g, base, u),
    ensures
        first_hidden(g, base) == Some(t),
{
    let w = choose|w: int|
        0 <= w < 729 && #[trigger] hidden_at(g, base, w) && forall|u: int|
            0 <= u < w ==> !#[trigger] hidden_at(g, base, u);
    if w < t {
        assert(!hidden_at(g, base, w));
    } else if t < w {
        assert(!hidden_at(g, base, t));
    }
}

/// The record of the assignment found at step `t` of the scan of `base`.
pub open spec fn hidden_record(base: int, t: int) -> Consolidation {
    let i = t / 81;
    let k = t / 9 % 9;
    let d = (t % 9 + 1) as u8;
    if base == 18 {
        Consolidation::OnlyOnePossibleCandidateForBlock(
            CellAssignment { number: d, block: i as usize, row: (k / 3) as usize, col: (k % 3) as usize },
        )
    } else if base == 0 {
        Consolidation::OnlyOnePossibleCandidateForRow(
            CellAssignment { number: d, block: block_of(i, k) as usize, row: i as usize, col: k as usize },
        )
    } else {
        Consolidation::OnlyOnePossibleCandidateForColumn(
            CellAssignment { number: d, block: block_of(k, i) as usize, row: k as usize, col: i as usize },
        )
    }
}

/// The grid after the assignment found at step `t` of the scan of `base`.
pub open spec fn hidden_fill(g: Seq<Seq<CellModel>>, base: int, t: int) -> Seq<Seq<CellModel>> {
    let gi = base + t / 81;
    let k = t / 9 % 9;
    let (r, c) = (group_row(gi, k), group_col(gi, k));
    set_cell(g, r, c, filled(g[r][c], (t % 9 + 1) as u8))
}

/// One consolidation: every single candidate at once if there is any; else
/// the first hidden single of the blocks, else of the rows, else of the
/// columns; else nothing.
pub open spec fn consolidated(g: Seq<Seq<CellModel>>) -> (Seq<Seq<CellModel>>, Seq<Consolidation>) {
    let singles = single_records_upto(g, 81);
    if singles.len() > 0 {
        (fill_singles(g), singles)
    } else {
        match first_hidden(g, 18) {
            Some(t) => (hidden_fill(g, 18, t), seq![hidden_record(18, t)]),
            None => match first_hidden(g, 0) {
                Some(t) => (hidden_fill(g, 0, t), seq![hidden_record(0, t)]),
                None => match first_hidden(g, 9) {
                    Some(t) => (hidden_fill(g, 9, t), seq![hidden_record(9, t)]),
                    None => (g, Seq::empty()),
                },
            },
        }
    }
}

/// Place of row `r`, column `c` in block order.
pub open spec fn block_order(r: int, c: int) -> int {
    block_of(r, c) * 9 + (r % 3) * 3 + c % 3
}

proof fn lemma_block_order(t: int)
    requires
        0 <= t < 81,
    ensures
        block_order(group_row(18 + t / 9, t % 9), group_col(18 + t / 9, t % 9)) == t,
        group_row(18 + t / 9, t % 9) == block_row(t / 9, t % 9),
        group_col(18 + t / 9, t % 9) == block_col(t / 9, t % 9),
{
    lemma_group_geometry();
    let gi = 18 + t / 9;
    let k = t % 9;
    assert(in_group(gi, group_row(gi, k), group_col(gi, k)));
    assert(index_in_group(gi, group_row(gi, k), group_col(gi, k)) == k);
}

proof fn lemma_block_order_inverse(r: int, c: int)
    requires
        0 <= r < 9,
        0 <= c < 9,
    ensures
        0 <= block_order(r, c) < 81,
        group_row(18 + block_order(r, c) / 9, block_order(r, c) % 9) == r,
        group_col(18 + block_order(r, c) / 9, block_order(r, c) % 9) == c,
{
    lemma_group_geometry();
    let gi = 18 + block_of(r, c);
    assert(in_group(gi, r, c));
    let k = index_in_group(gi, r, c);
    assert(0 <= k < 9);
    assert(block_order(r, c) == block_of(r, c) * 9 + k);
    assert(block_order(r, c) / 9 == block_of(r, c));
    assert(block_order(r, c) % 9 == k);
}

impl Puzzle {
    /// The first step of the scan of groups `base..base + 9` that finds a
    /// hidden single.
    fn find_hidden(&self, base: usize) -> (r: Option<usize>)
        requires
            base == 0 || base == 9 || base == 18,
        ensures
            r matches Some(t) ==> first_hidden(self@, base as int) == Some(t as int) && t < 729,
            r is None ==> first_hidden(self@, base as int) is None,
    {
        proof {
            lemma_group_geometry();
        }
        let mut t: usize = 0;
        while t < 729
            invariant
                t <= 729,
                base == 0 || base == 9 || base == 18,
                forall|u: int| 0 <= u < t ==> !#[trigger] hidden_at(self@, base as int, u),
            decreases 729 - t,
        {
            let gi = base + t / 81;
            let k = t / 9 % 9;
            let d = (t % 9 + 1) as u8;
            let (row, col) = group_pos(gi, k);
            let hit = self.cell(row, col).has_candidate(d) && self.count_open_in_group(gi, d) == 1;
            assert(hit == hidden_at(self@, base as int, t as int)) by {
                reveal(hidden_at);
            }
            if hit {
                proof {
                    lemma_first_hidden(self@, base as int, t as int);
                }
                return Some(t);
            }
            t += 1;
        }
        None
    }

    /// Gives the cell found at step `t` of the scan of `base` its digit and
    /// returns the record.
    fn apply_hidden(&mut self, base: usize, t: usize) -> (rec: Consolidation)
        requires
            base == 0 || base == 9 || base == 18,
            t < 729,
        ensures
            final(self)@ == hidden_fill(old(self)@, base as int, t as int),
            rec == hidden_record(base as int, t as int),
    {
        proof {
            lemma_group_geometry();
        }
        let i = t / 81;
        let k = t / 9 % 9;
        let d = (t % 9 + 1) as u8;
        let (row, col) = group_pos(base + i, k);
        if base == 18 {
            self.update_block(i, k / 3, k % 3, d);
            assert(block_row(i as int, k as int) == (i / 3) * 3 + k / 3);
            Consolidation::OnlyOnePossibleCandidateForBlock(
                CellAssignment { number: d, row: k / 3, col: k % 3, block: i },
            )
        } else if base == 0 {
            self.set_number(row, col, d);
            Consolidation::OnlyOnePossibleCandidateForRow(
                CellAssignment { number: d, row, col, block: block_num_for_row_col(row, col) },
            )
        } else {
            self.set_number(row, col, d);
            Consolidation::OnlyOnePossibleCandidateForColumn(
                CellAssignment { number: d, row, col, block: block_num_for_row_col(row, col) },
            )
        }
    }

    /// Turns candidates into values where they are forced. Every cell with a
    /// single candidate takes it at once; failing that, the first hidden
    /// single of the blocks, then of the rows, then of the columns, is
    /// assigned alone. Returns the assignments made, none when stalled.
    #[verifier::rlimit(60)]
    pub fn consolidate_candidates(&mut self) -> (r: Vec<Consolidation>)
        ensures
            (final(self)@, r@) == consolidated(old(self)@),
    {
        let ghost g0 = self@;
        let mut progress: Vec<Consolidation> = Vec::new();
        let mut t: usize = 0;
        while t < 81
            invariant
                t <= 81,
                g0 == old(self)@,
                is_grid(self@),
                progress@ == single_records_upto(g0, t as int),
                progress@.len() == 0 ==> self@ == g0,
                forall|r: int, c: int|
                    0 <= r < 9 && 0 <= c < 9 ==> #[trigger] self@[r][c] == if block_order(r, c) < t
                        && is_single(g0[r][c]) {
                        filled(g0[r][c], ascending(g0[r][c].cands)[0])
                    } else {
                        g0[r][c]
                    },
            decreases 81 - t,
        {
            let b = t / 9;
            let k = t % 9;
            let (row, col) = group_pos(18 + b, k);
            proof {
                lemma_block_order(t as int);
            }
            let cell = self.cell(row, col);
            assert(cell@ == g0[row as int][col as int]);
            let candidates = cell.candidates_as_vec();
            if candidates.len() == 1 {
                self.update_block(b, k / 3, k % 3, candidates[0]);
                progress.push(
                    Consolidation::SingleCandidateForCell(
                        CellAssignment { block: b, row: k / 3, col: k % 3, number: candidates[0] },
                    ),
                );
            }
            assert forall|r: int, c: int|
                0 <= r < 9 && 0 <= c < 9 implies #[trigger] self@[r][c] == if block_order(r, c) < t + 1
                    && is_single(g0[r][c]) {
                    filled(g0[r][c], ascending(g0[r][c].cands)[0])
                } else {
                    g0[r][c]
                } by {
                if block_order(r, c) == t {
                    lemma_block_order_inverse(r, c);
                }
            }
            t += 1;
        }
        if progress.len() > 0 {
            assert(self@ =~~= fill_singles(g0));
            return progress;
        }
        let bases: [usize; 3] = [18, 0, 9];
        let mut i: usize = 0;
        while i < 3
            invariant
                i <= 3,
                self@ == g0,
                g0 == old(self)@,
                progress@.len() == 0,
                single_records_upto(g0, 81).len() == 0,
                bases@ == seq![18usize, 0usize, 9usize],
                forall|j: int| 0 <= j < i ==> first_hidden(g0, #[trigger] bases@[j] as int) is None,
            decreases 3 - i,
        {
            match self.find_hidden(bases[i]) {
                Some(t) => {
                    let rec = self.apply_hidden(bases[i], t);
                    let mut r: Vec<Consolidation> = Vec::new();
                    r.push(rec);
                    assert(r@ =~= seq![hidden_record(bases@[i as int] as int, t as int)]);
                    if i >= 1 {
                        assert(first_hidden(g0, bases@[0] as int) is None);
                    }
                    if i >= 2 {
                        assert(first_hidden(g0, bases@[1] as int) is None);
                    }
                    return r;
                },
                None => {},
            }
            i += 1;
        }
        assert(first_hidden(g0, bases@[0] as int) is None);
        assert(first_hidden(g0, bases@[1] as int) is None);
        assert(first_hidden(g0, bases@[2] as int) is None);
        progress
    }
}

/// `g2` keeps every value of `g1`.
pub open spec fn keeps_values(g1: Seq<Seq<CellModel>>, g2: Seq<Seq<CellModel>>) -> bool {
    &&& is_grid(g1)
    &&& is_grid(g2)
    &&& forall|r: int, c: int|
        0 <= r < 9 && 0 <= c < 9 && (#[trigger] g1[r][c]).value is Some ==> g2[r][c].value
            == g1[r][c].value
}

/// Some cell without a value in `g1` has one in `g2`.
pub open spec fn fills_some(g1: Seq<Seq<CellModel>>, g2: Seq<Seq<CellModel>>) -> bool {
    exists|r: int, c: int|
        0 <= r < 9 && 0 <= c < 9 && (#[trigger] g1[r][c]).value is None && g2[r][c].value is Some
}

proof fn lemma_single_records(g: Seq<Seq<CellModel>>, n: int)
    requires
        0 <= n,
    ensures
        single_records_upto(g, n).len() > 0 ==> exists|t: int|
            0 <= t < n && is_single(#[trigger] group_cell(g, 18 + t / 9, t % 9)),
    decreases n,
{
    if n > 0 {
        lemma_single_records(g, n - 1);
        if single_records_upto(g, n - 1).len() > 0 {
            let t = choose|t: int| 0 <= t < n - 1 && is_single(#[trigger] group_cell(g, 18 + t / 9, t % 9));
            assert(0 <= t < n);
        }
    }
}

proof fn lemma_open_has_no_value(g: Seq<Seq<CellModel>>, r: int, c: int, d: u8)
    requires
        wf(g),
        0 <= r < 9,
        0 <= c < 9,
        g[r][c].cands.contains(d),
    ensures
        g[r][c].value is None,
{
    if g[r][c].value is Some {
        assert(g[r][c].cands =~= Set::<u8>::empty());
    }
}

proof fn lemma_fill_singles(g: Seq<Seq<CellModel>>)
    requires
        wf(g),
    ensures
        wf(fill_singles(g)),
        keeps_values(g, fill_singles(g)),
        single_records_upto(g, 81).len() > 0 ==> fills_some(g, fill_singles(g)),
{
    let g2 = fill_singles(g);
    assert forall|r: int, c: int| 0 <= r < 9 && 0 <= c < 9 && is_single(#[trigger] g[r][c]) implies g[r][c].value is None by {
        lemma_ascending_upto(g[r][c].cands, 9);
        let x = ascending(g[r][c].cands)[0];
        assert(ascending(g[r][c].cands).contains(x));
        lemma_open_has_no_value(g, r, c, x);
    }
    if single_records_upto(g, 81).len() > 0 {
        lemma_group_geometry();
        lemma_single_records(g, 81);
        let t = choose|t: int| 0 <= t < 81 && is_single(#[trigger] group_cell(g, 18 + t / 9, t % 9));
        let r = group_row(18 + t / 9, t % 9);
        let c = group_col(18 + t / 9, t % 9);
        assert(g[r][c].value is None && g2[r][c].value is Some);
    }
}

proof fn lemma_least_hidden(g: Seq<Seq<CellModel>>, base: int, t0: int)
    requires
        0 <= t0 < 729,
        hidden_at(g, base, t0),
    ensures
        exists|t: int|
            0 <= t < 729 && #[trigger] hidden_at(g, base, t) && forall|u: int|
                0 <= u < t ==> !#[trigger] hidden_at(g, base, u),
    decreases t0,
{
    if exists|u: int| 0 <= u < t0 && #[trigger] hidden_at(g, base, u) {
        let u = choose|u: int| 0 <= u < t0 && #[trigger] hidden_at(g, base, u);
        lemma_least_hidden(g, base, u);
    } else {
        assert(forall|u: int| 0 <= u < t0 ==> !#[trigger] hidden_at(g, base, u));
    }
}

proof fn lemma_first_hidden_some(g: Seq<Seq<CellModel>>, base: int)
    ensures
        first_hidden(g, base) matches Some(t) ==> 0 <= t < 729 && hidden_at(g, base, t),
{
    if exists|t: int| 0 <= t < 729 && #[trigger] hidden_at(g, base, t) {
        let t0 = choose|t: int| 0 <= t < 729 && #[trigger] hidden_at(g, base, t);
        lemma_least_hidden(g, base, t0);
    }
}

proof fn lemma_hidden_fill(g: Seq<Seq<CellModel>>, base: int, t: int)
    requires
        wf(g),
        0 <= t < 729,
        hidden_at(g, base, t),
        base == 0 || base == 9 || base == 18,
    ensures
        wf(hidden_fill(g, base, t)),
        keeps_values(g, hidden_fill(g, base, t)),
        fills_some(g, hidden_fill(g, base, t)),
{
    crate::grid::lemma_group_point(base + t / 81, t / 9 % 9);
    reveal(hidden_at);
    let g2 = hidden_fill(g, base, t);
    let gi = base + t / 81;
    let k = t / 9 % 9;
    let r = group_row(gi, k);
    let c = group_col(gi, k);
    lemma_open_has_no_value(g, r, c, (t % 9 + 1) as u8);
    assert(g[r][c].value is None && g2[r][c].value is Some);
}

/// A consolidation keeps the invariant and every value, and when it
/// reports an assignment it gives a value to a cell that had none.
pub proof fn lemma_consolidated(g: Seq<Seq<CellModel>>)
    requires
        wf(g),
    ensures
        wf(consolidated(g).0),
        keeps_values(g, consolidated(g).0),
        consolidated(g).1.len() > 0 ==> fills_some(g, consolidated(g).0),
{
    if single_records_upto(g, 81).len() > 0 {
        lemma_fill_singles(g);
    } else if let Some(t) = first_hidden(g, 18) {
        lemma_first_hidden_some(g, 18);
        lemma_hidden_fill(g, 18, t);
    } else if let Some(t) = first_hidden(g, 0) {
        lemma_first_hidden_some(g, 0);
        lemma_hidden_fill(g, 0, t);
    } else if let Some(t) = first_hidden(g, 9) {
        lemma_first_hidden_some(g, 9);
        lemma_hidden_fill(g, 9, t);
    } else {
        assert(consolidated(g).0 == g);
    }
}

} // verus!
