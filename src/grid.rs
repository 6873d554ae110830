use vstd::prelude::*;
use std::collections::HashSet;
use crate::cell::{Cell, CellModel};

verus! {

broadcast use vstd::std_specs::hash::group_hash_axioms;

/// The block that holds row `r`, column `c`.
pub open spec fn block_of(r: int, c: int) -> int {
    (r / 3) * 3 + c / 3
}

/// Row of the `k`-th cell of block `b` (cells of a block run left to right, top to bottom).
pub open spec fn block_row(b: int, k: int) -> int {
    (b / 3) * 3 + k / 3
}

/// Column of the `k`-th cell of block `b`.
pub open spec fn block_col(b: int, k: int) -> int {
    (b % 3) * 3 + k % 3
}

/// The 27 peer groups: rows 0..8, then columns 0..8, then blocks 0..8.
/// Row of the `k`-th cell of group `gi`.
pub open spec fn group_row(gi: int, k: int) -> int {
    if gi < 9 {
        gi
    } else if gi < 18 {
        k
    } else {
        block_row(gi - 18, k)
    }
}

/// Column of the `k`-th cell of group `gi`.
pub open spec fn group_col(gi: int, k: int) -> int {
    if gi < 9 {
        k
    } else if gi < 18 {
        gi - 9
    } else {
        block_col(gi - 18, k)
    }
}

/// Whether row `r`, column `c` lies in group `gi`.
pub open spec fn in_group(gi: int, r: int, c: int) -> bool {
    if gi < 9 {
        r == gi
    } else if gi < 18 {
        c == gi - 9
    } else {
        block_of(r, c) == gi - 18
    }
}

/// The place of row `r`, column `c` within group `gi`.
pub open spec fn index_in_group(gi: int, r: int, c: int) -> int {
    if gi < 9 {
        c
    } else if gi < 18 {
        r
    } else {
        (r % 3) * 3 + c % 3
    }
}

proof fn lemma_block_point(b: int, k: int)
    requires
        0 <= b < 9,
        0 <= k < 9,
    ensures
        0 <= block_row(b, k) < 9,
        0 <= block_col(b, k) < 9,
        block_of(block_row(b, k), block_col(b, k)) == b,
        (block_row(b, k) % 3) * 3 + block_col(b, k) % 3 == k,
{
    assert(b / 3 == 0 || b / 3 == 1 || b / 3 == 2);
    assert(k / 3 == 0 || k / 3 == 1 || k / 3 == 2);
    assert(b == (b / 3) * 3 + b % 3);
    assert(k == (k / 3) * 3 + k % 3);
    assert(block_row(b, k) / 3 == b / 3);
    assert(block_row(b, k) % 3 == k / 3);
    assert(block_col(b, k) / 3 == b % 3);
    assert(block_col(b, k) % 3 == k % 3);
}

proof fn lemma_block_inverse(r: int, c: int)
    requires
        0 <= r < 9,
        0 <= c < 9,
    ensures
        0 <= block_of(r, c) < 9,
        0 <= (r % 3) * 3 + c % 3 < 9,
        block_row(block_of(r, c), (r % 3) * 3 + c % 3) == r,
        block_col(block_of(r, c), (r % 3) * 3 + c % 3) == c,
{
    let b = block_of(r, c);
    let k = (r % 3) * 3 + c % 3;
    assert(r == (r / 3) * 3 + r % 3);
    assert(c == (c / 3) * 3 + c % 3);
    assert(b / 3 == r / 3);
    assert(b % 3 == c / 3);
    assert(k / 3 == r % 3);
    assert(k % 3 == c % 3);
}

pub proof fn lemma_group_geometry()
    ensures
        forall|gi: int, k: int|
            0 <= gi < 27 && 0 <= k < 9 ==> {
                &&& 0 <= #[trigger] group_row(gi, k) < 9
                &&& 0 <= #[trigger] group_col(gi, k) < 9
                &&& in_group(gi, group_row(gi, k), group_col(gi, k))
                &&& index_in_group(gi, group_row(gi, k), group_col(gi, k)) == k
            },
        forall|gi: int, r: int, c: int|
            0 <= gi < 27 && 0 <= r < 9 && 0 <= c < 9 && #[trigger] in_group(gi, r, c) ==> {
                &&& 0 <= index_in_group(gi, r, c) < 9
                &&& group_row(gi, index_in_group(gi, r, c)) == r
                &&& group_col(gi, index_in_group(gi, r, c)) == c
            },
{
    assert forall|gi: int, k: int| 0 <= gi < 27 && 0 <= k < 9 implies {
        &&& 0 <= #[trigger] group_row(gi, k) < 9
        &&& 0 <= #[trigger] group_col(gi, k) < 9
        &&& in_group(gi, group_row(gi, k), group_col(gi, k))
        &&& index_in_group(gi, group_row(gi, k), group_col(gi, k)) == k
    } by {
        if gi >= 18 {
            lemma_block_point(gi - 18, k);
        }
    }
    assert forall|gi: int, r: int, c: int|
        0 <= gi < 27 && 0 <= r < 9 && 0 <= c < 9 && #[trigger] in_group(gi, r, c) implies {
        &&& 0 <= index_in_group(gi, r, c) < 9
        &&& group_row(gi, index_in_group(gi, r, c)) == r
        &&& group_col(gi, index_in_group(gi, r, c)) == c
    } by {
        if gi >= 18 {
            lemma_block_inverse(r, c);
        }
    }
}

pub proof fn lemma_group_point(gi: int, k: int)
    requires
        0 <= gi < 27,
        0 <= k < 9,
    ensures
        0 <= group_row(gi, k) < 9,
        0 <= group_col(gi, k) < 9,
{
    lemma_group_geometry();
}

/// A grid of 9 rows of 9 cells.
pub open spec fn is_grid(g: Seq<Seq<CellModel>>) -> bool {
    g.len() == 9 && forall|r: int| 0 <= r < 9 ==> (#[trigger] g[r]).len() == 9
}

/// The grid invariant: a cell with a value lists no candidates.
pub open spec fn wf(g: Seq<Seq<CellModel>>) -> bool {
    &&& is_grid(g)
    &&& forall|r: int, c: int|
        0 <= r < 9 && 0 <= c < 9 && (#[trigger] g[r][c]).value is Some ==> g[r][c].cands
            =~= Set::<u8>::empty()
}

/// The `k`-th cell of group `gi`.
pub open spec fn group_cell(g: Seq<Seq<CellModel>>, gi: int, k: int) -> CellModel {
    g[group_row(gi, k)][group_col(gi, k)]
}

/// The grid with the cell at row `r`, column `c` replaced.
pub open spec fn set_cell(g: Seq<Seq<CellModel>>, r: int, c: int, m: CellModel) -> Seq<Seq<CellModel>> {
    g.update(r, g[r].update(c, m))
}

/// The values assigned in group `gi`.
pub open spec fn group_values(g: Seq<Seq<CellModel>>, gi: int) -> Set<u8> {
    Set::new(|d: u8| exists|k: int| 0 <= k < 9 && #[trigger] group_cell(g, gi, k).value == Some(d))
}

/// How many of the first `n` cells of group `gi` have no value and list `d`.
pub open spec fn open_count_upto(g: Seq<Seq<CellModel>>, gi: int, d: u8, n: int) -> nat
    decreases n,
{
    if n <= 0 {
        0
    } else {
        open_count_upto(g, gi, d, n - 1) + if group_cell(g, gi, n - 1).value is None
            && group_cell(g, gi, n - 1).cands.contains(d) {
            1nat
        } else {
            0nat
        }
    }
}

/// How many cells of group `gi` have no value and list `d`.
pub open spec fn open_count(g: Seq<Seq<CellModel>>, gi: int, d: u8) -> nat {
    open_count_upto(g, gi, d, 9)
}

pub proof fn lemma_open_count_bound(g: Seq<Seq<CellModel>>, gi: int, d: u8, n: int)
    requires
        0 <= n,
    ensures
        open_count_upto(g, gi, d, n) <= n,
    decreases n,
{
    if n > 0 {
        lemma_open_count_bound(g, gi, d, n - 1);
    }
}

/// The block that holds row `row`, column `col`.
pub fn block_num_for_row_col(row: usize, col: usize) -> (r: usize)
    requires
        row < 9,
        col < 9,
    ensures
        r == block_of(row as int, col as int),
{
    (row / 3) * 3 + col / 3
}

/// Row and column of the top left cell of block `b`.
pub fn grid_origin_offset_for_block(b: usize) -> (r: (usize, usize))
    ensures
        r.0 == (b / 3) * 3,
        r.1 == (b % 3) * 3,
{
    let origin_row = (b / 3) * 3;
    let origin_col = (b % 3) * 3;
    (origin_row, origin_col)
}

/// Row and column of the `k`-th cell of group `gi`.
pub(crate) fn group_pos(gi: usize, k: usize) -> (r: (usize, usize))
    requires
        gi < 27,
        k < 9,
    ensures
        r.0 == group_row(gi as int, k as int),
        r.1 == group_col(gi as int, k as int),
        r.0 < 9,
        r.1 < 9,
{
    proof {
        lemma_group_geometry();
    }
    if gi < 9 {
        (gi, k)
    } else if gi < 18 {
        (k, gi - 9)
    } else {
        let b = gi - 18;
        ((b / 3) * 3 + k / 3, (b % 3) * 3 + k % 3)
    }
}

/// A 9x9 puzzle.
#[derive(Clone, Copy)]
pub struct Puzzle {
    pub(crate) grid: [[Cell; 9]; 9],
}

impl View for Puzzle {
    type V = Seq<Seq<CellModel>>;

    open(crate) spec fn view(&self) -> Seq<Seq<CellModel>> {
        Seq::new(9, |r: int| Seq::new(9, |c: int| self.grid@[r]@[c]@))
    }
}

impl Puzzle {
    /// A puzzle with every cell blank.
    pub fn blank() -> (r: Puzzle)
        ensures
            forall|row: int, col: int|
                0 <= row < 9 && 0 <= col < 9 ==> #[trigger] r@[row][col] == (CellModel {
                    value: None,
                    given: false,
                    cands: Set::empty(),
                }),
            wf(r@),
    {
        let c = Cell::blank();
        let line: [Cell; 9] = [c, c, c, c, c, c, c, c, c];
        Puzzle { grid: [line, line, line, line, line, line, line, line, line] }
    }

    /// The cell at row `row`, column `col`.
    pub fn cell(&self, row: usize, col: usize) -> (r: Cell)
        requires
            row < 9,
            col < 9,
        ensures
            r@ == self@[row as int][col as int],
    {
        self.grid[row][col]
    }

    /// Replaces the cell at row `row`, column `col`.
    pub(crate) fn put(&mut self, row: usize, col: usize, cell: Cell)
        requires
            row < 9,
            col < 9,
        ensures
            final(self)@ == set_cell(old(self)@, row as int, col as int, cell@),
    {
        let mut line = self.grid[row];
        line[col] = cell;
        self.grid[row] = line;
        assert(self@ =~~= set_cell(old(self)@, row as int, col as int, cell@));
    }

    /// The cells of row `r`.
    pub fn row(&self, r: usize) -> (res: [Cell; 9])
        requires
            r < 9,
        ensures
            forall|i: int| 0 <= i < 9 ==> #[trigger] res@[i]@ == self@[r as int][i],
    {
        self.grid[r]
    }

    /// The cells of column `c`.
    pub fn column(&self, c: usize) -> (res: [Cell; 9])
        requires
            c < 9,
        ensures
            forall|i: int| 0 <= i < 9 ==> #[trigger] res@[i]@ == self@[i][c as int],
    {
        let mut result: [Cell; 9] = self.grid[0];
        let mut i: usize = 0;
        while i < 9
            invariant
                i <= 9,
                c < 9,
                forall|j: int| 0 <= j < i ==> #[trigger] result@[j]@ == self@[j][c as int],
            decreases 9 - i,
        {
            result[i] = self.grid[i][c];
            i += 1;
        }
        result
    }

    /// The cells of group `gi`, in group order.
    pub(crate) fn group(&self, gi: usize) -> (res: [Cell; 9])
        requires
            gi < 27,
        ensures
            forall|k: int| 0 <= k < 9 ==> #[trigger] res@[k]@ == group_cell(self@, gi as int, k),
    {
        proof {
            lemma_group_geometry();
        }
        let mut result: [Cell; 9] = self.grid[0];
        let mut k: usize = 0;
        while k < 9
            invariant
                k <= 9,
                gi < 27,
                forall|j: int| 0 <= j < k ==> #[trigger] result@[j]@ == group_cell(self@, gi as int, j),
            decreases 9 - k,
        {
            let (r, c) = group_pos(gi, k);
            result[k] = self.grid[r][c];
            k += 1;
        }
        result
    }

    /// The cells of block `b` as three rows of three.
    pub fn block(&self, b: usize) -> (res: [[Cell; 3]; 3])
        requires
            b < 9,
        ensures
            forall|i: int, j: int|
                0 <= i < 3 && 0 <= j < 3 ==> #[trigger] res@[i]@[j]@ == self@[(b / 3) * 3 + i][(b
                    % 3) * 3 + j],
    {
        let (oy, ox) = grid_origin_offset_for_block(b);
        let g = &self.grid;
        [
            [g[oy][ox], g[oy][ox + 1], g[oy][ox + 2]],
            [g[oy + 1][ox], g[oy + 1][ox + 1], g[oy + 1][ox + 2]],
            [g[oy + 2][ox], g[oy + 2][ox + 1], g[oy + 2][ox + 2]],
        ]
    }

    /// The cells of block `b` in one line, left to right, top to bottom.
    pub fn block_as_slice(&self, b: usize) -> (res: [Cell; 9])
        requires
            b < 9,
        ensures
            forall|k: int|
                0 <= k < 9 ==> #[trigger] res@[k]@ == self@[block_row(b as int, k)][block_col(
                    b as int,
                    k,
                )],
    {
        self.group(b + 18)
    }

    /// Assigns `number` to the cell at row `row`, column `col` of block
    /// `block_num`, counted within the block, and clears its candidates.
    pub fn update_block(&mut self, block_num: usize, row: usize, col: usize, number: u8)
        requires
            block_num < 9,
            row < 3,
            col < 3,
        ensures
            final(self)@ == set_cell(
                old(self)@,
                (block_num / 3) * 3 + row,
                (block_num % 3) * 3 + col,
                CellModel {
                    value: Some(number),
                    cands: Set::empty(),
                    ..old(self)@[(block_num / 3) * 3 + row][(block_num % 3) * 3 + col]
                },
            ),
    {
        let origin_row = block_num / 3;
        let origin_col = block_num % 3;
        self.set_number(origin_row * 3 + row, origin_col * 3 + col, number);
    }

    /// Assigns `number` to the cell at row `row`, column `col` and clears its candidates.
    pub fn set_number(&mut self, row: usize, col: usize, number: u8)
        requires
            row < 9,
            col < 9,
        ensures
            final(self)@ == set_cell(
                old(self)@,
                row as int,
                col as int,
                CellModel { value: Some(number), cands: Set::empty(), ..old(self)@[row as int][col as int] },
            ),
    {
        let mut cell = self.grid[row][col];
        cell.assign(number);
        self.put(row, col, cell);
    }

    /// Sets the candidates of a cell of block `block_num`, counted within the
    /// block, to the digits among `candidates` (zeros fill the unused places);
    /// tells whether that changed them.
    pub fn update_block_candidates(
        &mut self,
        block_num: usize,
        row: usize,
        col: usize,
        candidates: [u8; 9],
    ) -> (r: bool)
        requires
            block_num < 9,
            row < 3,
            col < 3,
        ensures
            ({
                let (gr, gc) = ((block_num / 3) * 3 + row, (block_num % 3) * 3 + col);
                let before = old(self)@[gr][gc];
                let after = CellModel { cands: crate::cell::digit_set(candidates@), ..before };
                &&& final(self)@ == set_cell(old(self)@, gr, gc, after)
                &&& r == (after.cands != before.cands)
            }),
    {
        let gr = (block_num / 3) * 3 + row;
        let gc = (block_num % 3) * 3 + col;
        let mut cell = self.grid[gr][gc];
        let mut list: Vec<u8> = Vec::new();
        let mut i: usize = 0;
        while i < 9
            invariant
                i <= 9,
                list@ == candidates@.subrange(0, i as int),
            decreases 9 - i,
        {
            list.push(candidates[i]);
            assert(list@ =~= candidates@.subrange(0, i + 1));
            i += 1;
        }
        assert(list@ =~= candidates@);
        cell.set_candidates(list);
        let changed = !cell.same_candidates(&self.grid[gr][gc]);
        self.put(gr, gc, cell);
        changed
    }

    /// The values assigned in block `b`.
    pub fn numbers_in_block(&self, b: usize) -> (r: HashSet<u8>)
        requires
            b < 9,
        ensures
            r@ == group_values(self@, b + 18),
    {
        self.numbers_in_group(b + 18)
    }

    /// The values assigned in row `row`.
    pub fn numbers_in_row(&self, row: usize) -> (r: HashSet<u8>)
        requires
            row < 9,
        ensures
            r@ == group_values(self@, row as int),
    {
        self.numbers_in_group(row)
    }

    /// The values assigned in column `col`.
    pub fn numbers_in_column(&self, col: usize) -> (r: HashSet<u8>)
        requires
            col < 9,
        ensures
            r@ == group_values(self@, col + 9),
    {
        self.numbers_in_group(col + 9)
    }

    fn numbers_in_group(&self, gi: usize) -> (r: HashSet<u8>)
        requires
            gi < 27,
        ensures
            r@ == group_values(self@, gi as int),
    {
        let cells = self.group(gi);
        let mut r: HashSet<u8> = HashSet::new();
        let mut k: usize = 0;
        while k < 9
            invariant
                k <= 9,
                forall|j: int| 0 <= j < 9 ==> #[trigger] cells@[j]@ == group_cell(self@, gi as int, j),
                r@ == Set::new(
                    |d: u8| exists|j: int| 0 <= j < k && #[trigger] group_cell(self@, gi as int, j).value == Some(d),
                ),
            decreases 9 - k,
        {
            let ghost before = r@;
            match cells[k].number() {
                Some(n) => {
                    r.insert(n);
                },
                None => {},
            }
            assert(r@ =~= Set::new(
                |d: u8| exists|j: int| 0 <= j < k + 1 && #[trigger] group_cell(self@, gi as int, j).value == Some(d),
            )) by {
                assert(cells@[k as int]@ == group_cell(self@, gi as int, k as int));
            }
            k += 1;
        }
        assert(r@ =~= group_values(self@, gi as int));
        r
    }

    /// How many cells of group `gi` have no value and list `needle`.
    pub(crate) fn count_open_in_group(&self, gi: usize, needle: u8) -> (r: usize)
        requires
            gi < 27,
        ensures
            r == open_count(self@, gi as int, needle),
    {
        let cells = self.group(gi);
        let mut count: usize = 0;
        let mut k: usize = 0;
        while k < 9
            invariant
                k <= 9,
                forall|j: int| 0 <= j < 9 ==> #[trigger] cells@[j]@ == group_cell(self@, gi as int, j),
                count == open_count_upto(self@, gi as int, needle, k as int),
            decreases 9 - k,
        {
            proof {
                lemma_open_count_bound(self@, gi as int, needle, k as int);
            }
            assert(cells@[k as int]@ == group_cell(self@, gi as int, k as int));
            match cells[k].number() {
                Some(_) => {},
                None => {
                    if cells[k].has_candidate(needle) {
                        count += 1;
                    }
                },
            }
            k += 1;
        }
        count
    }

    /// How many cells of block `block_num` have no value and list `needle`.
    pub fn count_candidates_in_block_for(&self, block_num: usize, needle: u8) -> (r: usize)
        requires
            block_num < 9,
        ensures
            r == open_count(self@, block_num + 18, needle),
    {
        self.count_open_in_group(block_num + 18, needle)
    }

    /// How many cells of row `row_num` have no value and list `needle`.
    pub fn count_candidates_in_row(&self, row_num: usize, needle: u8) -> (r: usize)
        requires
            row_num < 9,
        ensures
            r == open_count(self@, row_num as int, needle),
    {
        self.count_open_in_group(row_num, needle)
    }

    /// How many cells of column `col_num` have no value and list `needle`.
    pub fn count_candidates_in_col(&self, col_num: usize, needle: u8) -> (r: usize)
        requires
            col_num < 9,
        ensures
            r == open_count(self@, col_num + 9, needle),
    {
        self.count_open_in_group(col_num + 9, needle)
    }
}

} // verus!
