use vstd::prelude::*;
use crate::cell::{Cell, CellModel, ascending, ascending_upto, is_digit, lemma_ascending_upto};
use crate::grid::{
    Puzzle, block_col, block_num_for_row_col, block_of, block_row, grid_origin_offset_for_block,
    group_cell, group_col, group_pos, group_row, group_values, in_group, index_in_group, is_grid,
    lemma_group_geometry, wf,
};
use crate::pinned::{copy_list, lists_of, reduce_candidates_by_uniqueness, reduced};

verus! {

broadcast use vstd::std_specs::hash::group_hash_axioms;

// ---------------------------------------------------------------------------
// Shrinking grids and the number of candidates left.

/// Every candidate of every cell is a digit.
pub open spec fn digit_cands(g: Seq<Seq<CellModel>>) -> bool {
    &&& is_grid(g)
    &&& forall|r: int, c: int, d: u8|
        0 <= r < 9 && 0 <= c < 9 && #[trigger] g[r][c].cands.contains(d) ==> is_digit(d)
}

/// `g2` is `g1` with, at most, fewer candidates in some cells.
pub open spec fn shrinks(g1: Seq<Seq<CellModel>>, g2: Seq<Seq<CellModel>>) -> bool {
    &&& is_grid(g1)
    &&& is_grid(g2)
    &&& forall|r: int, c: int|
        0 <= r < 9 && 0 <= c < 9 ==> {
            &&& (#[trigger] g2[r][c]).value == g1[r][c].value
            &&& g2[r][c].given == g1[r][c].given
            &&& g2[r][c].cands.subset_of(g1[r][c].cands)
        }
}

/// Number of candidates listed by the first `n` cells in row-major order.
pub open spec fn total_upto(g: Seq<Seq<CellModel>>, n: int) -> nat
    decreases n,
{
    if n <= 0 {
        0
    } else {
        total_upto(g, n - 1) + ascending(g[(n - 1) / 9][(n - 1) % 9].cands).len()
    }
}

/// Number of candidates listed in the whole grid.
pub open spec fn total(g: Seq<Seq<CellModel>>) -> nat {
    total_upto(g, 81)
}

proof fn lemma_size_mono(s1: Set<u8>, s2: Set<u8>, n: nat)
    requires
        s2.subset_of(s1),
        n <= 9,
    ensures
        ascending_upto(s2, n).len() <= ascending_upto(s1, n).len(),
        (exists|d: u8| 1 <= d <= n && s1.contains(d) && !s2.contains(d)) ==> ascending_upto(s2, n).len()
            < ascending_upto(s1, n).len(),
    decreases n,
{
    if n > 0 {
        lemma_size_mono(s1, s2, (n - 1) as nat);
        if exists|d: u8| 1 <= d <= n && s1.contains(d) && !s2.contains(d) {
            let d = choose|d: u8| 1 <= d <= n && s1.contains(d) && !s2.contains(d);
            if d < n {
                assert(exists|d: u8| 1 <= d <= n - 1 && s1.contains(d) && !s2.contains(d));
            }
        }
    }
}

proof fn lemma_total_mono(g1: Seq<Seq<CellModel>>, g2: Seq<Seq<CellModel>>, n: int)
    requires
        shrinks(g1, g2),
        digit_cands(g1),
        0 <= n <= 81,
    ensures
        total_upto(g2, n) <= total_upto(g1, n),
        (exists|t: int| 0 <= t < n && #[trigger] g2[t / 9][t % 9].cands != g1[t / 9][t % 9].cands)
            ==> total_upto(g2, n) < total_upto(g1, n),
        total_upto(g1, n) <= 9 * n,
    decreases n,
{
    if n > 0 {
        lemma_total_mono(g1, g2, n - 1);
        let t = n - 1;
        let (r, c) = (t / 9, t % 9);
        lemma_size_mono(g1[r][c].cands, g2[r][c].cands, 9);
        lemma_ascending_upto(g1[r][c].cands, 9);
        if g2[r][c].cands != g1[r][c].cands {
            assert(!(g2[r][c].cands =~= g1[r][c].cands));
            let d = choose|d: u8| g1[r][c].cands.contains(d) != g2[r][c].cands.contains(d);
            assert(g1[r][c].cands.contains(d) && !g2[r][c].cands.contains(d));
            assert(is_digit(d));
        }
        if exists|u: int| 0 <= u < n && #[trigger] g2[u / 9][u % 9].cands != g1[u / 9][u % 9].cands {
            let u = choose|u: int| 0 <= u < n && #[trigger] g2[u / 9][u % 9].cands != g1[u / 9][u % 9].cands;
            if u < n - 1 {
                assert(exists|u: int| 0 <= u < n - 1 && #[trigger] g2[u / 9][u % 9].cands != g1[u / 9][u % 9].cands);
            }
        }
    }
}

/// A grid that shrinks to a different grid has fewer candidates.
proof fn lemma_total_drops(g1: Seq<Seq<CellModel>>, g2: Seq<Seq<CellModel>>)
    requires
        shrinks(g1, g2),
        digit_cands(g1),
    ensures
        total(g2) <= total(g1),
        total(g1) <= 729,
        g2 != g1 ==> total(g2) < total(g1),
{
    lemma_total_mono(g1, g2, 81);
    if g2 != g1 {
        assert(!(g2 =~~= g1));
        let r = choose|r: int| 0 <= r < 9 && !(g2[r] =~= g1[r]);
        let c = choose|c: int| 0 <= c < 9 && g2[r][c] != g1[r][c];
        let t = r * 9 + c;
        assert(t / 9 == r && t % 9 == c);
        assert(g2[t / 9][t % 9].cands != g1[t / 9][t % 9].cands);
        lemma_total_mono(g1, g2, 81);
    }
}

proof fn lemma_shrinks_trans(g1: Seq<Seq<CellModel>>, g2: Seq<Seq<CellModel>>, g3: Seq<Seq<CellModel>>)
    requires
        shrinks(g1, g2),
        shrinks(g2, g3),
    ensures
        shrinks(g1, g3),
{
    assert forall|r: int, c: int| 0 <= r < 9 && 0 <= c < 9 implies {
        &&& (#[trigger] g3[r][c]).value == g1[r][c].value
        &&& g3[r][c].given == g1[r][c].given
        &&& g3[r][c].cands.subset_of(g1[r][c].cands)
    } by {
        assert(g2[r][c].value == g1[r][c].value);
        assert(g3[r][c].value == g2[r][c].value);
    }
}

proof fn lemma_shrinks_digits(g1: Seq<Seq<CellModel>>, g2: Seq<Seq<CellModel>>)
    requires
        shrinks(g1, g2),
        digit_cands(g1),
    ensures
        digit_cands(g2),
{
    assert forall|r: int, c: int, d: u8|
        0 <= r < 9 && 0 <= c < 9 && #[trigger] g2[r][c].cands.contains(d) implies is_digit(d) by {
        assert(g1[r][c].cands.contains(d));
    }
}

proof fn lemma_shrinks_refl(g: Seq<Seq<CellModel>>)
    requires
        is_grid(g),
    ensures
        shrinks(g, g),
{
}

pub proof fn lemma_view_digits(p: Puzzle)
    ensures
        digit_cands(p@),
{
}

// ---------------------------------------------------------------------------
// Candidates from the values of the peers.

/// The nine digits.
pub open spec fn all_digits() -> Set<u8> {
    Set::new(|d: u8| is_digit(d))
}

/// The values assigned in the row, the column and the block of a cell.
pub open spec fn peer_values(g: Seq<Seq<CellModel>>, r: int, c: int) -> Set<u8> {
    group_values(g, r) + group_values(g, 9 + c) + group_values(g, 18 + block_of(r, c))
}

/// Every cell without a value gets the digits that no peer holds; cells
/// with a value stay as they are.
pub open spec fn initial(g: Seq<Seq<CellModel>>) -> Seq<Seq<CellModel>> {
    Seq::new(
        9,
        |r: int|
            Seq::new(
                9,
                |c: int|
                    if g[r][c].value is None {
                        CellModel { cands: all_digits().difference(peer_values(g, r, c)), ..g[r][c] }
                    } else {
                        g[r][c]
                    },
            ),
    )
}

// ---------------------------------------------------------------------------
// Pinned subsets, group by group.

/// The candidate lists of group `gi`, each in ascending order.
pub open spec fn group_lists(g: Seq<Seq<CellModel>>, gi: int) -> Seq<Seq<u8>> {
    Seq::new(9, |k: int| ascending(group_cell(g, gi, k).cands))
}

/// The pinned-subset rule applied to group `gi`.
pub open spec fn flex_group(g: Seq<Seq<CellModel>>, gi: int) -> Seq<Seq<CellModel>> {
    Seq::new(
        9,
        |r: int|
            Seq::new(
                9,
                |c: int|
                    if in_group(gi, r, c) {
                        CellModel {
                            cands: reduced(group_lists(g, gi), index_in_group(gi, r, c)),
                            ..g[r][c]
                        }
                    } else {
                        g[r][c]
                    },
            ),
    )
}

/// The rule applied to groups `0..n` in turn.
pub open spec fn flex_upto(g: Seq<Seq<CellModel>>, n: int) -> Seq<Seq<CellModel>>
    decreases n,
{
    if n <= 0 {
        g
    } else {
        flex_group(flex_upto(g, n - 1), n - 1)
    }
}

/// The rule applied to every row, then every column, then every block.
pub open spec fn flex_pass(g: Seq<Seq<CellModel>>) -> Seq<Seq<CellModel>> {
    flex_upto(g, 27)
}

proof fn lemma_flex_group_shrinks(g: Seq<Seq<CellModel>>, gi: int)
    requires
        digit_cands(g),
        0 <= gi < 27,
    ensures
        shrinks(g, flex_group(g, gi)),
        digit_cands(flex_group(g, gi)),
{
    lemma_group_geometry();
    let g2 = flex_group(g, gi);
    assert forall|r: int, c: int| 0 <= r < 9 && 0 <= c < 9 implies {
        &&& (#[trigger] g2[r][c]).value == g[r][c].value
        &&& g2[r][c].given == g[r][c].given
        &&& g2[r][c].cands.subset_of(g[r][c].cands)
    } by {
        if in_group(gi, r, c) {
            let k = index_in_group(gi, r, c);
            let lists = group_lists(g, gi);
            lemma_ascending_upto(g[r][c].cands, 9);
            assert(lists[k] == ascending(g[r][c].cands));
            assert forall|d: u8| g2[r][c].cands.contains(d) implies g[r][c].cands.contains(d) by {
                assert(lists[k].to_set().contains(d));
                assert(lists[k].contains(d));
            }
        }
    }
    lemma_shrinks_digits(g, g2);
}

proof fn lemma_flex_upto_shrinks(g: Seq<Seq<CellModel>>, n: int)
    requires
        digit_cands(g),
        0 <= n <= 27,
    ensures
        shrinks(g, flex_upto(g, n)),
        digit_cands(flex_upto(g, n)),
    decreases n,
{
    if n <= 0 {
        lemma_shrinks_refl(g);
    } else {
        lemma_flex_upto_shrinks(g, n - 1);
        lemma_flex_group_shrinks(flex_upto(g, n - 1), n - 1);
        lemma_shrinks_trans(g, flex_upto(g, n - 1), flex_upto(g, n));
    }
}

impl Puzzle {
    /// Gives every cell without a value the digits that no peer holds.
    pub(crate) fn initial_candidates(&mut self)
        ensures
            final(self)@ == initial(old(self)@),
    {
        let ghost g0 = self@;
        let src: Puzzle = *self;
        let mut t: usize = 0;
        while t < 81
            invariant
                t <= 81,
                src@ == g0,
                is_grid(self@),
                forall|r: int, c: int|
                    0 <= r < 9 && 0 <= c < 9 ==> #[trigger] self@[r][c] == if r * 9 + c < t {
                        initial(g0)[r][c]
                    } else {
                        g0[r][c]
                    },
            decreases 81 - t,
        {
            let row = t / 9;
            let col = t % 9;
            let mut cell = src.cell(row, col);
            if cell.number().is_none() {
                let in_row = src.numbers_in_row(row);
                let in_col = src.numbers_in_column(col);
                let in_block = src.numbers_in_block(block_num_for_row_col(row, col));
                let ghost peers = peer_values(g0, row as int, col as int);
                let mut list: Vec<u8> = Vec::new();
                let mut d: u8 = 1;
                while d <= 9
                    invariant
                        1 <= d <= 10,
                        in_row@ == group_values(g0, row as int),
                        in_col@ == group_values(g0, col + 9),
                        in_block@ == group_values(g0, block_of(row as int, col as int) + 18),
                        peers == peer_values(g0, row as int, col as int),
                        forall|x: u8| #[trigger] list@.contains(x) <==> (1 <= x < d && !peers.contains(x)),
                    decreases 10 - d,
                {
                    let ghost before = list@;
                    if !in_row.contains(&d) && !in_col.contains(&d) && !in_block.contains(&d) {
                        list.push(d);
                        assert(list@[before.len() as int] == d);
                    }
                    assert forall|x: u8| #[trigger] list@.contains(x) <==> (1 <= x < d + 1 && !peers.contains(x)) by {
                        if x != d && list@.contains(x) {
                            let q = choose|q: int| 0 <= q < list@.len() && list@[q] == x;
                            assert(before[q] == x);
                            assert(before.contains(x));
                        }
                        if x != d && 1 <= x < d && !peers.contains(x) {
                            assert(before.contains(x));
                            let q = choose|q: int| 0 <= q < before.len() && before[q] == x;
                            assert(list@[q] == x);
                        }
                    }
                    d += 1;
                }
                cell.set_candidates(list);
                assert(cell@.cands =~= all_digits().difference(peers));
                self.put(row, col, cell);
            }
            assert forall|r: int, c: int| 0 <= r < 9 && 0 <= c < 9 implies #[trigger] self@[r][c] == if r * 9 + c < t + 1 {
                initial(g0)[r][c]
            } else {
                g0[r][c]
            } by {
                if r * 9 + c == t {
                    assert(r == row && c == col);
                }
            }
            t += 1;
        }
        assert(self@ =~~= initial(g0));
    }

    /// Applies the pinned-subset rule to group `gi`; returns how many cells
    /// changed.
    #[verifier::rlimit(60)]
    fn flex_group_once(&mut self, gi: usize) -> (changed: usize)
        requires
            gi < 27,
        ensures
            final(self)@ == flex_group(old(self)@, gi as int),
            changed <= 9,
            changed == 0 ==> final(self)@ == old(self)@,
            changed > 0 ==> final(self)@ != old(self)@,
    {
        proof {
            lemma_group_geometry();
        }
        let ghost g0 = self@;
        let cells = self.group(gi);
        let mut lists: Vec<Vec<u8>> = Vec::new();
        let mut k: usize = 0;
        while k < 9
            invariant
                k <= 9,
                gi < 27,
                lists@.len() == k,
                forall|j: int| 0 <= j < 9 ==> #[trigger] cells@[j]@ == group_cell(g0, gi as int, j),
                forall|j: int| 0 <= j < k ==> #[trigger] lists@[j]@ == ascending(group_cell(g0, gi as int, j).cands),
            decreases 9 - k,
        {
            lists.push(cells[k].candidates_as_vec());
            k += 1;
        }
        let ghost lists_model = group_lists(g0, gi as int);
        assert(lists_of(lists@) =~= lists_model);
        let reduced_lists = reduce_candidates_by_uniqueness(lists);
        let mut changed: usize = 0;
        let mut k: usize = 0;
        while k < 9
            invariant
                k <= 9,
                gi < 27,
                changed <= k,
                g0 == old(self)@,
                is_grid(self@),
                reduced_lists@.len() == 9,
                forall|j: int| 0 <= j < 9 ==> #[trigger] reduced_lists@[j]@.to_set() == reduced(lists_model, j),
                lists_model == group_lists(g0, gi as int),
                forall|r: int, c: int|
                    0 <= r < 9 && 0 <= c < 9 ==> #[trigger] self@[r][c] == if in_group(gi as int, r, c)
                        && index_in_group(gi as int, r, c) < k {
                        CellModel {
                            cands: reduced(lists_model, index_in_group(gi as int, r, c)),
                            ..g0[r][c]
                        }
                    } else {
                        g0[r][c]
                    },
                (changed == 0) == (forall|j: int| 0 <= j < k ==> #[trigger] reduced(lists_model, j) == group_cell(g0, gi as int, j).cands),
            decreases 9 - k,
        {
            let (row, col) = group_pos(gi, k);
            let old_cell = self.cell(row, col);
            let mut cell = old_cell;
            cell.set_candidates(copy_list(&reduced_lists[k]));
            proof {
                let m = group_cell(g0, gi as int, k as int);
                lemma_ascending_upto(m.cands, 9);
                assert(lists_model[k as int] == ascending(m.cands));
                assert forall|d: u8| #[trigger] reduced(lists_model, k as int).contains(d) implies is_digit(d) by {
                    assert(lists_model[k as int].to_set().contains(d));
                    assert(lists_model[k as int].contains(d));
                }
                assert(cell@.cands =~= reduced(lists_model, k as int));
                assert(old_cell@ == m);
            }
            let ghost before = changed;
            if !cell.same_candidates(&old_cell) {
                self.put(row, col, cell);
                changed += 1;
            }
            assert forall|r: int, c: int|
                0 <= r < 9 && 0 <= c < 9 implies #[trigger] self@[r][c] == if in_group(gi as int, r, c)
                    && index_in_group(gi as int, r, c) < k + 1 {
                    CellModel {
                        cands: reduced(lists_model, index_in_group(gi as int, r, c)),
                        ..g0[r][c]
                    }
                } else {
                    g0[r][c]
                } by {
                if r == row && c == col {
                    assert(index_in_group(gi as int, r, c) == k);
                } else if in_group(gi as int, r, c) {
                    assert(index_in_group(gi as int, r, c) != k);
                }
            }
            assert((changed == 0) == (forall|j: int| 0 <= j < k + 1 ==> #[trigger] reduced(lists_model, j) == group_cell(g0, gi as int, j).cands)) by {
                if changed == 0 {
                    assert forall|j: int| 0 <= j < k + 1 implies #[trigger] reduced(lists_model, j) == group_cell(g0, gi as int, j).cands by {
                        if j < k {
                            assert(before == 0);
                        }
                    }
                } else if before == 0 {
                    assert(reduced(lists_model, k as int) != group_cell(g0, gi as int, k as int).cands);
                } else {
                    assert(!(forall|j: int| 0 <= j < k ==> #[trigger] reduced(lists_model, j) == group_cell(g0, gi as int, j).cands));
                }
            }
            k += 1;
        }
        assert(self@ =~~= flex_group(g0, gi as int));
        if changed == 0 {
            assert(self@ =~~= g0) by {
                assert forall|r: int, c: int| 0 <= r < 9 && 0 <= c < 9 implies #[trigger] self@[r][c] == g0[r][c] by {
                    if in_group(gi as int, r, c) {
                        let j = index_in_group(gi as int, r, c);
                        assert(reduced(lists_model, j) == group_cell(g0, gi as int, j).cands);
                    }
                }
            }
        } else {
            proof {
                let j = choose|j: int| 0 <= j < 9 && !(#[trigger] reduced(lists_model, j) == group_cell(g0, gi as int, j).cands);
                let r = group_row(gi as int, j);
                let c = group_col(gi as int, j);
                assert(self@[r][c].cands != g0[r][c].cands);
            }
        }
        changed
    }

    /// Applies the pinned-subset rule to every row, then every column, then
    /// every block; returns how many cell updates that made.
    pub fn reduce_candidates_with_sara_flex(&mut self) -> (r: usize)
        ensures
            final(self)@ == flex_pass(old(self)@),
            r == 0 ==> final(self)@ == old(self)@,
            r > 0 ==> total(final(self)@) < total(old(self)@),
    {
        let ghost g0 = self@;
        proof {
            lemma_view_digits(*self);
            lemma_shrinks_refl(g0);
        }
        let mut reductions: usize = 0;
        let mut gi: usize = 0;
        while gi < 27
            invariant
                gi <= 27,
                reductions <= 9 * gi,
                g0 == old(self)@,
                digit_cands(g0),
                self@ == flex_upto(g0, gi as int),
                reductions == 0 ==> self@ == g0,
                reductions > 0 ==> total(self@) < total(g0),
            decreases 27 - gi,
        {
            proof {
                lemma_flex_upto_shrinks(g0, gi as int);
                lemma_flex_group_shrinks(self@, gi as int);
                lemma_shrinks_trans(g0, self@, flex_group(self@, gi as int));
                lemma_total_drops(g0, self@);
                lemma_total_drops(self@, flex_group(self@, gi as int));
            }
            let n = self.flex_group_once(gi);
            reductions += n;
            gi += 1;
        }
        reductions
    }
}

// ---------------------------------------------------------------------------
// Locked candidates.

/// Where the cells of a block that list a digit line up.
#[derive(Clone, Copy, Debug, PartialEq, Eq, Structural)]
pub enum WaterCannonSights {
    /// All in this row of the block (0..3).
    Row(usize),
    /// All in this column of the block (0..3).
    Column(usize),
    Unaligned,
}

/// How many of the first `m` cells of a block list `n`.
pub open spec fn holder_count_upto(cs: Seq<Set<u8>>, n: u8, m: int) -> nat
    decreases m,
{
    if m <= 0 {
        0
    } else {
        holder_count_upto(cs, n, m - 1) + if cs[m - 1].contains(n) {
            1nat
        } else {
            0nat
        }
    }
}

/// The cells of the block that list `n` share a row of the block.
pub open spec fn row_aligned(cs: Seq<Set<u8>>, n: u8) -> bool {
    forall|k1: int, k2: int|
        0 <= k1 < 9 && 0 <= k2 < 9 && #[trigger] cs[k1].contains(n) && #[trigger] cs[k2].contains(n)
            ==> k1 / 3 == k2 / 3
}

/// The cells of the block that list `n` share a column of the block.
pub open spec fn col_aligned(cs: Seq<Set<u8>>, n: u8) -> bool {
    forall|k1: int, k2: int|
        0 <= k1 < 9 && 0 <= k2 < 9 && #[trigger] cs[k1].contains(n) && #[trigger] cs[k2].contains(n)
            ==> k1 % 3 == k2 % 3
}

/// One cell of the block that lists `n`.
pub open spec fn some_holder(cs: Seq<Set<u8>>, n: u8) -> int {
    choose|k: int| 0 <= k < 9 && #[trigger] cs[k].contains(n)
}

/// Two or three cells of the block list `n`: their common row, else their
/// common column, else nothing; any other number of cells gives nothing.
pub open spec fn sights_of(cs: Seq<Set<u8>>, n: u8) -> WaterCannonSights {
    let count = holder_count_upto(cs, n, 9);
    if count != 2 && count != 3 {
        WaterCannonSights::Unaligned
    } else if row_aligned(cs, n) {
        WaterCannonSights::Row((some_holder(cs, n) / 3) as usize)
    } else if col_aligned(cs, n) {
        WaterCannonSights::Column((some_holder(cs, n) % 3) as usize)
    } else {
        WaterCannonSights::Unaligned
    }
}

/// The candidates of the nine cells of a block, left to right, top to bottom.
pub open spec fn local_cands(block: [[Cell; 3]; 3]) -> Seq<Set<u8>> {
    Seq::new(9, |k: int| block@[k / 3]@[k % 3]@.cands)
}

/// Finds whether the cells of `block` that list `number` line up in one
/// row or one column of the block.
pub fn line_up_water_cannon(block: [[Cell; 3]; 3], number: u8) -> (r: WaterCannonSights)
    ensures
        r == sights_of(local_cands(block), number),
        r matches WaterCannonSights::Row(x) ==> x < 3,
        r matches WaterCannonSights::Column(x) ==> x < 3,
{
    let ghost cs = local_cands(block);
    let mut count: usize = 0;
    let mut first: usize = 0;
    let mut row_ok = true;
    let mut col_ok = true;
    let mut k: usize = 0;
    while k < 9
        invariant
            k <= 9,
            cs == local_cands(block),
            count == holder_count_upto(cs, number, k as int),
            count <= k,
            count == 0 ==> row_ok && col_ok && forall|j: int| 0 <= j < k ==> !#[trigger] cs[j].contains(number),
            count > 0 ==> first < k && cs[first as int].contains(number),
            count > 0 ==> (row_ok <==> forall|j: int|
                0 <= j < k && #[trigger] cs[j].contains(number) ==> j / 3 == first / 3),
            count > 0 ==> (col_ok <==> forall|j: int|
                0 <= j < k && #[trigger] cs[j].contains(number) ==> j % 3 == first % 3),
        decreases 9 - k,
    {
        assert(cs[k as int] == block@[(k / 3) as int]@[(k % 3) as int]@.cands);
        if block[k / 3][k % 3].has_candidate(number) {
            if count == 0 {
                first = k;
            } else {
                if k / 3 != first / 3 {
                    row_ok = false;
                }
                if k % 3 != first % 3 {
                    col_ok = false;
                }
            }
            count += 1;
        }
        k += 1;
    }
    if count != 2 && count != 3 {
        return WaterCannonSights::Unaligned;
    }
    let ghost h = some_holder(cs, number);
    assert(0 <= h < 9 && cs[h].contains(number));
    if row_ok {
        assert(row_aligned(cs, number));
        assert(h / 3 == first / 3);
        WaterCannonSights::Row(first / 3)
    } else if col_ok {
        assert(!row_aligned(cs, number));
        assert(col_aligned(cs, number));
        assert(h % 3 == first % 3);
        WaterCannonSights::Column(first % 3)
    } else {
        assert(!row_aligned(cs, number));
        assert(!col_aligned(cs, number));
        WaterCannonSights::Unaligned
    }
}

/// The candidates of the cells of block `b`.
pub open spec fn block_cands(g: Seq<Seq<CellModel>>, b: int) -> Seq<Set<u8>> {
    Seq::new(9, |k: int| g[block_row(b, k)][block_col(b, k)].cands)
}

/// The cells outside block `b` on the line that the sights point at.
pub open spec fn cannon_hits(s: WaterCannonSights, b: int, r: int, c: int) -> bool {
    match s {
        WaterCannonSights::Row(x) => r == (b / 3) * 3 + x && c / 3 != b % 3,
        WaterCannonSights::Column(x) => c == (b % 3) * 3 + x && r / 3 != b / 3,
        WaterCannonSights::Unaligned => false,
    }
}

/// The locked-candidate rule for block `b` and digit `n`.
pub open spec fn cannon_one(g: Seq<Seq<CellModel>>, b: int, n: u8) -> Seq<Seq<CellModel>> {
    let s = sights_of(block_cands(g, b), n);
    Seq::new(
        9,
        |r: int|
            Seq::new(
                9,
                |c: int|
                    if cannon_hits(s, b, r, c) {
                        CellModel { cands: g[r][c].cands.remove(n), ..g[r][c] }
                    } else {
                        g[r][c]
                    },
            ),
    )
}

/// The rule for the first `m` pairs of block and digit (blocks in order,
/// digits ascending within each block).
pub open spec fn cannon_upto(g: Seq<Seq<CellModel>>, m: int) -> Seq<Seq<CellModel>>
    decreases m,
{
    if m <= 0 {
        g
    } else {
        cannon_one(cannon_upto(g, m - 1), (m - 1) / 9, ((m - 1) % 9 + 1) as u8)
    }
}

/// The locked-candidate rule for every block and digit.
pub open spec fn cannon_pass(g: Seq<Seq<CellModel>>) -> Seq<Seq<CellModel>> {
    cannon_upto(g, 81)
}

proof fn lemma_cannon_upto_shrinks(g: Seq<Seq<CellModel>>, m: int)
    requires
        digit_cands(g),
        0 <= m,
    ensures
        shrinks(g, cannon_upto(g, m)),
        digit_cands(cannon_upto(g, m)),
    decreases m,
{
    if m <= 0 {
        lemma_shrinks_refl(g);
    } else {
        let prev = cannon_upto(g, m - 1);
        lemma_cannon_upto_shrinks(g, m - 1);
        let next = cannon_upto(g, m);
        assert(shrinks(prev, next));
        lemma_shrinks_trans(g, prev, next);
        lemma_shrinks_digits(prev, next);
    }
}

/// The cell of line `s` at place `i` along it.
pub open spec fn line_place(s: WaterCannonSights, b: int, i: int) -> (int, int) {
    match s {
        WaterCannonSights::Row(x) => ((b / 3) * 3 + x, i),
        WaterCannonSights::Column(x) => (i, (b % 3) * 3 + x),
        WaterCannonSights::Unaligned => (0, 0),
    }
}

/// The place along line `s` of row `r`, column `c`.
pub open spec fn line_index(s: WaterCannonSights, r: int, c: int) -> int {
    match s {
        WaterCannonSights::Row(_) => c,
        _ => r,
    }
}

impl Puzzle {
    #[verifier::rlimit(60)]
    fn cannon_once(&mut self, b: usize, number: u8, sights: WaterCannonSights) -> (hits: usize)
        requires
            b < 9,
            sights == sights_of(block_cands(old(self)@, b as int), number),
            sights matches WaterCannonSights::Row(x) ==> x < 3,
            sights matches WaterCannonSights::Column(x) ==> x < 3,
        ensures
            final(self)@ == cannon_one(old(self)@, b as int, number),
            hits <= 9,
            hits == 0 ==> final(self)@ == old(self)@,
            hits > 0 ==> final(self)@ != old(self)@,
    {
        let ghost g0 = self@;
        if let WaterCannonSights::Unaligned = sights {
            assert(self@ =~~= cannon_one(g0, b as int, number));
            return 0;
        }
        let (origin_row, origin_col) = grid_origin_offset_for_block(b);
        let mut hits: usize = 0;
        let ghost mut wr: int = 0;
        let ghost mut wc: int = 0;
        let mut i: usize = 0;
        while i < 9
            invariant
                i <= 9,
                b < 9,
                hits <= i,
                g0 == old(self)@,
                is_grid(self@),
                origin_row == (b / 3) * 3,
                origin_col == (b % 3) * 3,
                !(sights is Unaligned),
                sights matches WaterCannonSights::Row(x) ==> x < 3,
                sights matches WaterCannonSights::Column(x) ==> x < 3,
                forall|r: int, c: int|
                    0 <= r < 9 && 0 <= c < 9 ==> #[trigger] self@[r][c] == if cannon_hits(sights, b as int, r, c)
                        && line_index(sights, r, c) < i {
                        CellModel { cands: g0[r][c].cands.remove(number), ..g0[r][c] }
                    } else {
                        g0[r][c]
                    },
                hits == 0 ==> self@ == g0,
                hits > 0 ==> 0 <= wr < 9 && 0 <= wc < 9 && cannon_hits(sights, b as int, wr, wc)
                    && line_index(sights, wr, wc) < i && g0[wr][wc].cands.contains(number),
            decreases 9 - i,
        {
            let (row, col, skip) = match sights {
                WaterCannonSights::Row(x) => (origin_row + x, i, i / 3 == b % 3),
                WaterCannonSights::Column(x) => (i, origin_col + x, i / 3 == b / 3),
                WaterCannonSights::Unaligned => (0, 0, true),
            };
            assert(skip == !cannon_hits(sights, b as int, row as int, col as int));
            assert(line_index(sights, row as int, col as int) == i);
            if !skip {
                let mut cell = self.cell(row, col);
                assert(cell@ == g0[row as int][col as int]);
                if cell.remove_candidate(number) {
                    self.put(row, col, cell);
                    hits += 1;
                    proof {
                        wr = row as int;
                        wc = col as int;
                    }
                } else {
                    assert(g0[row as int][col as int].cands.remove(number) =~= g0[row as int][col as int].cands);
                }
            }
            assert forall|r: int, c: int|
                0 <= r < 9 && 0 <= c < 9 implies #[trigger] self@[r][c] == if cannon_hits(sights, b as int, r, c)
                    && line_index(sights, r, c) < i + 1 {
                    CellModel { cands: g0[r][c].cands.remove(number), ..g0[r][c] }
                } else {
                    g0[r][c]
                } by {
                if cannon_hits(sights, b as int, r, c) && line_index(sights, r, c) == i {
                    assert(r == row && c == col);
                }
            }
            i += 1;
        }
        assert(self@ =~~= cannon_one(g0, b as int, number));
        if hits > 0 {
            assert(self@[wr][wc].cands != g0[wr][wc].cands) by {
                assert(!self@[wr][wc].cands.contains(number));
            }
        }
        hits
    }

    /// Applies the locked-candidate rule to every block and digit; returns
    /// how many candidates it removed.
    pub fn reduce_candidates_using_water_cannon(&mut self) -> (r: usize)
        ensures
            final(self)@ == cannon_pass(old(self)@),
            r == 0 ==> final(self)@ == old(self)@,
            r > 0 ==> total(final(self)@) < total(old(self)@),
    {
        let ghost g0 = self@;
        proof {
            lemma_view_digits(*self);
            lemma_shrinks_refl(g0);
        }
        let mut reductions: usize = 0;
        let mut m: usize = 0;
        while m < 81
            invariant
                m <= 81,
                reductions <= 9 * m,
                g0 == old(self)@,
                digit_cands(g0),
                self@ == cannon_upto(g0, m as int),
                reductions == 0 ==> self@ == g0,
                reductions > 0 ==> total(self@) < total(g0),
            decreases 81 - m,
        {
            let b = m / 9;
            let number = (m % 9 + 1) as u8;
            let ghost cur = self@;
            proof {
                lemma_cannon_upto_shrinks(g0, m as int);
                lemma_cannon_upto_shrinks(g0, m + 1);
                assert(cannon_upto(g0, m + 1) == cannon_one(cur, b as int, number));
                lemma_shrinks_digits(g0, cur);
                assert(shrinks(cur, cannon_one(cur, b as int, number)));
                lemma_total_drops(g0, cur);
                lemma_total_drops(cur, cannon_one(cur, b as int, number));
            }
            let block = self.block(b);
            assert(local_cands(block) =~= block_cands(cur, b as int));
            let sights = line_up_water_cannon(block, number);
            let n = self.cannon_once(b, number, sights);
            reductions += n;
            m += 1;
        }
        reductions
    }
}

// ---------------------------------------------------------------------------
// The fixpoint.

/// One round: the pinned-subset rule, then the locked-candidate rule.
pub open spec fn round(g: Seq<Seq<CellModel>>) -> Seq<Seq<CellModel>> {
    cannon_pass(flex_pass(g))
}

/// Rounds repeated until one changes nothing, for at most `fuel` rounds.
pub open spec fn settle(g: Seq<Seq<CellModel>>, fuel: nat) -> Seq<Seq<CellModel>>
    decreases fuel,
{
    if fuel == 0 || round(g) == g {
        g
    } else {
        settle(round(g), (fuel - 1) as nat)
    }
}

/// Candidates from the peers' values, narrowed by rounds until nothing
/// changes (a grid lists at most 729 candidates, and each round that changes
/// something removes one, so 730 rounds always reach that point).
pub open spec fn propagated(g: Seq<Seq<CellModel>>) -> Seq<Seq<CellModel>> {
    settle(initial(g), 730)
}

proof fn lemma_round_shrinks(g: Seq<Seq<CellModel>>)
    requires
        digit_cands(g),
    ensures
        shrinks(g, round(g)),
        digit_cands(round(g)),
        total(round(g)) <= total(g),
        round(g) != g ==> total(round(g)) < total(g),
{
    lemma_flex_upto_shrinks(g, 27);
    lemma_cannon_upto_shrinks(flex_pass(g), 81);
    lemma_shrinks_trans(g, flex_pass(g), round(g));
    lemma_total_drops(g, round(g));
}

pub proof fn lemma_settle_shrinks(g: Seq<Seq<CellModel>>, fuel: nat)
    requires
        digit_cands(g),
    ensures
        shrinks(g, settle(g, fuel)),
        digit_cands(settle(g, fuel)),
    decreases fuel,
{
    if fuel == 0 || round(g) == g {
        lemma_shrinks_refl(g);
    } else {
        lemma_round_shrinks(g);
        lemma_settle_shrinks(round(g), (fuel - 1) as nat);
        lemma_shrinks_trans(g, round(g), settle(g, fuel));
    }
}

pub proof fn lemma_wf_shrinks(g1: Seq<Seq<CellModel>>, g2: Seq<Seq<CellModel>>)
    requires
        wf(g1),
        shrinks(g1, g2),
    ensures
        wf(g2),
{
    assert forall|r: int, c: int|
        0 <= r < 9 && 0 <= c < 9 && (#[trigger] g2[r][c]).value is Some implies g2[r][c].cands
            =~= Set::<u8>::empty() by {
        assert(g1[r][c].value is Some);
        assert(g1[r][c].cands =~= Set::<u8>::empty());
    }
}

pub proof fn lemma_initial_digits(g: Seq<Seq<CellModel>>)
    requires
        digit_cands(g),
    ensures
        digit_cands(initial(g)),
        wf(g) ==> wf(initial(g)),
{
}

impl Puzzle {
    /// Gives every cell without a value the digits that no peer holds, then
    /// narrows the candidates with the pinned-subset and locked-candidate
    /// rules until a whole round of both changes nothing.
    pub fn assign_candidates(&mut self)
        ensures
            final(self)@ == propagated(old(self)@),
            round(final(self)@) == final(self)@,
            shrinks(initial(old(self)@), final(self)@),
            wf(old(self)@) ==> wf(final(self)@),
    {
        proof {
            lemma_view_digits(*self);
        }
        self.initial_candidates();
        let ghost start = self@;
        let ghost mut fuel: nat = 730;
        proof {
            lemma_view_digits(*self);
            lemma_total_drops(start, start);
            lemma_shrinks_refl(start);
        }
        let mut done = false;
        while !done
            invariant
                digit_cands(start),
                digit_cands(self@),
                shrinks(start, self@),
                settle(start, 730) == settle(self@, fuel),
                fuel >= 1 + total(self@),
                done ==> round(self@) == self@,
            decreases total(self@) + if done { 0int } else { 1int },
        {
            let ghost cur = self@;
            proof {
                lemma_round_shrinks(cur);
                lemma_flex_upto_shrinks(cur, 27);
                lemma_cannon_upto_shrinks(flex_pass(cur), 81);
                lemma_total_drops(cur, flex_pass(cur));
                lemma_total_drops(flex_pass(cur), round(cur));
                lemma_total_drops(cur, cur);
            }
            let flex_count = self.reduce_candidates_with_sara_flex();
            let hit_count = self.reduce_candidates_using_water_cannon();
            if flex_count == 0 && hit_count == 0 {
                done = true;
            } else {
                proof {
                    lemma_shrinks_trans(start, cur, round(cur));
                    fuel = (fuel - 1) as nat;
                }
            }
        }
        proof {
            lemma_settle_shrinks(start, 730);
        }
    }
}

/// Propagation reaches a point that a second propagation leaves as it is:
/// run twice with nothing between, the second run changes no candidate.
pub proof fn lemma_propagation_idempotent(g: Seq<Seq<CellModel>>)
    requires
        wf(g),
        digit_cands(g),
    ensures
        propagated(propagated(g)) == propagated(g),
{
    lemma_initial_digits(g);
    lemma_settle_shrinks(initial(g), 730);
    let p = propagated(g);
    lemma_wf_shrinks(initial(g), p);
    assert(initial(p) =~~= initial(g)) by {
        assert forall|r: int, c: int| 0 <= r < 9 && 0 <= c < 9 implies #[trigger] initial(p)[r][c]
            == initial(g)[r][c] by {
            assert(p[r][c].value == g[r][c].value);
            assert(p[r][c].given == g[r][c].given);
            assert forall|q: int| 0 <= q < 27 implies #[trigger] group_values(p, q) == group_values(g, q) by {
                assert(group_values(p, q) =~= group_values(g, q)) by {
                    lemma_group_geometry();
                    assert forall|d: u8| group_values(p, q).contains(d) == group_values(g, q).contains(d) by {
                        if group_values(p, q).contains(d) {
                            let k = choose|k: int| 0 <= k < 9 && #[trigger] group_cell(p, q, k).value == Some(d);
                            assert(group_cell(g, q, k).value == Some(d));
                        }
                        if group_values(g, q).contains(d) {
                            let k = choose|k: int| 0 <= k < 9 && #[trigger] group_cell(g, q, k).value == Some(d);
                            assert(group_cell(p, q, k).value == Some(d));
                        }
                    }
                }
            }
            lemma_block_of_range(r, c);
            assert(group_values(p, r) == group_values(g, r));
            assert(group_values(p, 9 + c) == group_values(g, 9 + c));
            assert(group_values(p, 18 + block_of(r, c)) == group_values(g, 18 + block_of(r, c)));
            if g[r][c].value is Some {
                assert(p[r][c].cands =~= g[r][c].cands);
            }
        }
    }
}

proof fn lemma_block_of_range(r: int, c: int)
    requires
        0 <= r < 9,
        0 <= c < 9,
    ensures
        0 <= block_of(r, c) < 9,
{
}

} // verus!
