use vstd::prelude::*;
use crate::cell::CellModel;
use crate::consolidate::{
    Consolidation, consolidated, filled, fills_some, keeps_values, lemma_consolidated,
};
use crate::grid::{Puzzle, set_cell, wf};
use crate::propagate::{
    digit_cands, initial, lemma_initial_digits, lemma_settle_shrinks, lemma_view_digits,
    lemma_wf_shrinks, propagated,
};
use crate::status::{PuzzleStatus, status_of};

verus! {

/// One engine step: propagation, then one consolidation.
pub open spec fn stepped(g: Seq<Seq<CellModel>>) -> (Seq<Seq<CellModel>>, Seq<Consolidation>) {
    consolidated(propagated(g))
}

/// A status at which solving stops.
pub open spec fn is_final(s: PuzzleStatus) -> bool {
    s matches PuzzleStatus::Solved || s matches PuzzleStatus::IllDefined(_)
}

/// Steps repeated until one assigns nothing or the status is solved or
/// ill-defined, for at most `fuel` further steps.
pub open spec fn solve_upto(g: Seq<Seq<CellModel>>, fuel: nat) -> Seq<Seq<CellModel>>
    decreases fuel,
{
    let (g1, records) = stepped(g);
    if fuel == 0 || records.len() == 0 || is_final(status_of(g1)) {
        g1
    } else {
        solve_upto(g1, (fuel - 1) as nat)
    }
}

/// The grid that solving reaches (each step that goes on assigns a value
/// to one of at most 81 open cells, so 82 steps always suffice).
pub open spec fn solved(g: Seq<Seq<CellModel>>) -> Seq<Seq<CellModel>> {
    solve_upto(g, 82)
}

/// How many of the first `n` cells, row-major, have no value.
pub open spec fn open_upto(g: Seq<Seq<CellModel>>, n: int) -> nat
    decreases n,
{
    if n <= 0 {
        0
    } else {
        open_upto(g, n - 1) + if g[(n - 1) / 9][(n - 1) % 9].value is None {
            1nat
        } else {
            0nat
        }
    }
}

/// How many cells have no value.
pub open spec fn open_cells(g: Seq<Seq<CellModel>>) -> nat {
    open_upto(g, 81)
}

proof fn lemma_open_mono(g1: Seq<Seq<CellModel>>, g2: Seq<Seq<CellModel>>, n: int)
    requires
        keeps_values(g1, g2),
        0 <= n <= 81,
    ensures
        open_upto(g2, n) <= open_upto(g1, n),
        open_upto(g1, n) <= n,
        (exists|t: int|
            0 <= t < n && (#[trigger] g1[t / 9][t % 9]).value is None && g2[t / 9][t % 9].value is Some)
            ==> open_upto(g2, n) < open_upto(g1, n),
    decreases n,
{
    if n > 0 {
        lemma_open_mono(g1, g2, n - 1);
        if exists|t: int|
            0 <= t < n && (#[trigger] g1[t / 9][t % 9]).value is None && g2[t / 9][t % 9].value is Some {
            let t = choose|t: int|
                0 <= t < n && (#[trigger] g1[t / 9][t % 9]).value is None && g2[t / 9][t % 9].value is Some;
            if t < n - 1 {
                assert(exists|t: int|
                    0 <= t < n - 1 && (#[trigger] g1[t / 9][t % 9]).value is None && g2[t / 9][t
                        % 9].value is Some);
            }
        }
    }
}

proof fn lemma_fills_drop(g1: Seq<Seq<CellModel>>, g2: Seq<Seq<CellModel>>)
    requires
        keeps_values(g1, g2),
    ensures
        open_cells(g2) <= open_cells(g1),
        open_cells(g1) <= 81,
        fills_some(g1, g2) ==> open_cells(g2) < open_cells(g1),
{
    lemma_open_mono(g1, g2, 81);
    if fills_some(g1, g2) {
        let (r, c) = choose|r: int, c: int|
            0 <= r < 9 && 0 <= c < 9 && (#[trigger] g1[r][c]).value is None && g2[r][c].value is Some;
        let t = r * 9 + c;
        assert(t / 9 == r && t % 9 == c);
        assert(g1[t / 9][t % 9].value is None && g2[t / 9][t % 9].value is Some);
        lemma_open_mono(g1, g2, 81);
    }
}

proof fn lemma_keeps_trans(g1: Seq<Seq<CellModel>>, g2: Seq<Seq<CellModel>>, g3: Seq<Seq<CellModel>>)
    requires
        keeps_values(g1, g2),
        keeps_values(g2, g3),
    ensures
        keeps_values(g1, g3),
{
    assert forall|r: int, c: int|
        0 <= r < 9 && 0 <= c < 9 && (#[trigger] g1[r][c]).value is Some implies g3[r][c].value
            == g1[r][c].value by {
        assert(g2[r][c].value == g1[r][c].value);
    }
}

/// A step keeps the invariant and every value; when it reports an
/// assignment, fewer cells are left without a value.
pub proof fn lemma_step(g: Seq<Seq<CellModel>>)
    requires
        wf(g),
        digit_cands(g),
    ensures
        wf(stepped(g).0),
        keeps_values(g, stepped(g).0),
        open_cells(stepped(g).0) <= open_cells(g),
        open_cells(g) <= 81,
        stepped(g).1.len() > 0 ==> open_cells(stepped(g).0) < open_cells(g),
{
    lemma_initial_digits(g);
    lemma_settle_shrinks(initial(g), 730);
    let p = propagated(g);
    lemma_wf_shrinks(initial(g), p);
    assert(keeps_values(g, p));
    lemma_consolidated(p);
    lemma_keeps_trans(g, p, stepped(g).0);
    lemma_fills_drop(g, stepped(g).0);
    if stepped(g).1.len() > 0 {
        lemma_fills_drop(p, stepped(g).0);
        lemma_fills_drop(g, p);
    }
}

impl Puzzle {
    /// Propagates candidates to their fixpoint, then consolidates once;
    /// returns the assignments made.
    pub fn step(&mut self) -> (r: Vec<Consolidation>)
        ensures
            (final(self)@, r@) == stepped(old(self)@),
            wf(old(self)@) ==> wf(final(self)@),
    {
        self.assign_candidates();
        proof {
            if wf(self@) {
                lemma_consolidated(self@);
            }
        }
        self.consolidate_candidates()
    }

    /// Steps until a step assigns nothing, or the puzzle is solved or
    /// ill-defined.
    pub fn solve(&mut self)
        requires
            wf(old(self)@),
        ensures
            final(self)@ == solved(old(self)@),
            wf(final(self)@),
            keeps_values(old(self)@, final(self)@),
            open_cells(final(self)@) <= open_cells(old(self)@),
    {
        let ghost start = self@;
        let ghost mut fuel: nat = 82;
        proof {
            lemma_view_digits(*self);
            assert(keeps_values(start, start));
            lemma_fills_drop(start, start);
        }
        let mut done = false;
        while !done
            invariant
                wf(self@),
                keeps_values(start, self@),
                open_cells(start) <= 81,
                !done ==> solve_upto(start, 82) == solve_upto(self@, fuel) && fuel >= 1 + open_cells(
                    self@,
                ),
                done ==> self@ == solve_upto(start, 82),
            decreases open_cells(self@) + if done {
                0int
            } else {
                1int
            },
        {
            let ghost cur = self@;
            proof {
                lemma_view_digits(*self);
                lemma_step(cur);
                lemma_keeps_trans(start, cur, stepped(cur).0);
            }
            let progress = self.step();
            if progress.len() == 0 {
                done = true;
            } else {
                match self.status() {
                    PuzzleStatus::Solved => {
                        done = true;
                    },
                    PuzzleStatus::IllDefined(_) => {
                        done = true;
                    },
                    PuzzleStatus::Unsolved => {
                        proof {
                            fuel = (fuel - 1) as nat;
                        }
                    },
                }
            }
        }
        proof {
            lemma_fills_drop(start, self@);
        }
    }
}

/// In row-major order, the `t`-th cell lists a candidate.
pub open spec fn has_open(g: Seq<Seq<CellModel>>, t: int) -> bool {
    g[t / 9][t % 9].cands != Set::<u8>::empty()
}

/// The last cell, in row-major order, that lists a candidate.
#[verifier::opaque]
pub open spec fn last_open(g: Seq<Seq<CellModel>>) -> Option<int> {
    if exists|t: int| 0 <= t < 81 && #[trigger] has_open(g, t) {
        Some(
            choose|t: int|
                0 <= t < 81 && #[trigger] has_open(g, t) && forall|u: int|
                    t < u < 81 ==> !#[trigger] has_open(g, u),
        )
    } else {
        None
    }
}

/// The grid with digit `d` placed in the `t`-th cell.
pub open spec fn guessed(g: Seq<Seq<CellModel>>, t: int, d: u8) -> Seq<Seq<CellModel>> {
    set_cell(g, t / 9, t % 9, filled(g[t / 9][t % 9], d))
}

/// Guess-and-backtrack search from a stalled grid: the guesses are the
/// candidates of the last cell that lists any, tried from the largest down.
/// A guess that solves wins; one that is ill-defined is dropped; one left
/// unsolved is searched in turn. `depth` bounds the depth.
pub open spec fn search(g: Seq<Seq<CellModel>>, depth: nat) -> Option<Seq<Seq<CellModel>>>
    decreases depth, 10nat,
{
    match last_open(g) {
        None => None,
        Some(t) => try_guesses(g, t, 9, depth),
    }
}

/// The search over the guesses `d, d - 1, ..., 1` for the `t`-th cell.
pub open spec fn try_guesses(g: Seq<Seq<CellModel>>, t: int, d: nat, depth: nat) -> Option<
    Seq<Seq<CellModel>>,
>
    decreases depth, d,
{
    if d == 0 {
        None
    } else if !g[t / 9][t % 9].cands.contains(d as u8) {
        try_guesses(g, t, (d - 1) as nat, depth)
    } else if guess_outcome(g, t, d as u8, depth) is Some {
        guess_outcome(g, t, d as u8, depth)
    } else {
        try_guesses(g, t, (d - 1) as nat, depth)
    }
}

/// What guessing `d` for the `t`-th cell gives: the solved grid if solving
/// after the guess solves it, nothing if that is ill-defined, else the
/// search from there.
pub open spec fn guess_outcome(g: Seq<Seq<CellModel>>, t: int, d: u8, depth: nat) -> Option<
    Seq<Seq<CellModel>>,
>
    decreases depth, 0nat,
{
    let trial = solved(guessed(g, t, d));
    match status_of(trial) {
        PuzzleStatus::Solved => Some(trial),
        PuzzleStatus::IllDefined(_) => None,
        PuzzleStatus::Unsolved => if depth == 0 {
            None
        } else {
            search(trial, (depth - 1) as nat)
        },
    }
}

/// What the search finds: every cell without a value can take one guess,
/// so depth `open_cells(g) + 1` always suffices.
pub open spec fn search_result(g: Seq<Seq<CellModel>>) -> Option<Seq<Seq<CellModel>>> {
    search(g, open_cells(g) + 1)
}

pub open spec fn puzzle_view(r: Option<Puzzle>) -> Option<Seq<Seq<CellModel>>> {
    match r {
        Some(q) => Some(q@),
        None => None,
    }
}

proof fn lemma_search_start(g: Seq<Seq<CellModel>>, p: int)
    requires
        last_open(g) == Some(p),
    ensures
        forall|fuel: nat| #[trigger] search(g, fuel) == try_guesses(g, p, 9, fuel),
{
}

proof fn lemma_search_none(g: Seq<Seq<CellModel>>)
    requires
        last_open(g) is None,
    ensures
        forall|fuel: nat| #[trigger] search(g, fuel) is None,
{
}

proof fn lemma_try_step(g: Seq<Seq<CellModel>>, p: int, d: nat, has: bool, outcome: Option<Seq<Seq<CellModel>>>)
    requires
        d > 0,
        has == g[p / 9][p % 9].cands.contains(d as u8),
        has ==> forall|fuel: nat| fuel > open_cells(g) ==> #[trigger] guess_outcome(g, p, d as u8, fuel) == outcome,
    ensures
        forall|fuel: nat| fuel > open_cells(g) ==> #[trigger] try_guesses(g, p, d, fuel) == if has && outcome is Some {
            outcome
        } else {
            try_guesses(g, p, (d - 1) as nat, fuel)
        },
{
    assert forall|fuel: nat| fuel > open_cells(g) implies #[trigger] try_guesses(g, p, d, fuel) == if has && outcome is Some {
        outcome
    } else {
        try_guesses(g, p, (d - 1) as nat, fuel)
    } by {
        assert(try_guesses(g, p, d, fuel) == if !g[p / 9][p % 9].cands.contains(d as u8) {
            try_guesses(g, p, (d - 1) as nat, fuel)
        } else if guess_outcome(g, p, d as u8, fuel) is Some {
            guess_outcome(g, p, d as u8, fuel)
        } else {
            try_guesses(g, p, (d - 1) as nat, fuel)
        });
        if has {
            assert(guess_outcome(g, p, d as u8, fuel) == outcome);
        }
    }
}

proof fn lemma_last_open(g: Seq<Seq<CellModel>>, t: int)
    requires
        0 <= t < 81,
        has_open(g, t),
        forall|u: int| t < u < 81 ==> !#[trigger] has_open(g, u),
    ensures
        last_open(g) == Some(t),
{
    reveal(last_open);
    let w = choose|w: int|
        0 <= w < 81 && #[trigger] has_open(g, w) && forall|u: int| w < u < 81 ==> !#[trigger] has_open(g, u);
    if w < t {
        assert(!has_open(g, t));
    } else if t < w {
        assert(!has_open(g, w));
    }
}

/// Places `d` in the `p`-th cell of a stalled grid, solves, and searches
/// further if that leaves the grid unsolved.
fn try_guess(given_puzzle: Puzzle, p: usize, d: u8) -> (r: Option<Puzzle>)
    requires
        wf(given_puzzle@),
        p < 81,
        given_puzzle@[p as int / 9][p as int % 9].value is None,
    ensures
        forall|fuel: nat|
            fuel > open_cells(given_puzzle@) ==> puzzle_view(r) == #[trigger] guess_outcome(
                given_puzzle@,
                p as int,
                d,
                fuel,
            ),
        r matches Some(q) ==> status_of(q@) == PuzzleStatus::Solved,
    decreases open_cells(given_puzzle@), 0nat,
{
    let ghost g = given_puzzle@;
    let mut trial = given_puzzle;
    trial.set_number(p / 9, p % 9, d);
    let ghost guess = trial@;
    proof {
        assert(guess == guessed(g, p as int, d));
        assert(wf(guess));
        assert(keeps_values(g, guess));
        assert(g[p as int / 9][p as int % 9].value is None && guess[p as int / 9][p as int % 9].value is Some);
        assert(fills_some(g, guess));
        lemma_fills_drop(g, guess);
    }
    trial.solve();
    proof {
        lemma_fills_drop(guess, trial@);
    }
    match trial.status() {
        PuzzleStatus::Solved => Some(trial),
        PuzzleStatus::IllDefined(_) => None,
        PuzzleStatus::Unsolved => {
            let res = solve_with_guesses(trial);
            assert forall|fuel: nat| fuel > open_cells(g) implies puzzle_view(res) == #[trigger] guess_outcome(
                g,
                p as int,
                d,
                fuel,
            ) by {
                assert(trial@ == solved(guessed(g, p as int, d)));
                assert(status_of(trial@) == PuzzleStatus::Unsolved);
                assert(fuel - 1 > open_cells(trial@));
                assert(search(trial@, (fuel - 1) as nat) == puzzle_view(res));
                assert(guess_outcome(g, p as int, d, fuel) == search(trial@, (fuel - 1) as nat));
            }
            res
        },
    }
}

/// Returns a solved grid reached by guessing values for the last cell that
/// still lists candidates (largest first), solving after each guess and
/// searching further where that leaves the grid unsolved; `None` when no
/// guess leads to a solved grid.
pub fn solve_with_guesses(given_puzzle: Puzzle) -> (r: Option<Puzzle>)
    requires
        wf(given_puzzle@),
    ensures
        puzzle_view(r) == search_result(given_puzzle@),
        forall|fuel: nat|
            fuel > open_cells(given_puzzle@) ==> puzzle_view(r) == #[trigger] search(given_puzzle@, fuel),
        r matches Some(q) ==> status_of(q@) == PuzzleStatus::Solved,
    decreases open_cells(given_puzzle@), 1nat,
{
    let ghost g = given_puzzle@;
    let mut pivot: Option<usize> = None;
    let mut t: usize = 0;
    while t < 81
        invariant
            t <= 81,
            g == given_puzzle@,
            pivot matches Some(p) ==> p < t && has_open(g, p as int) && forall|u: int|
                p < u < t ==> !#[trigger] has_open(g, u),
            pivot is None ==> forall|u: int| 0 <= u < t ==> !#[trigger] has_open(g, u),
        decreases 81 - t,
    {
        if !given_puzzle.cell(t / 9, t % 9).has_no_candidates() {
            pivot = Some(t);
        }
        t += 1;
    }
    let p = match pivot {
        None => {
            proof {
                reveal(last_open);
                lemma_search_none(g);
            }
            return None;
        },
        Some(p) => p,
    };
    proof {
        lemma_last_open(g, p as int);
        lemma_search_start(g, p as int);
    }
    let (row, col) = (p / 9, p % 9);
    let cell = given_puzzle.cell(row, col);
    proof {
        lemma_fills_drop(g, g);
        if g[row as int][col as int].value is Some {
            assert(g[row as int][col as int].cands =~= Set::<u8>::empty());
        }
    }
    let mut d: u8 = 9;
    while d > 0
        invariant
            d <= 9,
            g == given_puzzle@,
            wf(g),
            p < 81,
            row == p / 9,
            col == p % 9,
            cell@ == g[row as int][col as int],
            g[row as int][col as int].value is None,
            forall|fuel: nat| fuel > open_cells(g) ==> #[trigger] search(g, fuel) == try_guesses(g, p as int, d as nat, fuel),
        decreases d,
    {
        let has = cell.has_candidate(d);
        if has {
            let outcome = try_guess(given_puzzle, p, d);
            proof {
                lemma_try_step(g, p as int, d as nat, has, puzzle_view(outcome));
            }
            if outcome.is_some() {
                return outcome;
            }
        } else {
            proof {
                lemma_try_step(g, p as int, d as nat, has, None);
            }
        }
        d -= 1;
    }
    None
}

} // verus!
