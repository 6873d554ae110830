use vstd::prelude::*;

verus! {

/// A value that may stand in a cell.
pub open spec fn is_digit(d: u8) -> bool {
    1 <= d <= 9
}

/// The mathematical model of a cell.
pub struct CellModel {
    pub value: Option<u8>,
    pub given: bool,
    pub cands: Set<u8>,
}

/// The members of `s` among `1..=n`, in ascending order.
pub open spec fn ascending_upto(s: Set<u8>, n: nat) -> Seq<u8>
    decreases n,
{
    if n == 0 {
        Seq::empty()
    } else {
        let prev = ascending_upto(s, (n - 1) as nat);
        if s.contains(n as u8) {
            prev.push(n as u8)
        } else {
            prev
        }
    }
}

/// The candidates of a cell, listed in ascending order.
pub open spec fn ascending(s: Set<u8>) -> Seq<u8> {
    ascending_upto(s, 9)
}

pub proof fn lemma_ascending_upto(s: Set<u8>, n: nat)
    requires
        n <= 9,
    ensures
        forall|x: u8| #[trigger]
            ascending_upto(s, n).contains(x) <==> (1 <= x <= n && s.contains(x)),
        forall|i: int, j: int|
            0 <= i < j < ascending_upto(s, n).len() ==> ascending_upto(s, n)[i]
                < ascending_upto(s, n)[j],
        forall|i: int|
            0 <= i < ascending_upto(s, n).len() ==> 1 <= #[trigger] ascending_upto(s, n)[i] <= n,
        ascending_upto(s, n).len() <= n,
    decreases n,
{
    if n > 0 {
        lemma_ascending_upto(s, (n - 1) as nat);
        let prev = ascending_upto(s, (n - 1) as nat);
        if s.contains(n as u8) {
            let cur = ascending_upto(s, n);
            assert(cur == prev.push(n as u8));
            assert forall|x: u8| #[trigger]
                cur.contains(x) <==> (1 <= x <= n && s.contains(x)) by {
                if x as int == n {
                    assert(cur[prev.len() as int] == x);
                    assert(cur.contains(x));
                } else {
                    if cur.contains(x) {
                        let k = choose|k: int| 0 <= k < cur.len() && cur[k] == x;
                        if k == prev.len() {
                            assert(cur[k] == n as u8);
                        }
                        assert(prev[k] == x);
                        assert(prev.contains(x));
                    }
                    if 1 <= x <= n && s.contains(x) {
                        assert(prev.contains(x));
                        let k = choose|k: int| 0 <= k < prev.len() && prev[k] == x;
                        assert(cur[k] == x);
                    }
                }
            }
        } else {
            assert forall|x: u8| #[trigger]
                ascending_upto(s, n).contains(x) <==> (1 <= x <= n && s.contains(x)) by {
                if 1 <= x <= n && s.contains(x) {
                    assert(x != n as u8);
                }
            }
        }
    }
}

/// Candidates that are all digits are kept as a set; anything else is dropped.
pub open spec fn digit_set(s: Seq<u8>) -> Set<u8> {
    s.to_set().filter(|d: u8| is_digit(d))
}

/// One of the 81 squares: a given or assigned value, or the values still
/// open to it.
#[derive(Clone, Copy, Debug)]
pub struct Cell {
    pub(crate) number: Option<u8>,
    pub(crate) given: bool,
    /// `candidates[d - 1]` holds whether `d` is still open.
    pub(crate) candidates: [bool; 9],
}

impl View for Cell {
    type V = CellModel;

    open(crate) spec fn view(&self) -> CellModel {
        CellModel {
            value: self.number,
            given: self.given,
            cands: Set::new(|d: u8| is_digit(d) && self.candidates@[d - 1]),
        }
    }
}

impl Cell {
    /// A blank cell with no candidates recorded yet.
    pub fn blank() -> (r: Cell)
        ensures
            r@ == (CellModel { value: None, given: false, cands: Set::empty() }),
    {
        let r = Cell { number: None, given: false, candidates: [false; 9] };
        assert(r@.cands =~= Set::empty());
        r
    }

    /// A cell whose value was given.
    pub fn with_number(number: u8) -> (r: Cell)
        ensures
            r@ == (CellModel { value: Some(number), given: true, cands: Set::empty() }),
    {
        let r = Cell { number: Some(number), given: true, candidates: [false; 9] };
        assert(r@.cands =~= Set::empty());
        r
    }

    /// An open cell with the given candidates.
    pub fn with_candidates(candidates: Vec<u8>) -> (r: Cell)
        ensures
            r@ == (CellModel { value: None, given: false, cands: digit_set(candidates@) }),
    {
        let mut initial = Cell::blank();
        initial.set_candidates(candidates);
        initial
    }

    /// The assigned value, if any.
    pub fn number(&self) -> (r: Option<u8>)
        ensures
            r == self@.value,
    {
        self.number
    }

    /// Whether the value was part of the puzzle as given.
    pub fn given(&self) -> (r: bool)
        ensures
            r == self@.given,
    {
        self.given
    }

    /// Whether `d` is a candidate of this cell.
    pub fn has_candidate(&self, d: u8) -> (r: bool)
        ensures
            r == self@.cands.contains(d),
    {
        if 1 <= d && d <= 9 {
            self.candidates[(d - 1) as usize]
        } else {
            false
        }
    }

    /// The candidates in ascending order.
    pub fn candidates_as_vec(&self) -> (r: Vec<u8>)
        ensures
            r@ == ascending(self@.cands),
    {
        let mut r: Vec<u8> = Vec::new();
        let mut i: usize = 0;
        while i < 9
            invariant
                i <= 9,
                r@ == ascending_upto(self@.cands, i as nat),
            decreases 9 - i,
        {
            let d: u8 = (i + 1) as u8;
            if self.candidates[i] {
                r.push(d);
            }
            assert(self@.cands.contains(d) == self.candidates@[i as int]);
            i += 1;
        }
        r
    }

    /// Drops `number` from the candidates; tells whether it was one.
    pub fn remove_candidate(&mut self, number: u8) -> (r: bool)
        ensures
            r == old(self)@.cands.contains(number),
            final(self)@ == (CellModel { cands: old(self)@.cands.remove(number), ..old(self)@ }),
    {
        if 1 <= number && number <= 9 && self.candidates[(number - 1) as usize] {
            self.candidates[(number - 1) as usize] = false;
            assert(self@.cands =~= old(self)@.cands.remove(number));
            true
        } else {
            assert(self@.cands =~= old(self)@.cands.remove(number));
            false
        }
    }

    /// Replaces the candidates by the digits among `candidates`.
    pub fn set_candidates(&mut self, candidates: Vec<u8>)
        ensures
            final(self)@ == (CellModel { cands: digit_set(candidates@), ..old(self)@ }),
    {
        let mut flags: [bool; 9] = [false; 9];
        let mut i: usize = 0;
        while i < candidates.len()
            invariant
                i <= candidates@.len(),
                forall|d: u8|
                    is_digit(d) ==> (#[trigger] flags@[d - 1] <==> candidates@.subrange(
                        0,
                        i as int,
                    ).contains(d)),
            decreases candidates.len() - i,
        {
            let c = candidates[i];
            if 1 <= c && c <= 9 {
                flags[(c - 1) as usize] = true;
            }
            assert forall|d: u8| is_digit(d) implies (#[trigger] flags@[d - 1]
                <==> candidates@.subrange(0, i + 1).contains(d)) by {
                let sub = candidates@.subrange(0, i + 1);
                assert(sub =~= candidates@.subrange(0, i as int).push(c));
                if candidates@.subrange(0, i as int).contains(d) {
                    let k = choose|k: int|
                        0 <= k < i && candidates@.subrange(0, i as int)[k] == d;
                    assert(sub[k] == d);
                }
                if sub.contains(d) && d != c {
                    let k = choose|k: int| 0 <= k < i + 1 && sub[k] == d;
                    assert(candidates@.subrange(0, i as int)[k] == d);
                }
                if d == c {
                    assert(sub[i as int] == d);
                }
            }
            i += 1;
        }
        assert(candidates@.subrange(0, candidates@.len() as int) =~= candidates@);
        self.candidates = flags;
        assert(self@.cands =~= digit_set(candidates@));
    }

    /// Gives the cell a value and clears its candidates.
    pub fn assign(&mut self, number: u8)
        ensures
            final(self)@ == (CellModel { value: Some(number), cands: Set::empty(), ..old(self)@ }),
    {
        self.number = Some(number);
        self.candidates = [false; 9];
        assert(self@.cands =~= Set::empty());
    }

    /// Whether no candidate is listed.
    pub fn has_no_candidates(&self) -> (r: bool)
        ensures
            r == (self@.cands == Set::<u8>::empty()),
    {
        let mut i: usize = 0;
        while i < 9
            invariant
                i <= 9,
                forall|j: int| 0 <= j < i ==> !self.candidates@[j],
            decreases 9 - i,
        {
            if self.candidates[i] {
                let d: u8 = (i + 1) as u8;
                assert(self@.cands.contains(d));
                return false;
            }
            i += 1;
        }
        assert(self@.cands =~= Set::<u8>::empty());
        true
    }

    /// Whether two cells list the same candidates.
    pub fn same_candidates(&self, other: &Cell) -> (r: bool)
        ensures
            r == (self@.cands == other@.cands),
    {
        let mut i: usize = 0;
        while i < 9
            invariant
                i <= 9,
                forall|j: int| 0 <= j < i ==> self.candidates@[j] == other.candidates@[j],
            decreases 9 - i,
        {
            if self.candidates[i] != other.candidates[i] {
                let d: u8 = (i + 1) as u8;
                assert(self@.cands.contains(d) != other@.cands.contains(d));
                return false;
            }
            i += 1;
        }
        assert(self@.cands =~= other@.cands) by {
            assert forall|d: u8| is_digit(d) implies self.candidates@[d - 1]
                == other.candidates@[d - 1] by {}
        }
        true
    }
}

} // verus!
