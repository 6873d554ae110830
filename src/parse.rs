use vstd::prelude::*;
use vstd::string::StrSliceExecFns;
use crate::cell::{Cell, CellModel};
use crate::grid::{Puzzle, wf};

verus! {

/// The characters with Unicode's White_Space property.
pub open spec fn is_white_space(c: char) -> bool {
    ('\u{9}' <= c <= '\u{d}') || c == ' ' || c == '\u{85}' || c == '\u{a0}' || c == '\u{1680}'
        || ('\u{2000}' <= c <= '\u{200a}') || c == '\u{2028}' || c == '\u{2029}' || c == '\u{202f}'
        || c == '\u{205f}' || c == '\u{3000}'
}

fn white_space(c: char) -> (r: bool)
    ensures
        r == is_white_space(c),
{
    ('\u{9}' <= c && c <= '\u{d}') || c == ' ' || c == '\u{85}' || c == '\u{a0}' || c == '\u{1680}'
        || ('\u{2000}' <= c && c <= '\u{200a}') || c == '\u{2028}' || c == '\u{2029}' || c
        == '\u{202f}' || c == '\u{205f}' || c == '\u{3000}'
}

/// The text cut at each line feed; the last line is what follows the last one.
pub open spec fn lines_of(s: Seq<char>) -> Seq<Seq<char>>
    decreases s.len(),
{
    if s.len() == 0 {
        seq![Seq::<char>::empty()]
    } else {
        let prev = lines_of(s.drop_last());
        if s.last() == '\n' {
            prev.push(Seq::<char>::empty())
        } else {
            prev.update(prev.len() - 1, prev.last().push(s.last()))
        }
    }
}

/// Without leading white space.
pub open spec fn trim_start(s: Seq<char>) -> Seq<char>
    decreases s.len(),
{
    if s.len() > 0 && is_white_space(s[0]) {
        trim_start(s.subrange(1, s.len() as int))
    } else {
        s
    }
}

/// Without trailing white space.
pub open spec fn trim_end(s: Seq<char>) -> Seq<char>
    decreases s.len(),
{
    if s.len() > 0 && is_white_space(s.last()) {
        trim_end(s.drop_last())
    } else {
        s
    }
}

pub open spec fn trim(s: Seq<char>) -> Seq<char> {
    trim_end(trim_start(s))
}

/// The lines that hold something besides white space, trimmed, in order.
pub open spec fn rows_of(lines: Seq<Seq<char>>) -> Seq<Seq<char>>
    decreases lines.len(),
{
    if lines.len() == 0 {
        Seq::empty()
    } else {
        let prev = rows_of(lines.drop_last());
        if trim(lines.last()).len() > 0 {
            prev.push(trim(lines.last()))
        } else {
            prev
        }
    }
}

/// A character that stands for a value.
pub open spec fn is_digit_char(c: char) -> bool {
    '1' <= c <= '9'
}

pub open spec fn digit_value(c: char) -> u8 {
    (c as u32 - '0' as u32) as u8
}

/// The cell that character `k` of a row gives: a given value for a digit
/// 1 to 9, a blank cell for anything else or for a missing character.
pub open spec fn cell_from(row: Seq<char>, k: int) -> CellModel {
    if k < row.len() && is_digit_char(row[k]) {
        CellModel { value: Some(digit_value(row[k])), given: true, cands: Set::empty() }
    } else {
        CellModel { value: None, given: false, cands: Set::empty() }
    }
}

/// The grid that the first nine rows give.
pub open spec fn grid_of_rows(rows: Seq<Seq<char>>) -> Seq<Seq<CellModel>> {
    Seq::new(
        9,
        |r: int|
            Seq::new(
                9,
                |c: int|
                    if r < rows.len() {
                        cell_from(rows[r], c)
                    } else {
                        cell_from(Seq::empty(), c)
                    },
            ),
    )
}

/// The grid that a puzzle text describes.
pub open spec fn parsed(s: Seq<char>) -> Seq<Seq<CellModel>> {
    grid_of_rows(rows_of(lines_of(s)))
}

proof fn lemma_lines_len(s: Seq<char>)
    ensures
        lines_of(s).len() >= 1,
    decreases s.len(),
{
    if s.len() > 0 {
        lemma_lines_len(s.drop_last());
    }
}

proof fn lemma_trim_start(s: Seq<char>, a: int)
    requires
        0 <= a <= s.len(),
        forall|j: int| 0 <= j < a ==> is_white_space(#[trigger] s[j]),
        a == s.len() || !is_white_space(s[a]),
    ensures
        trim_start(s) == s.subrange(a, s.len() as int),
    decreases a,
{
    if a == 0 {
        assert(s.subrange(0, s.len() as int) =~= s);
    } else {
        let t = s.subrange(1, s.len() as int);
        assert forall|j: int| 0 <= j < a - 1 implies is_white_space(#[trigger] t[j]) by {
            assert(t[j] == s[j + 1]);
        }
        if a - 1 < t.len() {
            assert(t[a - 1] == s[a]);
        }
        lemma_trim_start(t, a - 1);
        assert(t.subrange(a - 1, t.len() as int) =~= s.subrange(a, s.len() as int));
    }
}

proof fn lemma_trim_end(s: Seq<char>, e: int)
    requires
        0 <= e <= s.len(),
        forall|j: int| e <= j < s.len() ==> is_white_space(#[trigger] s[j]),
        e == 0 || !is_white_space(s[e - 1]),
    ensures
        trim_end(s) == s.subrange(0, e),
    decreases s.len() - e,
{
    if e == s.len() {
        assert(s.subrange(0, e) =~= s);
    } else {
        let t = s.drop_last();
        assert forall|j: int| e <= j < t.len() implies is_white_space(#[trigger] t[j]) by {
            assert(t[j] == s[j]);
        }
        if e > 0 {
            assert(t[e - 1] == s[e - 1]);
        }
        lemma_trim_end(t, e);
        assert(t.subrange(0, e) =~= s.subrange(0, e));
    }
}

/// Characters `a..e` of `line`, where `a` skips the leading and `e` drops
/// the trailing white space.
fn trimmed_bounds(line: &Vec<char>) -> (r: (usize, usize))
    ensures
        r.0 <= r.1 <= line@.len(),
        trim(line@) == line@.subrange(r.0 as int, r.1 as int),
{
    let mut a: usize = 0;
    while a < line.len() && white_space(line[a])
        invariant
            a <= line@.len(),
            forall|j: int| 0 <= j < a ==> is_white_space(#[trigger] line@[j]),
        decreases line.len() - a,
    {
        a += 1;
    }
    proof {
        lemma_trim_start(line@, a as int);
    }
    let ghost t = line@.subrange(a as int, line@.len() as int);
    let mut e: usize = line.len();
    while e > a && white_space(line[e - 1])
        invariant
            a <= e <= line@.len(),
            t == line@.subrange(a as int, line@.len() as int),
            forall|j: int| e <= j < line@.len() ==> is_white_space(#[trigger] line@[j]),
        decreases e,
    {
        e -= 1;
    }
    proof {
        assert forall|j: int| e - a <= j < t.len() implies is_white_space(#[trigger] t[j]) by {
            assert(t[j] == line@[j + a]);
        }
        if e > a {
            assert(t[e - a - 1] == line@[e - 1]);
        }
        lemma_trim_end(t, e - a);
        assert(t.subrange(0, e - a) =~= line@.subrange(a as int, e as int));
    }
    (a, e)
}

impl Puzzle {
    /// Fills row `row` from the characters `a..e` of `line`.
    fn fill_row(&mut self, row: usize, line: &Vec<char>, a: usize, e: usize)
        requires
            row < 9,
            a <= e <= line@.len(),
        ensures
            forall|r: int, c: int|
                0 <= r < 9 && 0 <= c < 9 ==> #[trigger] final(self)@[r][c] == if r == row {
                    cell_from(line@.subrange(a as int, e as int), c)
                } else {
                    old(self)@[r][c]
                },
    {
        let ghost text = line@.subrange(a as int, e as int);
        let mut k: usize = 0;
        while k < 9
            invariant
                k <= 9,
                row < 9,
                a <= e <= line@.len(),
                text == line@.subrange(a as int, e as int),
                forall|r: int, c: int|
                    0 <= r < 9 && 0 <= c < 9 ==> #[trigger] self@[r][c] == if r == row && c < k {
                        cell_from(text, c)
                    } else {
                        old(self)@[r][c]
                    },
            decreases 9 - k,
        {
            let cell = if k < e - a && '1' <= line[a + k] && line[a + k] <= '9' {
                Cell::with_number((line[a + k] as u32 - '0' as u32) as u8)
            } else {
                Cell::blank()
            };
            assert(k < text.len() ==> text[k as int] == line@[a + k]);
            assert(cell@ == cell_from(text, k as int));
            self.put(row, k, cell);
            k += 1;
        }
    }

    /// Adds a finished line: its trimmed text becomes the next row if it
    /// holds anything and fewer than nine rows were read.
    fn end_line(&mut self, row: &mut usize, line: &Vec<char>, done: Ghost<Seq<Seq<char>>>)
        requires
            old(self)@ == grid_of_rows(rows_of(done@)),
            *old(row) == if rows_of(done@).len() < 9 { rows_of(done@).len() } else { 9 },
        ensures
            final(self)@ == grid_of_rows(rows_of(done@.push(line@))),
            *final(row) == if rows_of(done@.push(line@)).len() < 9 {
                rows_of(done@.push(line@)).len()
            } else {
                9
            },
    {
        let (a, e) = trimmed_bounds(line);
        let ghost prev_rows = rows_of(done@);
        let ghost d2 = done@.push(line@);
        assert(d2.drop_last() =~= done@);
        assert(d2.last() == line@);
        if a < e {
            assert(rows_of(d2) == prev_rows.push(trim(line@)));
            if *row < 9 {
                self.fill_row(*row, line, a, e);
                *row = *row + 1;
            }
        }
        assert(self@ =~~= grid_of_rows(rows_of(d2)));
    }

    /// Reads a puzzle: each of the first nine lines that hold more than
    /// white space is a row, trimmed; character `k` of it is column `k`, a
    /// given value if it is a digit 1 to 9 and blank otherwise.
    pub fn parse(input: &str) -> (r: Puzzle)
        ensures
            r@ == parsed(input@),
            wf(r@),
    {
        let mut puzzle = Puzzle::blank();
        let n = input.unicode_len();
        let mut line: Vec<char> = Vec::new();
        let ghost mut done: Seq<Seq<char>> = Seq::empty();
        let mut row: usize = 0;
        let mut i: usize = 0;
        proof {
            assert(input@.subrange(0, 0) =~= Seq::<char>::empty());
            assert(puzzle@ =~~= grid_of_rows(rows_of(done)));
        }
        while i < n
            invariant
                n == input@.len(),
                i <= n,
                lines_of(input@.subrange(0, i as int)) == done.push(line@),
                puzzle@ == grid_of_rows(rows_of(done)),
                row == if rows_of(done).len() < 9 { rows_of(done).len() } else { 9 },
            decreases n - i,
        {
            let c = input.get_char(i);
            proof {
                lemma_lines_len(input@.subrange(0, i as int));
                let pre = input@.subrange(0, i + 1);
                assert(pre.drop_last() =~= input@.subrange(0, i as int));
                assert(pre.last() == c);
            }
            if c == '\n' {
                puzzle.end_line(&mut row, &line, Ghost(done));
                proof {
                    done = done.push(line@);
                }
                line = Vec::new();
                proof {
                    assert(lines_of(input@.subrange(0, i + 1)) =~= done.push(line@));
                }
            } else {
                line.push(c);
                proof {
                    assert(lines_of(input@.subrange(0, i + 1)) =~= done.push(line@));
                }
            }
            i += 1;
        }
        puzzle.end_line(&mut row, &line, Ghost(done));
        assert(input@.subrange(0, n as int) =~= input@);
        assert(wf(puzzle@));
        puzzle
    }
}

} // verus!
