//! The board: a square grid of cell values with a parallel mark mask.

use vstd::prelude::*;
use crate::error::BingoError;
use crate::parse::{row_valid, row_values, parse_row};

verus! {

/// The views of a sequence of row strings.
pub open spec fn string_views(rows: Seq<String>) -> Seq<Seq<char>> {
    rows.map_values(|r: String| r@)
}

/// Every token of every row reads as a `u32`.
pub open spec fn rows_valid(rows: Seq<Seq<char>>) -> bool {
    forall|i: int| 0 <= i < rows.len() ==> row_valid(#[trigger] rows[i])
}

/// The rows form a square grid of tolerable dimension: at least one row,
/// and every row holds exactly as many values as there are rows.
pub open spec fn square_shape(rows: Seq<Seq<char>>) -> bool {
    &&& 1 <= rows.len() <= 0xffff
    &&& forall|i: int| 0 <= i < rows.len() ==> row_values(#[trigger] rows[i]).len() == rows.len()
}

/// The rows' values laid out row-major.
pub open spec fn concat_rows(vals: Seq<Seq<u32>>) -> Seq<u32>
    decreases vals.len(),
{
    if vals.len() == 0 {
        Seq::empty()
    } else {
        concat_rows(vals.drop_last()) + vals.last()
    }
}

/// The views of a sequence of value rows.
pub open spec fn vec_views(vs: Seq<Vec<u32>>) -> Seq<Seq<u32>> {
    vs.map_values(|v: Vec<u32>| v@)
}

/// The value rows of the grid the text rows describe.
pub open spec fn grid_rows(rows: Seq<Seq<char>>) -> Seq<Seq<u32>> {
    rows.map_values(|r: Seq<char>| row_values(r))
}

/// The cell values of the grid the rows describe, row-major.
pub open spec fn grid_cells(rows: Seq<Seq<char>>) -> Seq<u32> {
    concat_rows(grid_rows(rows))
}

proof fn lemma_concat_rows_len(vals: Seq<Seq<u32>>, w: int)
    requires
        forall|k: int| 0 <= k < vals.len() ==> (#[trigger] vals[k]).len() == w,
    ensures
        concat_rows(vals).len() == vals.len() * w,
    decreases vals.len(),
{
    if vals.len() > 0 {
        lemma_concat_rows_len(vals.drop_last(), w);
        assert((vals.len() - 1) * w + w == vals.len() * w) by (nonlinear_arith);
    }
}

/// Mathematical model of a board: its cell values, its mark mask, and its
/// row/column dimension.
pub struct BoardModel {
    pub cells: Seq<u32>,
    pub marks: Seq<bool>,
    pub size: int,
}

/// Sum of the unmarked cells among the first `n` positions.
pub open spec fn sum_unmarked_below(cells: Seq<u32>, marks: Seq<bool>, n: int) -> int
    decreases n,
{
    if n <= 0 {
        0
    } else {
        sum_unmarked_below(cells, marks, n - 1) + if marks[n - 1] {
            0
        } else {
            cells[n - 1] as int
        }
    }
}

/// Sum of the first `n` cell values.
pub open spec fn cell_sum_below(cells: Seq<u32>, n: int) -> int
    decreases n,
{
    if n <= 0 {
        0
    } else {
        cell_sum_below(cells, n - 1) + cells[n - 1] as int
    }
}

impl BoardModel {
    /// A well-formed board is square, its mark mask parallels its cells, and
    /// its dimension is small enough that index arithmetic and the unmarked
    /// sum stay within machine bounds.
    pub open spec fn wf(self) -> bool {
        &&& 0 <= self.size <= 0xffff
        &&& self.cells.len() == self.size * self.size
        &&& self.marks.len() == self.cells.len()
    }

    /// The mask after marking value `n`: the first cell holding `n`, if any,
    /// becomes marked; every other entry is unchanged.
    pub open spec fn mark(self, n: u32) -> BoardModel {
        BoardModel {
            cells: self.cells,
            size: self.size,
            marks: Seq::new(
                self.marks.len(),
                |i: int|
                    self.marks[i] || (self.cells[i] == n && forall|j: int|
                        0 <= j < i ==> self.cells[j] != n),
            ),
        }
    }

    /// The mark entry of the cell in row `r`, column `c`.
    pub open spec fn mark_at(self, r: int, c: int) -> bool {
        self.marks[r * self.size + c]
    }

    /// Row `r` is fully marked.
    pub open spec fn row_won(self, r: int) -> bool {
        forall|c: int| 0 <= c < self.size ==> self.mark_at(r, c)
    }

    /// Column `c` is fully marked.
    pub open spec fn col_won(self, c: int) -> bool {
        forall|r: int| 0 <= r < self.size ==> self.mark_at(r, c)
    }

    /// A winner has some fully marked row or some fully marked column.
    pub open spec fn is_winner(self) -> bool {
        (exists|r: int| 0 <= r < self.size && self.row_won(r)) || (exists|c: int|
            0 <= c < self.size && self.col_won(c))
    }

    /// Sum of all unmarked cell values.
    pub open spec fn sum_unmarked(self) -> int {
        sum_unmarked_below(self.cells, self.marks, self.cells.len() as int)
    }

    /// Sum of all cell values.
    pub open spec fn total(self) -> int {
        cell_sum_below(self.cells, self.cells.len() as int)
    }

    /// Score of a board against the draw value that completed it.
    pub open spec fn score(self, v: u32) -> int {
        self.sum_unmarked() * v
    }
}

proof fn lemma_sum_unmarked_all_false(cells: Seq<u32>, marks: Seq<bool>, n: int)
    requires
        n <= marks.len(),
        forall|i: int| 0 <= i < marks.len() ==> !marks[i],
    ensures
        sum_unmarked_below(cells, marks, n) == cell_sum_below(cells, n),
    decreases n,
{
    if n > 0 {
        lemma_sum_unmarked_all_false(cells, marks, n - 1);
    }
}

/// A board whose mask is all false is no winner, and its unmarked sum is the
/// sum of all its cells.
pub proof fn lemma_fresh_board(m: BoardModel)
    requires
        m.wf(),
        forall|i: int| 0 <= i < m.marks.len() ==> !m.marks[i],
    ensures
        !m.is_winner(),
        m.sum_unmarked() == m.total(),
{
    assert forall|r: int| 0 <= r < m.size implies !m.row_won(r) by {
        assert(0 <= r * m.size + 0 < m.size * m.size) by (nonlinear_arith)
            requires
                0 <= r < m.size,
        ;
        assert(!m.mark_at(r, 0));
    }
    assert forall|c: int| 0 <= c < m.size implies !m.col_won(c) by {
        assert(0 <= 0 * m.size + c < m.size * m.size) by (nonlinear_arith)
            requires
                0 <= c < m.size,
        ;
        assert(!m.mark_at(0, c));
    }
    lemma_sum_unmarked_all_false(m.cells, m.marks, m.cells.len() as int);
}

/// Marking a value that no cell holds leaves the board unchanged.
pub proof fn lemma_mark_absent(m: BoardModel, n: u32)
    requires
        m.marks.len() == m.cells.len(),
        forall|i: int| 0 <= i < m.cells.len() ==> m.cells[i] != n,
    ensures
        m.mark(n) == m,
{
    assert(m.mark(n).marks =~= m.marks);
}

/// Marking the same value a second time changes nothing after the first mark.
pub proof fn lemma_mark_idempotent(m: BoardModel, n: u32)
    ensures
        m.mark(n).mark(n) == m.mark(n),
{
    assert(m.mark(n).mark(n).marks =~= m.mark(n).marks);
}

/// A square grid of numbers with a parallel mark mask, marked by value and
/// queried for a fully marked row or column.
#[derive(Debug)]
pub struct Board {
    pub cells: Vec<u32>,
    pub marked: Vec<bool>,
    pub size: usize,
}

impl View for Board {
    type V = BoardModel;

    open spec fn view(&self) -> BoardModel {
        BoardModel { cells: self.cells@, marks: self.marked@, size: self.size as int }
    }
}

impl Board {
    /// Build a board from rows of whitespace-separated integers; every mark
    /// starts false. Fails with `ParseError` when some token is not a `u32`,
    /// and with `ShapeError` when the rows do not form a square grid.
    pub fn from_string(rows: &Vec<String>) -> (r: Result<Board, BingoError>)
        ensures
            r is Ok <==> rows_valid(string_views(rows@)) && square_shape(string_views(rows@)),
            r is Ok ==> ({
                let b = r.unwrap();
                &&& b@.wf()
                &&& b@.size == rows@.len()
                &&& b@.cells == grid_cells(string_views(rows@))
                &&& forall|i: int| 0 <= i < b@.marks.len() ==> !(#[trigger] b@.marks[i])
                &&& !b@.is_winner()
                &&& b@.sum_unmarked() == b@.total()
            }),
            r is Err ==> (r.unwrap_err() == BingoError::ParseError <==> !rows_valid(
                string_views(rows@),
            )),
            r is Err ==> (r.unwrap_err() == BingoError::ShapeError <==> rows_valid(
                string_views(rows@),
            ) && !square_shape(string_views(rows@))),
    {
        let n = rows.len();
        let mut parsed: Vec<Vec<u32>> = Vec::new();
        let mut i: usize = 0;
        while i < n
            invariant
                n == rows@.len(),
                i <= n,
                parsed@.len() == i,
                forall|k: int| 0 <= k < i ==> row_valid(#[trigger] string_views(rows@)[k]),
                forall|k: int|
                    0 <= k < i ==> (#[trigger] parsed@[k])@ == row_values(
                        string_views(rows@)[k],
                    ),
            decreases n - i,
        {
            match parse_row(rows[i].as_str()) {
                Ok(vals) => {
                    parsed.push(vals);
                },
                Err(_) => {
                    assert(!row_valid(string_views(rows@)[i as int]));
                    return Err(BingoError::ParseError);
                },
            }
            i = i + 1;
        }
        if n == 0 || n > 0xffff {
            return Err(BingoError::ShapeError);
        }
        let mut j: usize = 0;
        while j < n
            invariant
                n == rows@.len(),
                parsed@.len() == n,
                j <= n,
                1 <= n <= 0xffff,
                forall|k: int| 0 <= k < n ==> row_valid(#[trigger] string_views(rows@)[k]),
                forall|k: int|
                    0 <= k < n ==> (#[trigger] parsed@[k])@ == row_values(
                        string_views(rows@)[k],
                    ),
                forall|k: int| 0 <= k < j ==> (#[trigger] parsed@[k])@.len() == n,
            decreases n - j,
        {
            if parsed[j].len() != n {
                assert(row_values(string_views(rows@)[j as int]).len() != n);
                return Err(BingoError::ShapeError);
            }
            j = j + 1;
        }
        let ghost rowvals: Seq<Seq<u32>> = vec_views(parsed@);
        proof {
            assert(rowvals =~= grid_rows(string_views(rows@)));
            assert forall|k2: int| 0 <= k2 < n implies (#[trigger] rowvals[k2]).len() == n by {
                assert(parsed@[k2]@.len() == n);
            }
            assert(rowvals.take(0) =~= Seq::<Seq<u32>>::empty());
            assert(vec_views(parsed@) =~= rowvals.skip(0));
        }
        let mut cells: Vec<u32> = Vec::new();
        let mut k: usize = 0;
        while parsed.len() > 0
            invariant
                k + parsed@.len() == n,
                k <= n,
                rowvals.len() == n,
                vec_views(parsed@) == rowvals.skip(k as int),
                cells@ == concat_rows(rowvals.take(k as int)),
            decreases parsed@.len(),
        {
            let ghost prev = parsed@;
            let mut row = parsed.remove(0);
            proof {
                assert(parsed@ =~= prev.drop_first());
                assert forall|m: int| 0 <= m < parsed@.len() implies #[trigger] vec_views(
                    parsed@,
                )[m] == rowvals.skip(k as int + 1)[m] by {
                    assert(vec_views(prev)[m + 1] == rowvals.skip(k as int)[m + 1]);
                }
                assert(vec_views(parsed@) =~= rowvals.skip(k as int + 1));
                assert(row@ == vec_views(prev)[0]);
                assert(row@ == rowvals[k as int]);
                assert(rowvals.take(k as int + 1).drop_last() =~= rowvals.take(k as int));
                assert(rowvals.take(k as int + 1).last() == rowvals[k as int]);
            }
            cells.append(&mut row);
            k = k + 1;
        }
        proof {
            assert(rowvals.take(n as int) =~= rowvals);
            lemma_concat_rows_len(rowvals, n as int);
        }
        let total = cells.len();
        let marked = vec![false; total];
        let b = Board { cells, marked, size: n };
        proof {
            assert(rows_valid(string_views(rows@)));
            assert forall|i2: int| 0 <= i2 < string_views(rows@).len() implies row_values(
                #[trigger] string_views(rows@)[i2],
            ).len() == string_views(rows@).len() by {
                assert(rowvals[i2].len() == n);
                assert(rowvals[i2] == row_values(string_views(rows@)[i2]));
            }
            assert(square_shape(string_views(rows@)));
            assert(b@.wf());
            assert(b@.cells == grid_cells(string_views(rows@)));
            assert(b@.marks =~= Seq::new(b@.cells.len(), |i: int| false));
            lemma_fresh_board(b@);
        }
        Ok(b)
    }

    /// Mark the first cell equal to `n`, if any. A value absent from the
    /// board is a no-op, not an error.
    pub fn mark(&mut self, n: u32)
        requires
            old(self)@.wf(),
        ensures
            final(self)@ == old(self)@.mark(n),
            final(self)@.wf(),
    {
        let len = self.cells.len();
        let mut i: usize = 0;
        while i < len
            invariant
                self@ == old(self)@,
                self@.wf(),
                len == self.cells.len(),
                i <= len,
                forall|j: int| 0 <= j < i ==> self.cells@[j] != n,
            decreases len - i,
        {
            if self.cells[i] == n {
                self.marked[i] = true;
                proof {
                    let m = old(self)@;
                    assert forall|k: int| 0 <= k < m.marks.len() implies self.marked@[k]
                        == m.mark(n).marks[k] by {
                        if k < i {
                            assert(m.cells[k] != n);
                        } else if k > i {
                            assert(m.cells[i as int] == n);
                        }
                    }
                    assert(self.marked@ =~= m.mark(n).marks);
                }
                return ;
            }
            i = i + 1;
        }
        proof {
            assert(self.marked@ =~= old(self)@.mark(n).marks);
        }
    }

    /// Row `r` of the mask is fully marked.
    fn row_all(&self, r: usize) -> (b: bool)
        requires
            self@.wf(),
            r < self.size,
        ensures
            b == self@.row_won(r as int),
    {
        let n = self.cells.len();
        let mut c: usize = 0;
        while c < self.size
            invariant
                self@.wf(),
                r < self.size,
                c <= self.size,
                n == self.cells@.len(),
                forall|cc: int| 0 <= cc < c ==> self@.mark_at(r as int, cc),
            decreases self.size - c,
        {
            proof {
                assert((r as int) * (self.size as int) + (c as int) < n as int)
                    by (nonlinear_arith)
                    requires
                        r < self.size,
                        c < self.size,
                        n as int == (self.size as int) * (self.size as int),
                ;
            }
            let idx = r * self.size + c;
            if !self.marked[idx] {
                assert(!self@.mark_at(r as int, c as int));
                return false;
            }
            c = c + 1;
        }
        true
    }

    /// Column `c` of the mask is fully marked.
    fn col_all(&self, c: usize) -> (b: bool)
        requires
            self@.wf(),
            c < self.size,
        ensures
            b == self@.col_won(c as int),
    {
        let n = self.cells.len();
        let mut r: usize = 0;
        while r < self.size
            invariant
                self@.wf(),
                c < self.size,
                r <= self.size,
                n == self.cells@.len(),
                forall|rr: int| 0 <= rr < r ==> self@.mark_at(rr, c as int),
            decreases self.size - r,
        {
            proof {
                assert((r as int) * (self.size as int) + (c as int) < n as int)
                    by (nonlinear_arith)
                    requires
                        r < self.size,
                        c < self.size,
                        n as int == (self.size as int) * (self.size as int),
                ;
            }
            let idx = r * self.size + c;
            if !self.marked[idx] {
                assert(!self@.mark_at(r as int, c as int));
                return false;
            }
            r = r + 1;
        }
        true
    }

    /// True iff at least one full row or one full column is marked.
    pub fn is_winner(&self) -> (w: bool)
        requires
            self@.wf(),
        ensures
            w == self@.is_winner(),
    {
        let mut r: usize = 0;
        while r < self.size
            invariant
                self@.wf(),
                r <= self.size,
                forall|rr: int| 0 <= rr < r ==> !self@.row_won(rr),
            decreases self.size - r,
        {
            if self.row_all(r) {
                return true;
            }
            r = r + 1;
        }
        let mut c: usize = 0;
        while c < self.size
            invariant
                self@.wf(),
                c <= self.size,
                forall|cc: int| 0 <= cc < c ==> !self@.col_won(cc),
                forall|rr: int| 0 <= rr < self.size ==> !self@.row_won(rr),
            decreases self.size - c,
        {
            if self.col_all(c) {
                return true;
            }
            c = c + 1;
        }
        false
    }

    /// Sum of the cell values whose mark entry is false.
    pub fn sum_unmarked(&self) -> (s: u64)
        requires
            self@.wf(),
        ensures
            s as int == self@.sum_unmarked(),
    {
        let n = self.cells.len();
        let mut s: u64 = 0;
        let mut i: usize = 0;
        proof {
            assert((n as int) * 0xffff_ffff < 0x1_0000_0000_0000_0000) by (nonlinear_arith)
                requires
                    n == self@.cells.len(),
                    self@.wf(),
            ;
        }
        while i < n
            invariant
                self@.wf(),
                n == self.cells.len(),
                i <= n,
                s as int == sum_unmarked_below(self.cells@, self.marked@, i as int),
                s as int <= (i as int) * 0xffff_ffff,
                (n as int) * 0xffff_ffff < 0x1_0000_0000_0000_0000,
            decreases n - i,
        {
            proof {
                assert((i as int + 1) * 0xffff_ffff <= (n as int) * 0xffff_ffff)
                    by (nonlinear_arith)
                    requires
                        i < n,
                ;
            }
            if !self.marked[i] {
                s = s + self.cells[i] as u64;
            }
            i = i + 1;
        }
        s
    }
}

} // verus!
