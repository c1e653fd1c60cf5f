//! A dynamically-sized grid backed by one flat vector.

use vstd::prelude::*;

use crate::group::Group;
use crate::position::Position;
use crate::position::in_bounds;
use crate::sudoku_trait::Sudoku;
use crate::sudoku_trait::SudokuError;
use crate::sudoku_trait::box_height_of;
use crate::sudoku_trait::box_inner_index;
use crate::sudoku_trait::box_left;
use crate::sudoku_trait::box_positions_seq;
use crate::sudoku_trait::box_top;
use crate::sudoku_trait::box_width_of;
use crate::sudoku_trait::col_positions_seq;
use crate::sudoku_trait::lemma_box_geometry;
use crate::sudoku_trait::lemma_flat_decompose;
use crate::sudoku_trait::row_positions_seq;
use crate::sudoku_trait::supported_size;
use crate::sudoku_trait::vocabulary;

verus! {

/// Whether a row-by-row symbol matrix is square: every row as long as
/// the list of rows itself.
pub open spec fn shape_ok(rows: Seq<Vec<char>>) -> bool {
    forall|i: int| 0 <= i < rows.len() ==> (#[trigger] rows[i])@.len() == rows.len()
}

/// A grid sized at construction from its input, holding the whole
/// matrix as one flat row-major vector and answering the membership
/// queries by index arithmetic.
pub struct Dynamic {
    data: Vec<char>,
    nrows: usize,
    ncols: usize,
    box_width: usize,
    box_height: usize,
}

/// `r1 * n + c1 == r2 * n + c2` forces equal coordinates when both
/// columns are within one row's width.
proof fn lemma_flat_injective(n: int, r1: int, c1: int, r2: int, c2: int)
    requires
        0 < n,
        0 <= r1,
        0 <= c1 < n,
        0 <= r2,
        0 <= c2 < n,
        r1 * n + c1 == r2 * n + c2,
    ensures
        r1 == r2,
        c1 == c2,
{
    lemma_flat_decompose(n, r1, c1);
    lemma_flat_decompose(n, r2, c2);
}

impl Dynamic {
    /// Builds a grid from a row-by-row symbol matrix. Fails with the
    /// shape error when the matrix is not square, and with the
    /// unsupported-size error when the (square) side length has no box
    /// decomposition.
    pub fn from_rows(rows: &Vec<Vec<char>>) -> (r: Result<Dynamic, SudokuError>)
        ensures
            match r {
                Ok(g) => {
                    &&& shape_ok(rows@)
                    &&& supported_size(rows@.len() as nat)
                    &&& g.wf()
                    &&& g.side() == rows@.len()
                    &&& forall|p: Position|
                        in_bounds(p, rows@.len() as nat) ==> #[trigger] g.cells()(p)
                            == rows@[p.row as int]@[p.col as int]
                },
                Err(e) => {
                    &&& !(shape_ok(rows@) && supported_size(rows@.len() as nat))
                    &&& e == (if !shape_ok(rows@) {
                        SudokuError::Shape
                    } else {
                        SudokuError::UnsupportedSize
                    })
                },
            },
    {
        let n = rows.len();
        let mut i: usize = 0;
        while i < n
            invariant
                i <= n == rows@.len(),
                forall|k: int| 0 <= k < i ==> (#[trigger] rows@[k])@.len() == n,
            decreases n - i,
        {
            if rows[i].len() != n {
                return Err(SudokuError::Shape);
            }
            i += 1;
        }
        let box_width: usize = if n == 4 {
            2
        } else if n == 6 {
            3
        } else if n == 9 {
            3
        } else if n == 16 {
            4
        } else if n == 25 {
            5
        } else {
            return Err(SudokuError::UnsupportedSize);
        };
        let box_height = n / box_width;
        let mut data: Vec<char> = Vec::new();
        let mut i: usize = 0;
        while i < n
            invariant
                i <= n == rows@.len(),
                supported_size(n as nat),
                forall|k: int| 0 <= k < n ==> (#[trigger] rows@[k])@.len() == n,
                data@.len() == i * n,
                forall|k: int| 0 <= k < data@.len() ==> #[trigger] data@[k] == rows@[k / n as int]@[k % n as int],
            decreases n - i,
        {
            let mut j: usize = 0;
            while j < n
                invariant
                    i < n,
                    j <= n == rows@.len(),
                    supported_size(n as nat),
                    forall|k: int| 0 <= k < n ==> (#[trigger] rows@[k])@.len() == n,
                    data@.len() == i * n + j,
                    forall|k: int| 0 <= k < data@.len() ==> #[trigger] data@[k] == rows@[k / n as int]@[k % n as int],
                decreases n - j,
            {
                proof {
                    lemma_flat_decompose(n as int, i as int, j as int);
                }
                data.push(rows[i][j]);
                j += 1;
            }
            proof {
                assert((i + 1) * n == i * n + n) by (nonlinear_arith);
            }
            i += 1;
        }
        let grid = Dynamic { data, nrows: n, ncols: n, box_width, box_height };
        proof {
            assert forall|p: Position| in_bounds(p, rows@.len() as nat) implies #[trigger] grid.cells()(
                p,
            ) == rows@[p.row as int]@[p.col as int] by {
                lemma_flat_decompose(n as int, p.row as int, p.col as int);
                assert((p.row as int * n + p.col as int) < n * n) by (nonlinear_arith)
                    requires
                        p.row < n,
                        p.col < n,
                ;
            }
        }
        Ok(grid)
    }
}

impl Sudoku for Dynamic {
    closed spec fn side(&self) -> nat {
        self.nrows as nat
    }

    closed spec fn box_width(&self) -> nat {
        self.box_width as nat
    }

    closed spec fn box_height(&self) -> nat {
        self.box_height as nat
    }

    closed spec fn cells(&self) -> spec_fn(Position) -> char {
        |p: Position| self.data@[p.row * self.ncols + p.col]
    }

    closed spec fn wf(&self) -> bool {
        &&& self.nrows == self.ncols
        &&& supported_size(self.nrows as nat)
        &&& self.box_width as nat == box_width_of(self.nrows as nat)
        &&& self.box_height as nat == box_height_of(self.nrows as nat)
        &&& self.data@.len() == self.nrows * self.ncols
    }

    proof fn wf_facts(&self) {
        let n = self.nrows as nat;
        if n == 4 {
            assert(box_width_of(n) == 2);
            assert(box_height_of(n) == 2);
            assert(self.box_width() * self.box_height() == 2 * 2);
        } else if n == 6 {
            assert(box_width_of(n) == 3);
            assert(box_height_of(n) == 2);
            assert(self.box_width() * self.box_height() == 3 * 2);
        } else if n == 9 {
            assert(box_width_of(n) == 3);
            assert(box_height_of(n) == 3);
            assert(self.box_width() * self.box_height() == 3 * 3);
        } else if n == 16 {
            assert(box_width_of(n) == 4);
            assert(box_height_of(n) == 4);
            assert(self.box_width() * self.box_height() == 4 * 4);
        } else {
            assert(box_width_of(n) == 5);
            assert(box_height_of(n) == 5);
            assert(self.box_width() * self.box_height() == 5 * 5);
        }
    }

    fn symbol_at(&self, pos: Position) -> (c: char) {
        proof {
            assert(pos.row * self.ncols + pos.col < self.nrows * self.ncols && pos.row
                * self.ncols + pos.col < 625) by (nonlinear_arith)
                requires
                    pos.row < self.nrows,
                    pos.col < self.ncols,
                    self.nrows == self.ncols,
                    self.nrows <= 25,
            ;
        }
        self.data[pos.row * self.ncols + pos.col]
    }

    fn set_symbol(&mut self, pos: Position, c: char) {
        proof {
            assert(pos.row * self.ncols + pos.col < self.nrows * self.ncols && pos.row
                * self.ncols + pos.col < 625) by (nonlinear_arith)
                requires
                    pos.row < self.nrows,
                    pos.col < self.ncols,
                    self.nrows == self.ncols,
                    self.nrows <= 25,
            ;
        }
        let idx = pos.row * self.ncols + pos.col;
        self.data[idx] = c;
        proof {
            assert forall|q: Position|
                in_bounds(q, old(self).side()) && q != pos implies #[trigger] self.cells()(q)
                == old(self).cells()(q) by {
                assert((q.row as int * self.ncols as int + q.col as int) < self.nrows as int
                    * self.ncols as int) by (nonlinear_arith)
                    requires
                        q.row < self.nrows,
                        q.col < self.ncols,
                        self.nrows == self.ncols,
                ;
                if q.row as int * self.ncols as int + q.col as int == idx {
                    lemma_flat_injective(
                        self.ncols as int,
                        q.row as int,
                        q.col as int,
                        pos.row as int,
                        pos.col as int,
                    );
                }
            }
        }
    }

    fn allowed_characters(&self) -> (r: Result<Vec<char>, SudokuError>) {
        let n = self.nrows;
        if n == 4 || n == 6 || n == 9 || n == 16 || n == 25 {
            let mut v: Vec<char> = Vec::new();
            v.push('1');
            v.push('2');
            v.push('3');
            v.push('4');
            if n >= 6 {
                v.push('5');
                v.push('6');
            }
            if n >= 9 {
                v.push('7');
                v.push('8');
                v.push('9');
            }
            if n >= 16 {
                v.push('0');
                v.push('A');
                v.push('B');
                v.push('C');
                v.push('D');
                v.push('E');
                v.push('F');
            }
            if n == 25 {
                v.push('G');
                v.push('H');
                v.push('I');
                v.push('J');
                v.push('K');
                v.push('L');
                v.push('M');
                v.push('N');
                v.push('O');
            }
            proof {
                assert(v@ =~= vocabulary(self.side()));
            }
            Ok(v)
        } else {
            Err(SudokuError::UnsupportedSize)
        }
    }

    fn row_positions(&self, pos: Position) -> (g: Group<Position>) {
        let n = self.ncols;
        let mut v: Vec<Position> = Vec::new();
        let mut c: usize = 0;
        while c < n
            invariant
                self.wf(),
                in_bounds(pos, self.side()),
                n == self.ncols,
                c <= n,
                v@.len() == (if c <= pos.col {
                    c as int
                } else {
                    c - 1
                }),
                v@ == row_positions_seq(self.side(), pos).take(v@.len() as int),
            decreases n - c,
        {
            if c != pos.col {
                proof {
                    let s = row_positions_seq(self.side(), pos);
                    let k = v@.len() as int;
                    assert(s[k] == (Position {
                        row: pos.row,
                        col: (if k < pos.col {
                            k
                        } else {
                            k + 1
                        }) as usize,
                    }));
                    assert(s.take(k + 1) =~= s.take(k).push(s[k]));
                }
                v.push(Position { row: pos.row, col: c });
            }
            c += 1;
        }
        proof {
            let s = row_positions_seq(self.side(), pos);
            assert(s.take(s.len() as int) =~= s);
        }
        Group::from(v.as_slice())
    }

    fn col_positions(&self, pos: Position) -> (g: Group<Position>) {
        let n = self.nrows;
        let mut v: Vec<Position> = Vec::new();
        let mut r: usize = 0;
        while r < n
            invariant
                self.wf(),
                in_bounds(pos, self.side()),
                n == self.nrows,
                r <= n,
                v@.len() == (if r <= pos.row {
                    r as int
                } else {
                    r - 1
                }),
                v@ == col_positions_seq(self.side(), pos).take(v@.len() as int),
            decreases n - r,
        {
            if r != pos.row {
                proof {
                    let s = col_positions_seq(self.side(), pos);
                    let k = v@.len() as int;
                    assert(s[k] == (Position {
                        row: (if k < pos.row {
                            k
                        } else {
                            k + 1
                        }) as usize,
                        col: pos.col,
                    }));
                    assert(s.take(k + 1) =~= s.take(k).push(s[k]));
                }
                v.push(Position { row: r, col: pos.col });
            }
            r += 1;
        }
        proof {
            let s = col_positions_seq(self.side(), pos);
            assert(s.take(s.len() as int) =~= s);
        }
        Group::from(v.as_slice())
    }

    fn box_positions(&self, pos: Position) -> (g: Group<Position>) {
        let bh = self.box_height;
        let bw = self.box_width;
        proof {
            self.wf_facts();
            lemma_box_geometry(self.side(), bh as nat, bw as nat, pos);
        }
        let top = (pos.row / bh) * bh;
        let left = (pos.col / bw) * bw;
        let ghost inner = box_inner_index(bh as nat, bw as nat, pos);
        let ghost s = box_positions_seq(bh as nat, bw as nat, pos);
        let mut v: Vec<Position> = Vec::new();
        let mut dr: usize = 0;
        while dr < bh
            invariant
                self.wf(),
                in_bounds(pos, self.side()),
                bh == self.box_height,
                bw == self.box_width,
                top == box_top(bh as nat, pos),
                left == box_left(bw as nat, pos),
                inner == box_inner_index(bh as nat, bw as nat, pos),
                s == box_positions_seq(bh as nat, bw as nat, pos),
                dr <= bh,
                v@.len() == (if dr * bw <= inner {
                    dr * bw
                } else {
                    dr * bw - 1
                }),
                v@ == s.take(v@.len() as int),
            decreases bh - dr,
        {
            let mut dc: usize = 0;
            while dc < bw
                invariant
                    self.wf(),
                    in_bounds(pos, self.side()),
                    bh == self.box_height,
                    bw == self.box_width,
                    top == box_top(bh as nat, pos),
                    left == box_left(bw as nat, pos),
                    inner == box_inner_index(bh as nat, bw as nat, pos),
                    s == box_positions_seq(bh as nat, bw as nat, pos),
                    dr < bh,
                    dc <= bw,
                    v@.len() == (if dr * bw + dc <= inner {
                        dr * bw + dc
                    } else {
                        dr * bw + dc - 1
                    }),
                    v@ == s.take(v@.len() as int),
                decreases bw - dc,
            {
                proof {
                    self.wf_facts();
                    lemma_box_geometry(self.side(), bh as nat, bw as nat, pos);
                    lemma_flat_decompose(bw as int, dr as int, dc as int);
                    lemma_flat_decompose(
                        bw as int,
                        pos.row - box_top(bh as nat, pos),
                        pos.col - box_left(bw as nat, pos),
                    );
                    assert((dr * bw + dc) < bh * bw) by (nonlinear_arith)
                        requires
                            0 <= dr,
                            dr < bh,
                            0 <= dc,
                            dc < bw,
                            0 < bw,
                            0 < bh,
                    ;
                }
                let row = top + dr;
                let col = left + dc;
                if row != pos.row || col != pos.col {
                    proof {
                        let j = dr * bw + dc;
                        assert(j != inner);
                        let k = v@.len() as int;
                        assert(s[k] == (Position {
                            row: (box_top(bh as nat, pos) + (j / bw as int)) as usize,
                            col: (box_left(bw as nat, pos) + (j % bw as int)) as usize,
                        }));
                        assert(s.take(k + 1) =~= s.take(k).push(s[k]));
                    }
                    v.push(Position { row, col });
                }
                dc += 1;
            }
            proof {
                assert((dr + 1) * bw == dr * bw + bw) by (nonlinear_arith);
            }
            dr += 1;
        }
        proof {
            self.wf_facts();
            lemma_box_geometry(self.side(), bh as nat, bw as nat, pos);
            assert(bh * bw == bw * bh) by (nonlinear_arith);
            assert(s.take(s.len() as int) =~= s);
        }
        Group::from(v.as_slice())
    }
}

} // verus!
