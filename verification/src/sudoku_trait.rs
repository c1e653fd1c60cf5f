//! The capability contract every grid representation satisfies.

use vstd::prelude::*;

use crate::group::Group;
use crate::position::Position;
use crate::position::in_bounds;

verus! {

/// The sentinel symbol denoting a cell with no value placed yet.
pub const BLANK: char = '.';

/// The errors a grid can report: both are detected eagerly at
/// construction and never at query time.
#[derive(Debug, PartialEq, Eq, Clone, Copy, Structural)]
pub enum SudokuError {
    /// The input rows are not all of equal length, or the row count
    /// differs from the row length (the grid is not square).
    Shape,
    /// The side length is not one with a defined box decomposition and
    /// symbol vocabulary.
    UnsupportedSize,
}

/// The side lengths with a defined box decomposition.
pub open spec fn supported_size(n: nat) -> bool {
    n == 4 || n == 6 || n == 9 || n == 16 || n == 25
}

/// The box width a supported side length determines.
pub open spec fn box_width_of(n: nat) -> nat {
    if n == 4 {
        2
    } else if n == 6 {
        3
    } else if n == 9 {
        3
    } else if n == 16 {
        4
    } else if n == 25 {
        5
    } else {
        0
    }
}

/// The box height a supported side length determines: boxes tile the
/// grid exactly, so it is the side length divided by the box width.
pub open spec fn box_height_of(n: nat) -> nat {
    if n == 4 {
        2
    } else if n == 6 {
        2
    } else if n == 9 {
        3
    } else if n == 16 {
        4
    } else if n == 25 {
        5
    } else {
        0
    }
}

/// The legal symbols for a grid of side `n`, in vocabulary order.
pub open spec fn vocabulary(n: nat) -> Seq<char> {
    if n == 4 {
        seq!['1', '2', '3', '4']
    } else if n == 6 {
        seq!['1', '2', '3', '4', '5', '6']
    } else if n == 9 {
        seq!['1', '2', '3', '4', '5', '6', '7', '8', '9']
    } else if n == 16 {
        seq!['1', '2', '3', '4', '5', '6', '7', '8', '9', '0', 'A', 'B', 'C', 'D', 'E', 'F']
    } else if n == 25 {
        seq![
            '1', '2', '3', '4', '5', '6', '7', '8', '9', '0',
            'A', 'B', 'C', 'D', 'E', 'F', 'G', 'H', 'I', 'J',
            'K', 'L', 'M', 'N', 'O',
        ]
    } else {
        Seq::empty()
    }
}

/// The positions of row `pos.row` in a grid of side `n`, in ascending
/// column order, with `pos` itself left out.
pub open spec fn row_positions_seq(n: nat, pos: Position) -> Seq<Position>
    recommends
        in_bounds(pos, n),
{
    if n == 0 {
        Seq::empty()
    } else {
        Seq::new(
            (n - 1) as nat,
            |i: int|
                Position {
                    row: pos.row,
                    col: (if i < pos.col { i } else { i + 1 }) as usize,
                },
        )
    }
}

/// The positions of column `pos.col` in a grid of side `n`, in ascending
/// row order, with `pos` itself left out.
pub open spec fn col_positions_seq(n: nat, pos: Position) -> Seq<Position>
    recommends
        in_bounds(pos, n),
{
    if n == 0 {
        Seq::empty()
    } else {
        Seq::new(
            (n - 1) as nat,
            |i: int|
                Position {
                    row: (if i < pos.row { i } else { i + 1 }) as usize,
                    col: pos.col,
                },
        )
    }
}

/// The row index of the top-left corner of the box holding `pos`.
pub open spec fn box_top(box_height: nat, pos: Position) -> int {
    (pos.row as int / box_height as int) * box_height as int
}

/// The column index of the top-left corner of the box holding `pos`.
pub open spec fn box_left(box_width: nat, pos: Position) -> int {
    (pos.col as int / box_width as int) * box_width as int
}

/// The index of `pos` within its box's row-major enumeration.
pub open spec fn box_inner_index(box_height: nat, box_width: nat, pos: Position) -> int {
    (pos.row - box_top(box_height, pos)) * box_width + (pos.col - box_left(box_width, pos))
}

/// The positions of the box holding `pos`, in row-major order, with
/// `pos` itself left out.
pub open spec fn box_positions_seq(box_height: nat, box_width: nat, pos: Position) -> Seq<
    Position,
>
    recommends
        0 < box_height,
        0 < box_width,
{
    if box_height == 0 || box_width == 0 {
        Seq::empty()
    } else {
        let top = box_top(box_height, pos);
        let left = box_left(box_width, pos);
        let inner = box_inner_index(box_height, box_width, pos);
        Seq::new(
            (box_height * box_width - 1) as nat,
            |i: int|
                {
                    let j = if i < inner {
                        i
                    } else {
                        i + 1
                    };
                    Position {
                        row: (top + j / box_width as int) as usize,
                        col: (left + j % box_width as int) as usize,
                    }
                },
        )
    }
}

/// All positions sharing a group with `pos` (with `pos` itself left
/// out): row, then column, then box, duplicates preserved.
pub open spec fn groups_positions_seq(
    n: nat,
    box_height: nat,
    box_width: nat,
    pos: Position,
) -> Seq<Position> {
    row_positions_seq(n, pos) + col_positions_seq(n, pos) + box_positions_seq(
        box_height,
        box_width,
        pos,
    )
}

/// The predicate keeping the symbols that are not the blank marker.
pub open spec fn present_pred() -> spec_fn(char) -> bool {
    |c: char| c != BLANK
}

/// The symbols a grid with cell contents `cells` holds at `positions`,
/// in order, with blank cells dropped.
pub open spec fn present_symbols(cells: spec_fn(Position) -> char, positions: Seq<Position>) -> Seq<
    char,
> {
    positions.map_values(cells).filter(present_pred())
}

/// Whether placing `element` at `pos` would clash: true exactly when the
/// cell does not already hold `element` and `element` appears in one of
/// `pos`'s groups.
pub open spec fn spec_conflicts(
    cells: spec_fn(Position) -> char,
    n: nat,
    box_height: nat,
    box_width: nat,
    pos: Position,
    element: char,
) -> bool {
    &&& cells(pos) != element
    &&& present_symbols(cells, groups_positions_seq(n, box_height, box_width, pos)).contains(
        element,
    )
}

/// The predicate keeping the symbols that do not conflict at `pos`.
pub open spec fn non_conflicting_pred(
    cells: spec_fn(Position) -> char,
    n: nat,
    box_height: nat,
    box_width: nat,
    pos: Position,
) -> spec_fn(char) -> bool {
    |c: char| !spec_conflicts(cells, n, box_height, box_width, pos, c)
}

/// The symbols that could legally occupy `pos`: for a blank cell, the
/// subsequence of the vocabulary that does not conflict; for a filled
/// cell, just the symbol it holds.
pub open spec fn spec_possibilities(
    cells: spec_fn(Position) -> char,
    n: nat,
    box_height: nat,
    box_width: nat,
    pos: Position,
) -> Seq<char> {
    let cur = cells(pos);
    if cur == BLANK {
        vocabulary(n).filter(non_conflicting_pred(cells, n, box_height, box_width, pos))
    } else {
        seq![cur]
    }
}

/// The capability contract for grid representations of any supported
/// size. A representation supplies the spec-level model (`side`, box
/// dimensions, `cell`, well-formedness) and the required primitives
/// (indexed cell access and the three membership queries); the derived
/// queries are provided once, on top of the primitives alone.
pub trait Sudoku: Sized {
    /// The number of rows (equal to the number of columns) the grid has.
    spec fn side(&self) -> nat;

    /// The width of one box of the grid.
    spec fn box_width(&self) -> nat;

    /// The height of one box of the grid.
    spec fn box_height(&self) -> nat;

    /// The grid's cell contents, as a function from position to symbol.
    spec fn cells(&self) -> spec_fn(Position) -> char;

    /// The representation's well-formedness invariant; constructors
    /// establish it and every method preserves it.
    spec fn wf(&self) -> bool;

    /// A well-formed grid has a supported side length whose boxes tile
    /// it exactly.
    proof fn wf_facts(&self)
        requires
            self.wf(),
        ensures
            supported_size(self.side()),
            self.box_width() == box_width_of(self.side()),
            self.box_height() == box_height_of(self.side()),
            self.box_width() * self.box_height() == self.side(),
            0 < self.box_width() <= self.side(),
            0 < self.box_height() <= self.side(),
    ;

    /// The symbol the cell at `pos` currently holds.
    fn symbol_at(&self, pos: Position) -> (c: char)
        requires
            self.wf(),
            in_bounds(pos, self.side()),
        ensures
            c == self.cells()(pos),
    ;

    /// Replaces the symbol at `pos` with `c` (which may be the blank
    /// marker), leaving every other cell and the grid's shape unchanged.
    fn set_symbol(&mut self, pos: Position, c: char)
        requires
            old(self).wf(),
            in_bounds(pos, old(self).side()),
        ensures
            final(self).wf(),
            final(self).side() == old(self).side(),
            final(self).box_width() == old(self).box_width(),
            final(self).box_height() == old(self).box_height(),
            final(self).cells()(pos) == c,
            forall|q: Position|
                in_bounds(q, old(self).side()) && q != pos ==> #[trigger] final(self).cells()(q)
                    == old(self).cells()(q),
    ;

    /// The allowed symbols for this grid's size, in vocabulary order;
    /// the unsupported-size error exactly when the size has no defined
    /// vocabulary.
    fn allowed_characters(&self) -> (r: Result<Vec<char>, SudokuError>)
        ensures
            match r {
                Ok(v) => supported_size(self.side()) && v@ == vocabulary(self.side()),
                Err(e) => !supported_size(self.side()) && e == SudokuError::UnsupportedSize,
            },
    ;

    /// The positions in the row in which `pos` lies, excluding `pos`
    /// itself, in ascending column order.
    fn row_positions(&self, pos: Position) -> (g: Group<Position>)
        requires
            self.wf(),
            in_bounds(pos, self.side()),
        ensures
            g@ == row_positions_seq(self.side(), pos),
    ;

    /// The positions in the column in which `pos` lies, excluding `pos`
    /// itself, in ascending row order.
    fn col_positions(&self, pos: Position) -> (g: Group<Position>)
        requires
            self.wf(),
            in_bounds(pos, self.side()),
        ensures
            g@ == col_positions_seq(self.side(), pos),
    ;

    /// The positions in the box in which `pos` lies, excluding `pos`
    /// itself, in row-major order.
    fn box_positions(&self, pos: Position) -> (g: Group<Position>)
        requires
            self.wf(),
            in_bounds(pos, self.side()),
        ensures
            g@ == box_positions_seq(self.box_height(), self.box_width(), pos),
    ;

    /// All positions sharing a group with `pos`, excluding `pos`
    /// itself: row, then column, then box, duplicates preserved.
    fn groups_positions(&self, pos: Position) -> (g: Group<Position>)
        requires
            self.wf(),
            in_bounds(pos, self.side()),
        ensures
            g@ == groups_positions_seq(self.side(), self.box_height(), self.box_width(), pos),
    {
        let mut all: Vec<Position> = Vec::new();
        proof {
            assert(Seq::<Position>::empty() + row_positions_seq(self.side(), pos)
                =~= row_positions_seq(self.side(), pos));
        }
        let row = self.row_positions(pos);
        append_group(&mut all, &row);
        let col = self.col_positions(pos);
        append_group(&mut all, &col);
        let bx = self.box_positions(pos);
        append_group(&mut all, &bx);
        Group::from(all.as_slice())
    }

    /// The non-blank symbols the grid holds at `positions`, in order.
    fn present_at(&self, positions: &Group<Position>) -> (g: Group<char>)
        requires
            self.wf(),
            forall|i: int|
                0 <= i < positions@.len() ==> in_bounds(#[trigger] positions@[i], self.side()),
        ensures
            g@ == present_symbols(self.cells(), positions@),
    {
        let mut out: Vec<char> = Vec::new();
        let n = positions.len();
        let mut i: usize = 0;
        proof {
            assert(positions@.take(0).map_values(self.cells()).filter(present_pred())
                =~= Seq::<char>::empty());
        }
        while i < n
            invariant
                self.wf(),
                i <= n == positions@.len(),
                forall|k: int|
                    0 <= k < positions@.len() ==> in_bounds(#[trigger] positions@[k], self.side()),
                out@ == present_symbols(self.cells(), positions@.take(i as int)),
            decreases n - i,
        {
            let p = *positions.get(i);
            let c = self.symbol_at(p);
            proof {
                let taken = positions@.take(i as int);
                assert(positions@.take(i + 1) =~= taken.push(p));
                assert(taken.push(p).map_values(self.cells()) =~= taken.map_values(
                    self.cells(),
                ).push(self.cells()(p)));
                lemma_filter_push(taken.map_values(self.cells()), self.cells()(p), present_pred());
            }
            if c != BLANK {
                out.push(c);
            }
            i += 1;
        }
        proof {
            assert(positions@.take(positions@.len() as int) =~= positions@);
        }
        Group::from(out.as_slice())
    }

    /// The symbols in the row in which `pos` lies, excluding `pos`'s
    /// own cell, with blank cells dropped.
    fn row_elems(&self, pos: Position) -> (g: Group<char>)
        requires
            self.wf(),
            in_bounds(pos, self.side()),
        ensures
            g@ == present_symbols(self.cells(), row_positions_seq(self.side(), pos)),
    {
        let ps = self.row_positions(pos);
        proof {
            self.wf_facts();
            lemma_row_positions_in_bounds(self.side(), pos);
        }
        self.present_at(&ps)
    }

    /// The symbols in the column in which `pos` lies, excluding `pos`'s
    /// own cell, with blank cells dropped.
    fn col_elems(&self, pos: Position) -> (g: Group<char>)
        requires
            self.wf(),
            in_bounds(pos, self.side()),
        ensures
            g@ == present_symbols(self.cells(), col_positions_seq(self.side(), pos)),
    {
        let ps = self.col_positions(pos);
        proof {
            self.wf_facts();
            lemma_col_positions_in_bounds(self.side(), pos);
        }
        self.present_at(&ps)
    }

    /// The symbols in the box in which `pos` lies, excluding `pos`'s
    /// own cell, with blank cells dropped.
    fn box_elems(&self, pos: Position) -> (g: Group<char>)
        requires
            self.wf(),
            in_bounds(pos, self.side()),
        ensures
            g@ == present_symbols(
                self.cells(),
                box_positions_seq(self.box_height(), self.box_width(), pos),
            ),
    {
        let ps = self.box_positions(pos);
        proof {
            self.wf_facts();
            lemma_box_positions_in_bounds(
                self.side(),
                self.box_height(),
                self.box_width(),
                pos,
            );
        }
        self.present_at(&ps)
    }

    /// The symbols in any group in which `pos` lies, excluding `pos`'s
    /// own cell, with blank cells dropped.
    fn groups_elems(&self, pos: Position) -> (g: Group<char>)
        requires
            self.wf(),
            in_bounds(pos, self.side()),
        ensures
            g@ == present_symbols(
                self.cells(),
                groups_positions_seq(self.side(), self.box_height(), self.box_width(), pos),
            ),
    {
        let ps = self.groups_positions(pos);
        proof {
            self.wf_facts();
            lemma_row_positions_in_bounds(self.side(), pos);
            lemma_col_positions_in_bounds(self.side(), pos);
            lemma_box_positions_in_bounds(
                self.side(),
                self.box_height(),
                self.box_width(),
                pos,
            );
        }
        self.present_at(&ps)
    }

    /// True exactly when the cell at `pos` does not already hold
    /// `element` and `element` appears in one of `pos`'s groups: a cell
    /// is never in conflict with its own current content.
    fn conflicts(&self, pos: Position, element: char) -> (r: bool)
        requires
            self.wf(),
            in_bounds(pos, self.side()),
        ensures
            r == spec_conflicts(
                self.cells(),
                self.side(),
                self.box_height(),
                self.box_width(),
                pos,
                element,
            ),
    {
        let current = self.symbol_at(pos);
        if current == element {
            false
        } else {
            let elems = self.groups_elems(pos);
            elems.contains(element)
        }
    }

    /// The symbols which `pos` could hold: for a blank cell, every
    /// allowed symbol that does not conflict, in vocabulary order; for a
    /// filled cell, just the symbol it already holds.
    fn possibilities(&self, pos: Position) -> (v: Vec<char>)
        requires
            self.wf(),
            in_bounds(pos, self.side()),
        ensures
            v@ == spec_possibilities(
                self.cells(),
                self.side(),
                self.box_height(),
                self.box_width(),
                pos,
            ),
    {
        let current = self.symbol_at(pos);
        if current != BLANK {
            let mut v: Vec<char> = Vec::new();
            v.push(current);
            proof {
                assert(v@ =~= seq![current]);
            }
            v
        } else {
            let alphabet = match self.allowed_characters() {
                Ok(a) => a,
                Err(_) => {
                    // a well-formed grid always has a supported size
                    proof {
                        self.wf_facts();
                        assert(false);
                    }
                    Vec::new()
                },
            };
            let mut v: Vec<char> = Vec::new();
            let n = alphabet.len();
            let mut i: usize = 0;
            proof {
                assert(alphabet@.take(0).filter(
                    non_conflicting_pred(
                        self.cells(),
                        self.side(),
                        self.box_height(),
                        self.box_width(),
                        pos,
                    ),
                ) =~= Seq::<char>::empty());
            }
            while i < n
                invariant
                    self.wf(),
                    in_bounds(pos, self.side()),
                    i <= n == alphabet@.len(),
                    alphabet@ == vocabulary(self.side()),
                    self.cells()(pos) == BLANK,
                    v@ == alphabet@.take(i as int).filter(
                        non_conflicting_pred(
                            self.cells(),
                            self.side(),
                            self.box_height(),
                            self.box_width(),
                            pos,
                        ),
                    ),
                decreases n - i,
            {
                let c = alphabet[i];
                let clash = self.conflicts(pos, c);
                proof {
                    assert(alphabet@.take(i + 1) =~= alphabet@.take(i as int).push(c));
                    lemma_filter_push(
                        alphabet@.take(i as int),
                        c,
                        non_conflicting_pred(
                            self.cells(),
                            self.side(),
                            self.box_height(),
                            self.box_width(),
                            pos,
                        ),
                    );
                }
                if !clash {
                    v.push(c);
                }
                i += 1;
            }
            proof {
                assert(alphabet@.take(n as int) =~= alphabet@);
            }
            v
        }
    }
}

/// Appends every element of `g` to `out`, in order.
fn append_group<T: Copy>(out: &mut Vec<T>, g: &Group<T>)
    ensures
        final(out)@ == old(out)@ + g@,
{
    proof {
        assert(old(out)@ + g@.take(0) =~= old(out)@);
    }
    let n = g.len();
    let mut i: usize = 0;
    while i < n
        invariant
            i <= n == g@.len(),
            out@ == old(out)@ + g@.take(i as int),
        decreases n - i,
    {
        out.push(*g.get(i));
        proof {
            assert(old(out)@ + g@.take(i + 1) =~= (old(out)@ + g@.take(i as int)).push(
                g@[i as int],
            ));
        }
        i += 1;
    }
    proof {
        assert(old(out)@ + g@.take(g@.len() as int) =~= old(out)@ + g@);
    }
}

/// `filter` distributes over `push`: pushing an element keeps it exactly
/// when the predicate holds of it.
proof fn lemma_filter_push<A>(s: Seq<A>, x: A, pred: spec_fn(A) -> bool)
    ensures
        s.push(x).filter(pred) == if pred(x) {
            s.filter(pred).push(x)
        } else {
            s.filter(pred)
        },
{
    reveal_with_fuel(Seq::filter, 2);
    assert(s.push(x).drop_last() =~= s);
    assert(s.push(x).last() == x);
}

/// Decomposing a bounded index `x` into blocks of size `b`: within `m`
/// blocks, the quotient and remainder stay in range.
pub(crate) proof fn lemma_div_block(x: int, b: int, m: int)
    requires
        0 <= x,
        0 < b,
        0 < m,
        x < b * m,
    ensures
        x == b * (x / b) + x % b,
        0 <= x % b < b,
        0 <= x / b < m,
{
    vstd::arithmetic::div_mod::lemma_fundamental_div_mod(x, b);
    vstd::arithmetic::div_mod::lemma_mod_bound(x, b);
    let q = x / b;
    let r = x % b;
    assert(0 <= q < m) by (nonlinear_arith)
        requires
            x == b * q + r,
            0 <= r,
            r < b,
            0 <= x,
            x < b * m,
            0 < b,
            0 < m,
    ;
}

/// The geometry of the box holding an in-bounds position: its corner is
/// in bounds, the box fits inside the grid, and the position's row-major
/// index within the box is in range.
pub(crate) proof fn lemma_box_geometry(n: nat, bh: nat, bw: nat, pos: Position)
    requires
        in_bounds(pos, n),
        0 < bh,
        0 < bw,
        bw * bh == n,
    ensures
        0 <= box_top(bh, pos) <= pos.row,
        pos.row - box_top(bh, pos) < bh,
        box_top(bh, pos) + bh <= n,
        0 <= box_left(bw, pos) <= pos.col,
        pos.col - box_left(bw, pos) < bw,
        box_left(bw, pos) + bw <= n,
        0 <= box_inner_index(bh, bw, pos) < bh * bw,
{
    assert(bh * bw == bw * bh) by (nonlinear_arith);
    lemma_div_block(pos.row as int, bh as int, bw as int);
    lemma_div_block(pos.col as int, bw as int, bh as int);
    let qr = pos.row as int / bh as int;
    let qc = pos.col as int / bw as int;
    assert(box_top(bh, pos) == qr * bh);
    assert(box_left(bw, pos) == qc * bw);
    assert(qr * bh <= pos.row && qr * bh + bh <= n) by (nonlinear_arith)
        requires
            pos.row as int == bh as int * qr + (pos.row as int % bh as int),
            0 <= pos.row as int % bh as int,
            (pos.row as int % bh as int) < bh,
            0 <= qr,
            qr < bw,
            0 < bh,
            bw * bh == n,
    ;
    assert(qc * bw <= pos.col && qc * bw + bw <= n) by (nonlinear_arith)
        requires
            pos.col as int == bw as int * qc + (pos.col as int % bw as int),
            0 <= pos.col as int % bw as int,
            (pos.col as int % bw as int) < bw,
            0 <= qc,
            qc < bh,
            0 < bw,
            bw * bh == n,
    ;
    assert(bh as int * qr == qr * bh) by (nonlinear_arith);
    assert(bw as int * qc == qc * bw) by (nonlinear_arith);
    let dr = pos.row - box_top(bh, pos);
    let dc = pos.col - box_left(bw, pos);
    assert(dr == pos.row as int % bh as int);
    assert(dc == pos.col as int % bw as int);
    assert(0 <= dr * bw + dc < bh * bw) by (nonlinear_arith)
        requires
            0 <= dr,
            dr < bh,
            0 <= dc,
            dc < bw,
            0 < bh,
            0 < bw,
    ;
}

/// A row-major flat index decomposes uniquely into its row and column
/// offsets.
pub(crate) proof fn lemma_flat_decompose(bw: int, dr: int, dc: int)
    requires
        0 < bw,
        0 <= dr,
        0 <= dc,
        dc < bw,
    ensures
        (dr * bw + dc) / bw == dr,
        (dr * bw + dc) % bw == dc,
{
    vstd::arithmetic::div_mod::lemma_fundamental_div_mod_converse(dr * bw + dc, bw, dr, dc);
}

/// Every position a row query describes lies within the grid.
proof fn lemma_row_positions_in_bounds(n: nat, pos: Position)
    requires
        in_bounds(pos, n),
        n <= usize::MAX,
    ensures
        forall|i: int|
            0 <= i < row_positions_seq(n, pos).len() ==> in_bounds(
                #[trigger] row_positions_seq(n, pos)[i],
                n,
            ),
{
}

/// Every position a column query describes lies within the grid.
proof fn lemma_col_positions_in_bounds(n: nat, pos: Position)
    requires
        in_bounds(pos, n),
        n <= usize::MAX,
    ensures
        forall|i: int|
            0 <= i < col_positions_seq(n, pos).len() ==> in_bounds(
                #[trigger] col_positions_seq(n, pos)[i],
                n,
            ),
{
}

/// Every position a box query describes lies within the grid.
proof fn lemma_box_positions_in_bounds(n: nat, bh: nat, bw: nat, pos: Position)
    requires
        in_bounds(pos, n),
        n <= usize::MAX,
        0 < bh,
        0 < bw,
        bw * bh == n,
    ensures
        forall|i: int|
            0 <= i < box_positions_seq(bh, bw, pos).len() ==> in_bounds(
                #[trigger] box_positions_seq(bh, bw, pos)[i],
                n,
            ),
{
    lemma_box_geometry(n, bh, bw, pos);
    let top = box_top(bh, pos);
    let left = box_left(bw, pos);
    let inner = box_inner_index(bh, bw, pos);
    assert forall|i: int|
        0 <= i < box_positions_seq(bh, bw, pos).len() implies in_bounds(
        #[trigger] box_positions_seq(bh, bw, pos)[i],
        n,
    ) by {
        let j = if i < inner {
            i
        } else {
            i + 1
        };
        lemma_div_block(j, bw as int, bh as int);
        assert(top + (j / bw as int) < n);
        assert(left + (j % bw as int) < n);
    }
}


/// Law: for every supported side length and in-bounds position, the row
/// and column queries each describe `n - 1` positions, the box query
/// `box_width * box_height - 1`, and none of the three ever includes the
/// queried position itself.
pub proof fn lemma_group_shapes(n: nat, pos: Position)
    requires
        supported_size(n),
        in_bounds(pos, n),
    ensures
        row_positions_seq(n, pos).len() == n - 1,
        col_positions_seq(n, pos).len() == n - 1,
        box_positions_seq(box_height_of(n), box_width_of(n), pos).len() == box_width_of(n)
            * box_height_of(n) - 1,
        !row_positions_seq(n, pos).contains(pos),
        !col_positions_seq(n, pos).contains(pos),
        !box_positions_seq(box_height_of(n), box_width_of(n), pos).contains(pos),
{
    let bh = box_height_of(n);
    let bw = box_width_of(n);
    assert(bw * bh == n && 0 < bh && 0 < bw);
    assert forall|i: int|
        0 <= i < row_positions_seq(n, pos).len() implies #[trigger] row_positions_seq(n, pos)[i]
        != pos by {
        assert(row_positions_seq(n, pos)[i].col != pos.col);
    }
    assert forall|i: int|
        0 <= i < col_positions_seq(n, pos).len() implies #[trigger] col_positions_seq(n, pos)[i]
        != pos by {
        assert(col_positions_seq(n, pos)[i].row != pos.row);
    }
    lemma_box_geometry(n, bh, bw, pos);
    let top = box_top(bh, pos);
    let left = box_left(bw, pos);
    let inner = box_inner_index(bh, bw, pos);
    assert forall|i: int|
        0 <= i < box_positions_seq(bh, bw, pos).len() implies #[trigger] box_positions_seq(
        bh,
        bw,
        pos,
    )[i] != pos by {
        let j = if i < inner {
            i
        } else {
            i + 1
        };
        lemma_div_block(j, bw as int, bh as int);
        assert(top + (j / bw as int) < n);
        assert(left + (j % bw as int) < n);
        if box_positions_seq(bh, bw, pos)[i] == pos {
            assert(top + (j / bw as int) == pos.row);
            assert(left + (j % bw as int) == pos.col);
            assert(bw * (pos.row - top) == (pos.row - top) * bw) by (nonlinear_arith);
            assert(j == inner);
            assert(false);
        }
    }
}

/// Law: a cell never conflicts with its own current content, whatever
/// the grid holds elsewhere.
pub proof fn lemma_no_self_conflict(
    cells: spec_fn(Position) -> char,
    n: nat,
    box_height: nat,
    box_width: nat,
    pos: Position,
)
    ensures
        !spec_conflicts(cells, n, box_height, box_width, pos, cells(pos)),
{
}

/// Law: the possibilities of a non-blank cell are exactly the one
/// symbol it already holds.
pub proof fn lemma_possibilities_filled(
    cells: spec_fn(Position) -> char,
    n: nat,
    box_height: nat,
    box_width: nat,
    pos: Position,
)
    requires
        cells(pos) != BLANK,
    ensures
        spec_possibilities(cells, n, box_height, box_width, pos) == seq![cells(pos)],
{
}

} // verus!
