use vstd::prelude::*;

verus! {

/// One of the two markers that can occupy a cell.
#[derive(PartialEq, Eq, Structural, Debug, Copy, Clone)]
pub enum Figure {
    X,
    O,
}

/// The other marker.
pub open spec fn opponent_of(f: Figure) -> Figure {
    match f {
        Figure::X => Figure::O,
        Figure::O => Figure::X,
    }
}

impl Figure {
    /// The other marker.
    pub fn opponent(&self) -> (r: Figure)
        ensures
            r == opponent_of(*self),
    {
        match self {
            Figure::X => Figure::O,
            Figure::O => Figure::X,
        }
    }
}

/// Switching to the opponent twice gives the marker back, and no marker is
/// its own opponent.
pub proof fn lemma_opponent_involution(f: Figure)
    ensures
        opponent_of(opponent_of(f)) == f,
        opponent_of(f) != f,
{
}

/// A position on a board: row and column, both counted from zero.
#[derive(PartialEq, Eq, Structural, Debug, Copy, Clone)]
pub struct Cell {
    pub row: usize,
    pub col: usize,
}

/// What a board holds, as mathematics: its dimensions and its cells in
/// row-major order.
pub ghost struct TableView {
    pub row_count: nat,
    pub col_count: nat,
    pub cells: Seq<Option<Figure>>,
}

/// Row-major position of a cell in a grid with `col_count` columns.
pub open spec fn offset_of(c: Cell, col_count: nat) -> int {
    c.row * col_count + c.col
}

impl TableView {
    /// One entry per cell, and a cell count that fits in memory.
    pub open spec fn wf(self) -> bool {
        &&& self.cells.len() == self.row_count * self.col_count
        &&& self.row_count * self.col_count <= usize::MAX
    }

    /// The cell lies inside the grid.
    pub open spec fn contains(self, c: Cell) -> bool {
        c.row < self.row_count && c.col < self.col_count
    }

    /// What the cell holds.
    pub open spec fn at(self, c: Cell) -> Option<Figure> {
        self.cells[offset_of(c, self.col_count)]
    }

    /// The same grid with one cell overwritten.
    pub open spec fn with(self, c: Cell, v: Option<Figure>) -> TableView {
        TableView { cells: self.cells.update(offset_of(c, self.col_count), v), ..self }
    }

    /// The contents of one row, in column order.
    pub open spec fn row(self, index: nat) -> Seq<Option<Figure>> {
        self.cells.subrange(
            (index * self.col_count) as int,
            (index * self.col_count + self.col_count) as int,
        )
    }

    /// A grid of the given size whose cells are all empty.
    pub open spec fn empty(row_count: nat, col_count: nat) -> TableView {
        TableView {
            row_count,
            col_count,
            cells: Seq::new(row_count * col_count, |i: int| None),
        }
    }
}

/// A row inside a grid ends inside the grid.
pub proof fn lemma_row_bounds(row: nat, rows: nat, cols: nat)
    requires
        row < rows,
    ensures
        row * cols + cols <= rows * cols,
{
    assert(row * cols + cols <= rows * cols) by (nonlinear_arith)
        requires
            row < rows,
    ;
}

/// Two distinct cells inside a grid lie at distinct offsets.
pub proof fn lemma_offset_injective(a: Cell, b: Cell, cols: nat)
    requires
        a.col < cols,
        b.col < cols,
        a != b,
    ensures
        offset_of(a, cols) != offset_of(b, cols),
{
    if a.row == b.row {
    } else if a.row < b.row {
        assert(a.row * cols + cols <= b.row * cols) by (nonlinear_arith)
            requires
                a.row < b.row,
        ;
    } else {
        assert(b.row * cols + cols <= a.row * cols) by (nonlinear_arith)
            requires
                b.row < a.row,
        ;
    }
}

/// Every cell of a new board is empty.
pub proof fn lemma_new_table_empty(rows: nat, cols: nat, c: Cell)
    requires
        c.row < rows,
        c.col < cols,
    ensures
        TableView::empty(rows, cols).at(c) is None,
{
    lemma_row_bounds(c.row as nat, rows, cols);
}

/// Writing a cell and reading it back gives what was written; every other
/// cell, the dimensions and well-formedness are kept.
pub proof fn lemma_set_then_get(t: TableView, c: Cell, v: Option<Figure>)
    requires
        t.wf(),
        t.contains(c),
    ensures
        t.with(c, v).wf(),
        t.with(c, v).row_count == t.row_count,
        t.with(c, v).col_count == t.col_count,
        t.with(c, v).at(c) == v,
        forall|d: Cell| #[trigger] t.contains(d) && d != c ==> t.with(c, v).at(d) == t.at(d),
{
    lemma_row_bounds(c.row as nat, t.row_count, t.col_count);
    assert forall|d: Cell| #[trigger] t.contains(d) && d != c implies t.with(c, v).at(d) == t.at(d) by {
        lemma_row_bounds(d.row as nat, t.row_count, t.col_count);
        lemma_offset_injective(c, d, t.col_count);
    }
}

/// Position `c.col` of row `c.row` holds what the cell `c` holds.
pub proof fn lemma_row_holds_cells(t: TableView, c: Cell)
    requires
        t.wf(),
        t.contains(c),
    ensures
        t.row(c.row as nat).len() == t.col_count,
        t.row(c.row as nat)[c.col as int] == t.at(c),
{
    lemma_row_bounds(c.row as nat, t.row_count, t.col_count);
}

/// A rectangular board of optional markers, stored row by row.
pub struct Table {
    col_count: usize,
    row_count: usize,
    values: Vec<Option<Figure>>,
}

impl View for Table {
    type V = TableView;

    closed spec fn view(&self) -> TableView {
        TableView {
            row_count: self.row_count as nat,
            col_count: self.col_count as nat,
            cells: self.values@,
        }
    }
}

impl Table {
    /// The storage holds exactly one entry per cell.
    pub open spec fn wf(&self) -> bool {
        self@.wf()
    }

    /// A board of the given size with every cell empty.
    pub fn new(row_count: usize, col_count: usize) -> (r: Table)
        requires
            row_count * col_count <= usize::MAX,
        ensures
            r.wf(),
            r@ == TableView::empty(row_count as nat, col_count as nat),
            forall|c: Cell| #[trigger] r@.contains(c) ==> r@.at(c) is None,
    {
        let n: usize = row_count * col_count;
        let mut values: Vec<Option<Figure>> = Vec::with_capacity(n);
        let mut i: usize = 0;
        while i < n
            invariant
                i <= n,
                values@ == Seq::new(i as nat, |k: int| None::<Figure>),
            decreases n - i,
        {
            values.push(None);
            i = i + 1;
            assert(values@ =~= Seq::new(i as nat, |k: int| None::<Figure>));
        }
        let r = Table { col_count, row_count, values };
        assert(r@.cells =~= TableView::empty(row_count as nat, col_count as nat).cells);
        assert forall|c: Cell| #[trigger] r@.contains(c) implies r@.at(c) is None by {
            lemma_new_table_empty(row_count as nat, col_count as nat, c);
        }
        r
    }

    /// Number of rows.
    pub fn row_count(&self) -> (r: usize)
        ensures
            r == self@.row_count,
    {
        self.row_count
    }

    /// Number of columns.
    pub fn col_count(&self) -> (r: usize)
        ensures
            r == self@.col_count,
    {
        self.col_count
    }

    /// What the cell holds. The cell must lie inside the board.
    pub fn get(&self, cell: Cell) -> (r: Option<Figure>)
        requires
            self.wf(),
            self@.contains(cell),
        ensures
            r == self@.at(cell),
    {
        let offset = cell.offset(self);
        self.values[offset]
    }

    /// Overwrites one cell. The cell must lie inside the board.
    pub fn set(&mut self, cell: Cell, value: Option<Figure>)
        requires
            old(self).wf(),
            old(self)@.contains(cell),
        ensures
            final(self).wf(),
            final(self)@ == old(self)@.with(cell, value),
    {
        let offset = cell.offset(self);
        let ghost before = self@;
        self.values.set(offset, value);
        assert(self@.cells =~= before.with(cell, value).cells);
    }

    /// The contents of one row, in column order. The row must lie inside
    /// the board, which must have at least one column.
    pub fn row(&self, index: usize) -> (r: &[Option<Figure>])
        requires
            self.wf(),
            index < self@.row_count,
            self@.col_count > 0,
        ensures
            r@ == self@.row(index as nat),
    {
        proof {
            lemma_row_bounds(index as nat, self.row_count as nat, self.col_count as nat);
        }
        let start: usize = index * self.col_count;
        vstd::slice::slice_subrange(self.values.as_slice(), start, start + self.col_count)
    }

    /// A walk over the rows of the board, from the first to the last.
    pub fn iter(&self) -> (r: Iter<'_>)
        requires
            self.wf(),
        ensures
            r.wf(),
            r.table() == self,
            r.position() == 0,
    {
        Iter { row: 0, table: self }
    }
}

impl Cell {
    /// Row-major position of the cell in the board's storage.
    fn offset(&self, table: &Table) -> (r: usize)
        requires
            table.wf(),
            table@.contains(*self),
        ensures
            r == offset_of(*self, table@.col_count),
            r < table@.cells.len(),
    {
        proof {
            lemma_row_bounds(self.row as nat, table.row_count as nat, table.col_count as nat);
        }
        self.row * table.col_count + self.col
    }

    /// The cell lies inside the board.
    pub fn is_valid(&self, table: &Table) -> (r: bool)
        ensures
            r == table@.contains(*self),
    {
        self.row < table.row_count && self.col < table.col_count
    }
}

/// A walk over the rows of a board; each call of `next` hands out the
/// following row until the rows run out.
pub struct Iter<'a> {
    row: usize,
    table: &'a Table,
}

impl<'a> Iter<'a> {
    /// The board walked over.
    pub closed spec fn table(&self) -> &'a Table {
        self.table
    }

    /// Index of the row that `next` hands out next.
    pub closed spec fn position(&self) -> nat {
        self.row as nat
    }

    /// The board is well formed and the walk has not gone past its end.
    pub open spec fn wf(&self) -> bool {
        &&& self.table().wf()
        &&& self.position() <= self.table()@.row_count
    }

    /// The next row, or `None` once every row has been handed out. A board
    /// without columns has no rows to hand out.
    pub fn next(&mut self) -> (r: Option<&'a [Option<Figure>]>)
        requires
            old(self).wf(),
        ensures
            final(self).wf(),
            final(self).table() == old(self).table(),
            match r {
                Some(values) => {
                    &&& old(self).position() < old(self).table()@.row_count
                    &&& old(self).table()@.col_count > 0
                    &&& values@ == old(self).table()@.row(old(self).position())
                    &&& final(self).position() == old(self).position() + 1
                },
                None => {
                    &&& (old(self).position() >= old(self).table()@.row_count
                        || old(self).table()@.col_count == 0)
                    &&& final(self).position() == old(self).position()
                },
            },
    {
        if self.row < self.table.row_count && self.table.col_count > 0 {
            let values = self.table.row(self.row);
            self.row = self.row + 1;
            Some(values)
        } else {
            None
        }
    }

    /// Bounds on the number of rows left: both equal to it.
    pub fn size_hint(&self) -> (r: (usize, Option<usize>))
        requires
            self.wf(),
        ensures
            r.0 == if self.table()@.col_count == 0 {
                0
            } else {
                self.table()@.row_count - self.position()
            },
            r.1 == Some(r.0),
    {
        let remaining: usize = if self.table.col_count == 0 {
            0
        } else {
            self.table.row_count - self.row
        };
        (remaining, Some(remaining))
    }
}

} // verus!
