//! A growable two-dimensional table of state identifiers.

use vstd::prelude::*;

verus! {

/// The state identifier that stands for "no state": an absent transition.
pub const INVALID: usize = usize::MAX;

/// A dense table with a fixed number of columns; rows are appended one at a time.
#[derive(Clone, Debug, PartialEq, Eq)]
pub struct Matrix {
    columns: usize,
    data: Vec<Vec<usize>>,
}

impl View for Matrix {
    type V = Seq<Seq<usize>>;

    closed spec fn view(&self) -> Seq<Seq<usize>> {
        self.data@.map_values(|row: Vec<usize>| row@)
    }
}

impl Matrix {
    /// Every row has `columns` cells.
    pub open spec fn wf(&self) -> bool {
        forall|r: int| 0 <= r < self@.len() ==> #[trigger] self@[r].len() == self.spec_columns()
    }

    pub closed spec fn spec_columns(&self) -> nat {
        self.columns as nat
    }

    /// The cell at (`r`, `c`), or `INVALID` outside the table.
    pub open spec fn cell(&self, r: int, c: int) -> usize {
        if 0 <= r < self@.len() && 0 <= c < self.spec_columns() {
            self@[r][c]
        } else {
            INVALID
        }
    }

    /// A table of `rows` rows in which no cell holds a transition.
    pub fn new(rows: usize, columns: usize) -> (m: Self)
        ensures
            m.wf(),
            m@.len() == rows,
            m.spec_columns() == columns,
            forall|r: int, c: int| 0 <= r < rows && 0 <= c < columns ==> m@[r][c] == INVALID,
    {
        let mut m = Matrix { columns, data: Vec::new() };
        let mut i: usize = 0;
        while i < rows
            invariant
                0 <= i <= rows,
                m.wf(),
                m@.len() == i,
                m.spec_columns() == columns,
                forall|r: int, c: int| 0 <= r < i && 0 <= c < columns ==> m@[r][c] == INVALID,
            decreases rows - i,
        {
            m.new_row();
            i = i + 1;
        }
        m
    }

    /// A table with the given rows, or `None` if they differ in length.
    pub fn from_rows(rows: Vec<Vec<usize>>) -> (m: Option<Self>)
        ensures
            m is Some <==> forall|r: int|
                0 <= r < rows@.len() ==> #[trigger] rows@[r]@.len() == rows@[0]@.len(),
            m matches Some(m) ==> {
                &&& m.wf()
                &&& m@ == rows@.map_values(|row: Vec<usize>| row@)
                &&& m.spec_columns() == if rows@.len() == 0 {
                    0
                } else {
                    rows@[0]@.len()
                }
            },
    {
        let n = rows.len();
        let columns = if n == 0 {
            0
        } else {
            rows[0].len()
        };
        let mut i: usize = 0;
        while i < n
            invariant
                0 <= i <= n,
                n == rows@.len(),
                n > 0 ==> columns == rows@[0]@.len(),
                forall|r: int| 0 <= r < i ==> #[trigger] rows@[r]@.len() == columns,
            decreases n - i,
        {
            if rows[i].len() != columns {
                return None;
            }
            i = i + 1;
        }
        Some(Matrix { columns, data: rows })
    }

    /// The number of rows.
    pub fn rows(&self) -> (r: usize)
        ensures
            r == self@.len(),
    {
        self.data.len()
    }

    /// The number of columns.
    pub fn columns(&self) -> (r: usize)
        ensures
            r == self.spec_columns(),
    {
        self.columns
    }

    /// Appends a row in which no cell holds a transition.
    pub fn new_row(&mut self)
        requires
            old(self).wf(),
        ensures
            final(self).wf(),
            final(self).spec_columns() == old(self).spec_columns(),
            final(self)@ == old(self)@.push(Seq::new(old(self).spec_columns(), |c: int| INVALID)),
    {
        let mut row: Vec<usize> = Vec::new();
        let mut c: usize = 0;
        while c < self.columns
            invariant
                0 <= c <= self.columns,
                row@ == Seq::new(c as nat, |k: int| INVALID),
            decreases self.columns - c,
        {
            row.push(INVALID);
            c = c + 1;
            assert(row@ =~= Seq::new(c as nat, |k: int| INVALID));
        }
        let ghost before = self@;
        self.data.push(row);
        assert(self@ =~= before.push(Seq::new(self.columns as nat, |k: int| INVALID)));
    }

    /// The cell at (`r`, `c`), or `INVALID` outside the table.
    pub fn get(&self, r: usize, c: usize) -> (v: usize)
        requires
            self.wf(),
        ensures
            v == self.cell(r as int, c as int),
    {
        if r < self.data.len() && c < self.columns {
            assert(self@[r as int].len() == self.columns);
            self.data[r][c]
        } else {
            INVALID
        }
    }

    /// Writes `v` at (`r`, `c`).
    pub fn set(&mut self, r: usize, c: usize, v: usize)
        requires
            old(self).wf(),
            r < old(self)@.len(),
            c < old(self).spec_columns(),
        ensures
            final(self).wf(),
            final(self).spec_columns() == old(self).spec_columns(),
            final(self)@ == old(self)@.update(r as int, old(self)@[r as int].update(c as int, v)),
    {
        let ghost before = self@;
        let mut row: Vec<usize> = Vec::new();
        core::mem::swap(&mut row, &mut self.data[r]);
        assert(row@ == before[r as int]);
        row.set(c, v);
        self.data.set(r, row);
        assert(self@ =~= before.update(r as int, before[r as int].update(c as int, v)));
    }
}

} // verus!
