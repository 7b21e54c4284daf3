//! Laying a witness out: regions placed one after another on the row grid,
//! cell and selector assignments, lookup tables and copy constraints.
use crate::circuit::{Column, ColumnKind, ConstraintSystem, Selector, TableColumn};
use crate::field::Fe;
use crate::prover::copy_fails;
use vstd::prelude::*;

verus! {

/// A cell of the grid, by column and absolute row.
#[derive(Clone, Copy, PartialEq, Eq, Structural, Debug)]
pub struct Cell {
    pub column: Column,
    pub row: usize,
}

/// Two cells that must hold the same value.
#[derive(Clone, Copy, PartialEq, Eq, Structural, Debug)]
pub struct CopyConstraint {
    pub a: Cell,
    pub b: Cell,
}

/// The block of rows given to a region.
#[derive(Clone, Copy, PartialEq, Eq, Structural, Debug)]
pub struct RegionInfo {
    pub start: usize,
    pub height: usize,
}

#[derive(Clone, Copy, PartialEq, Eq, Structural, Debug)]
pub enum SynthesisError {
    /// A region operation with no region open.
    NoOpenRegion,
    /// A region opened while another is open.
    RegionAlreadyOpen,
    /// A column of the wrong kind, or one the constraint system lacks.
    UnknownColumn,
    UnknownSelector,
    UnknownTable,
    /// A cell below the last row of the grid.
    OutOfRows,
    /// A cell written twice.
    AlreadyAssigned,
    /// A copy constraint on a column not enabled for equality.
    NotEqualityEnabled,
    /// Public inputs that do not fit the instance columns.
    InstanceShape,
}

pub open spec fn fe_opt(o: Option<Fe>) -> Option<int> {
    match o {
        Some(v) => Some(v.val()),
        None => None,
    }
}

/// Position of `(col, row)` in a grid stored column after column.
pub open spec fn flat(col: int, row: int, rows: int) -> int {
    col * rows + row
}

pub proof fn lemma_flat_in_bounds(col: int, row: int, n: int, rows: int)
    requires
        0 <= col < n,
        0 <= row < rows,
    ensures
        0 <= col * rows,
        0 <= flat(col, row, rows) < n * rows,
{
    assert(0 <= col * rows && col * rows + row < n * rows) by (nonlinear_arith)
        requires
            0 <= col < n,
            0 <= row < rows,
    ;
}

pub proof fn lemma_flat_distinct(c1: int, r1: int, c2: int, r2: int, rows: int)
    requires
        0 <= c1,
        0 <= c2,
        0 <= r1 < rows,
        0 <= r2 < rows,
        c1 != c2 || r1 != r2,
    ensures
        flat(c1, r1, rows) != flat(c2, r2, rows),
{
    if c1 < c2 {
        assert(c1 * rows + r1 < c2 * rows + r2) by (nonlinear_arith)
            requires
                c1 < c2,
                0 <= r1 < rows,
                0 <= r2,
        ;
    } else if c2 < c1 {
        assert(c2 * rows + r2 < c1 * rows + r1) by (nonlinear_arith)
            requires
                c2 < c1,
                0 <= r2 < rows,
                0 <= r1,
        ;
    }
}

/// Regions follow each other from row 0 with no gap, and all fit the grid.
pub open spec fn placement_ok(regions: Seq<RegionInfo>, rows: int) -> bool {
    &&& regions.len() > 0 ==> regions[0].start == 0
    &&& forall|i: int|
        0 <= i < regions.len() - 1 ==> #[trigger] regions[i + 1].start == regions[i].start
            + regions[i].height
    &&& forall|i: int| 0 <= i < regions.len() ==> #[trigger] regions[i].start + regions[i].height <= rows
}

/// The first row after the last region.
pub open spec fn next_row(regions: Seq<RegionInfo>) -> int {
    if regions.len() == 0 {
        0
    } else {
        regions.last().start + regions.last().height
    }
}

/// A witness laid out on the grid of a constraint system.
pub struct Assignment {
    pub cs: ConstraintSystem,
    pub rows: usize,
    pub fixed: Vec<Option<Fe>>,
    pub advice: Vec<Option<Fe>>,
    pub instance: Vec<Option<Fe>>,
    pub selectors: Vec<bool>,
    pub tables: Vec<Option<Fe>>,
    /// For each table column, one past its last written row.
    pub table_lens: Vec<usize>,
    pub copies: Vec<CopyConstraint>,
    pub regions: Vec<RegionInfo>,
    /// Whether the last region is still open.
    pub open: bool,
}

impl Assignment {
    pub open spec fn wf(&self) -> bool {
        &&& self.fixed@.len() == self.cs.num_fixed * self.rows
        &&& self.advice@.len() == self.cs.num_advice * self.rows
        &&& self.instance@.len() == self.cs.num_instance * self.rows
        &&& self.selectors@.len() == self.cs.selectors@.len() * self.rows
        &&& self.tables@.len() == self.cs.num_tables * self.rows
        &&& self.table_lens@.len() == self.cs.num_tables
        &&& forall|t: int| 0 <= t < self.table_lens@.len() ==> #[trigger] self.table_lens@[t] <= self.rows
        &&& placement_ok(self.regions@, self.rows as int)
        &&& self.open ==> self.regions@.len() > 0
        &&& self.unused_from(next_row(self.regions@))
    }

    /// No fixed or advice cell from row `n` on is assigned, and no selector
    /// from row `n` on is on.
    pub open spec fn unused_from(&self, n: int) -> bool {
        &&& forall|c: Column, r: int|
            n <= r && c.kind != ColumnKind::Instance ==> #[trigger] self.cell(c, r) is None
        &&& forall|s: int, r: int| n <= r ==> !#[trigger] self.selector_on(s, r)
    }

    pub open spec fn num_columns(&self, kind: ColumnKind) -> int {
        match kind {
            ColumnKind::Fixed => self.cs.num_fixed as int,
            ColumnKind::Advice => self.cs.num_advice as int,
            ColumnKind::Instance => self.cs.num_instance as int,
        }
    }

    pub open spec fn grid(&self, kind: ColumnKind) -> Seq<Option<Fe>> {
        match kind {
            ColumnKind::Fixed => self.fixed@,
            ColumnKind::Advice => self.advice@,
            ColumnKind::Instance => self.instance@,
        }
    }

    /// What the cell holds; unknown outside the grid.
    pub open spec fn cell(&self, c: Column, row: int) -> Option<Fe> {
        if c.index < self.num_columns(c.kind) && 0 <= row < self.rows {
            self.grid(c.kind)[flat(c.index as int, row, self.rows as int)]
        } else {
            None
        }
    }

    pub open spec fn cell_value(&self, c: Column, row: int) -> Option<int> {
        fe_opt(self.cell(c, row))
    }

    pub open spec fn selector_on(&self, s: int, row: int) -> bool {
        0 <= s < self.cs.selectors@.len() && 0 <= row < self.rows && self.selectors@[flat(
            s,
            row,
            self.rows as int,
        )]
    }

    pub open spec fn table_cell(&self, t: int, row: int) -> Option<Fe> {
        if 0 <= t < self.cs.num_tables && 0 <= row < self.rows {
            self.tables@[flat(t, row, self.rows as int)]
        } else {
            None
        }
    }

    pub open spec fn table_len(&self, t: int) -> int {
        if 0 <= t < self.table_lens@.len() {
            self.table_lens@[t] as int
        } else {
            0
        }
    }

    /// Start of the open region.
    pub open spec fn current_start(&self) -> int {
        self.regions@.last().start as int
    }

    /// The regions with the open one grown to cover `offset`.
    pub open spec fn grown(&self, offset: int) -> Seq<RegionInfo> {
        let last = self.regions@.last();
        let h = if last.height >= offset + 1 {
            last.height
        } else {
            (offset + 1) as usize
        };
        self.regions@.update(self.regions@.len() - 1, RegionInfo { start: last.start, height: h })
    }

    /// Equal in everything but the cell grids and the regions.
    pub open spec fn same_but_cells(&self, o: &Assignment) -> bool {
        &&& self.cs == o.cs
        &&& self.rows == o.rows
        &&& self.selectors@ == o.selectors@
        &&& self.tables@ == o.tables@
        &&& self.table_lens@ == o.table_lens@
        &&& self.copies@ == o.copies@
        &&& self.open == o.open
    }
}

fn blank(n: usize) -> (r: Vec<Option<Fe>>)
    ensures
        r@.len() == n,
        forall|i: int| 0 <= i < n ==> r@[i] is None,
{
    let mut v: Vec<Option<Fe>> = Vec::new();
    while v.len() < n
        invariant
            v@.len() <= n,
            forall|i: int| 0 <= i < v@.len() ==> v@[i] is None,
        decreases n - v@.len(),
    {
        v.push(None);
    }
    v
}

fn blank_bools(n: usize) -> (r: Vec<bool>)
    ensures
        r@.len() == n,
        forall|i: int| 0 <= i < n ==> !r@[i],
{
    let mut v: Vec<bool> = Vec::new();
    while v.len() < n
        invariant
            v@.len() <= n,
            forall|i: int| 0 <= i < v@.len() ==> !v@[i],
        decreases n - v@.len(),
    {
        v.push(false);
    }
    v
}

fn zeros(n: usize) -> (r: Vec<usize>)
    ensures
        r@.len() == n,
        forall|i: int| 0 <= i < n ==> r@[i] == 0,
{
    let mut v: Vec<usize> = Vec::new();
    while v.len() < n
        invariant
            v@.len() <= n,
            forall|i: int| 0 <= i < v@.len() ==> v@[i] == 0,
        decreases n - v@.len(),
    {
        v.push(0);
    }
    v
}

/// The instance cell `(col, row)` given public inputs `pi`.
pub open spec fn public_cell(pi: Seq<Vec<Fe>>, col: int, row: int) -> Option<Fe> {
    if row < pi[col]@.len() {
        Some(pi[col]@[row])
    } else {
        None
    }
}

/// Public inputs fit: one vector per instance column, none longer than the grid.
pub open spec fn public_fits(pi: Seq<Vec<Fe>>, n: int, rows: int) -> bool {
    pi.len() == n && forall|c: int| 0 <= c < n ==> (#[trigger] pi[c])@.len() <= rows
}

fn instance_grid(pi: &Vec<Vec<Fe>>, rows: usize) -> (r: Vec<Option<Fe>>)
    requires
        pi@.len() * rows <= usize::MAX,
        forall|c: int| 0 <= c < pi@.len() ==> (#[trigger] pi@[c])@.len() <= rows,
    ensures
        r@.len() == pi@.len() * rows,
        forall|c: int, row: int|
            0 <= c < pi@.len() && 0 <= row < rows ==> #[trigger] r@[flat(c, row, rows as int)]
                == public_cell(pi@, c, row),
{
    let mut v: Vec<Option<Fe>> = Vec::new();
    let mut c: usize = 0;
    while c < pi.len()
        invariant
            c <= pi@.len(),
            pi@.len() * rows <= usize::MAX,
            v@.len() == c * rows,
            forall|c2: int, row: int|
                0 <= c2 < c && 0 <= row < rows ==> #[trigger] v@[flat(c2, row, rows as int)]
                    == public_cell(pi@, c2, row),
        decreases pi@.len() - c,
    {
        let col = &pi[c];
        let mut row: usize = 0;
        proof {
            assert(c * rows + rows <= pi@.len() * rows) by (nonlinear_arith)
                requires
                    c < pi@.len(),
            ;
        }
        while row < rows
            invariant
                c < pi@.len(),
                *col == pi@[c as int],
                row <= rows,
                c * rows + rows <= pi@.len() * rows,
                pi@.len() * rows <= usize::MAX,
                v@.len() == c * rows + row,
                forall|c2: int, r2: int|
                    0 <= c2 < c && 0 <= r2 < rows ==> #[trigger] v@[flat(c2, r2, rows as int)]
                        == public_cell(pi@, c2, r2),
                forall|r2: int|
                    0 <= r2 < row ==> #[trigger] v@[flat(c as int, r2, rows as int)] == public_cell(
                        pi@,
                        c as int,
                        r2,
                    ),
            decreases rows - row,
        {
            let x = if row < col.len() {
                Some(col[row])
            } else {
                None
            };
            proof {
                assert forall|c2: int, r2: int|
                    0 <= c2 < c && 0 <= r2 < rows implies flat(c2, r2, rows as int) < v@.len() by {
                    lemma_flat_in_bounds(c2, r2, c as int, rows as int);
                }
            }
            v.push(x);
            row = row + 1;
        }
        proof {
            assert((c + 1) * rows == c * rows + rows) by (nonlinear_arith);
        }
        c = c + 1;
    }
    v
}

impl Assignment {
    /// An empty layout for `cs` on `rows` rows; instance column `c` holds the
    /// public inputs `public[c]` from row 0, and is unknown below them.
    pub fn new(cs: ConstraintSystem, rows: usize, public: Vec<Vec<Fe>>) -> (r: Result<
        Assignment,
        SynthesisError,
    >)
        requires
            cs.num_fixed * rows <= usize::MAX,
            cs.num_advice * rows <= usize::MAX,
            cs.num_instance * rows <= usize::MAX,
            cs.selectors@.len() * rows <= usize::MAX,
            cs.num_tables * rows <= usize::MAX,
        ensures
            r is Err <==> !public_fits(public@, cs.num_instance as int, rows as int),
            r matches Err(e) ==> e == SynthesisError::InstanceShape,
            r matches Ok(a) ==> {
                &&& a.wf()
                &&& a.cs == cs
                &&& a.rows == rows
                &&& forall|i: int| 0 <= i < a.fixed@.len() ==> a.fixed@[i] is None
                &&& forall|i: int| 0 <= i < a.advice@.len() ==> a.advice@[i] is None
                &&& forall|i: int| 0 <= i < a.selectors@.len() ==> !a.selectors@[i]
                &&& forall|i: int| 0 <= i < a.tables@.len() ==> a.tables@[i] is None
                &&& forall|c: int, row: int|
                    0 <= c < cs.num_instance && 0 <= row < rows ==> #[trigger] a.cell(
                        Column { kind: ColumnKind::Instance, index: c as usize },
                        row,
                    ) == public_cell(public@, c, row)
                &&& forall|t: int| 0 <= t < cs.num_tables ==> a.table_len(t) == 0
                &&& a.copies@.len() == 0
                &&& a.regions@.len() == 0
                &&& !a.open
            },
    {
        if public.len() != cs.num_instance {
            return Err(SynthesisError::InstanceShape);
        }
        let mut c: usize = 0;
        while c < public.len()
            invariant
                c <= public@.len(),
                forall|k: int| 0 <= k < c ==> (#[trigger] public@[k])@.len() <= rows,
            decreases public@.len() - c,
        {
            if public[c].len() > rows {
                return Err(SynthesisError::InstanceShape);
            }
            c = c + 1;
        }
        let instance = instance_grid(&public, rows);
        let a = Assignment {
            rows,
            fixed: blank(cs.num_fixed * rows),
            advice: blank(cs.num_advice * rows),
            instance,
            selectors: blank_bools(cs.selectors.len() * rows),
            tables: blank(cs.num_tables * rows),
            table_lens: zeros(cs.num_tables),
            copies: Vec::new(),
            regions: Vec::new(),
            open: false,
            cs,
        };
        proof {
            assert forall|c2: Column, r2: int| 0 <= r2 && c2.kind != ColumnKind::Instance implies #[trigger] a.cell(c2, r2) is None by {
                if c2.index < a.num_columns(c2.kind) && r2 < a.rows {
                    lemma_flat_in_bounds(c2.index as int, r2, a.num_columns(c2.kind), a.rows as int);
                }
            }
            assert forall|s2: int, r2: int| 0 <= r2 implies !#[trigger] a.selector_on(s2, r2) by {
                if 0 <= s2 < a.cs.selectors@.len() && r2 < a.rows {
                    lemma_flat_in_bounds(s2, r2, a.cs.selectors@.len() as int, a.rows as int);
                }
            }
        }
        Ok(a)
    }

    /// Opens a region; it starts on the first row after the previous one.
    pub fn begin_region(&mut self) -> (r: Result<(), SynthesisError>)
        requires
            old(self).wf(),
        ensures
            final(self).wf(),
            r is Err <==> old(self).open,
            r matches Err(e) ==> e == SynthesisError::RegionAlreadyOpen,
            r is Err ==> *final(self) == *old(self),
            r is Ok ==> final(self).open && final(self).regions@ == old(self).regions@.push(
                RegionInfo { start: next_row(old(self).regions@) as usize, height: 0 },
            ),
            r is Ok ==> {
                &&& final(self).cs == old(self).cs
                &&& final(self).rows == old(self).rows
                &&& final(self).fixed@ == old(self).fixed@
                &&& final(self).advice@ == old(self).advice@
                &&& final(self).instance@ == old(self).instance@
                &&& final(self).selectors@ == old(self).selectors@
                &&& final(self).tables@ == old(self).tables@
                &&& final(self).table_lens@ == old(self).table_lens@
                &&& final(self).copies@ == old(self).copies@
            },
    {
        if self.open {
            return Err(SynthesisError::RegionAlreadyOpen);
        }
        let start = if self.regions.len() == 0 {
            0
        } else {
            let last = self.regions[self.regions.len() - 1];
            last.start + last.height
        };
        self.regions.push(RegionInfo { start, height: 0 });
        self.open = true;
        proof {
            old(self).lemma_copies_only(self);
        }
        Ok(())
    }

    /// Closes the open region; its block of rows is final.
    pub fn end_region(&mut self) -> (r: Result<(), SynthesisError>)
        requires
            old(self).wf(),
        ensures
            final(self).wf(),
            r is Err <==> !old(self).open,
            r matches Err(e) ==> e == SynthesisError::NoOpenRegion,
            r is Err ==> *final(self) == *old(self),
            r is Ok ==> !final(self).open && *final(self) == (Assignment { open: false, ..*old(self) }),
    {
        if !self.open {
            return Err(SynthesisError::NoOpenRegion);
        }
        self.open = false;
        proof {
            old(self).lemma_copies_only(self);
        }
        Ok(())
    }
}

impl Assignment {
    pub open spec fn in_grid(&self, c: Cell) -> bool {
        self.cs.has_column(c.column) && c.row < self.rows
    }

    /// Why writing `kind` column `c` at `offset` of the open region fails, if it does.
    pub open spec fn assign_error(&self, c: Column, kind: ColumnKind, offset: int) -> Option<
        SynthesisError,
    > {
        if !self.open {
            Some(SynthesisError::NoOpenRegion)
        } else if c.kind != kind || c.index >= self.num_columns(kind) {
            Some(SynthesisError::UnknownColumn)
        } else if self.current_start() + offset >= self.rows {
            Some(SynthesisError::OutOfRows)
        } else if self.cell(c, self.current_start() + offset) is Some {
            Some(SynthesisError::AlreadyAssigned)
        } else {
            None
        }
    }

    /// Why a copy of `src` into advice column `c` at `offset` fails, if it does.
    pub open spec fn copy_error(&self, src: Cell, c: Column, offset: int) -> Option<SynthesisError> {
        if !self.open {
            Some(SynthesisError::NoOpenRegion)
        } else if c.kind != ColumnKind::Advice || c.index >= self.cs.num_advice || !self.in_grid(
            src,
        ) {
            Some(SynthesisError::UnknownColumn)
        } else if !self.cs.equality_enabled(src.column) || !self.cs.equality_enabled(c) {
            Some(SynthesisError::NotEqualityEnabled)
        } else if self.current_start() + offset >= self.rows {
            Some(SynthesisError::OutOfRows)
        } else if self.cell(c, self.current_start() + offset) is Some {
            Some(SynthesisError::AlreadyAssigned)
        } else {
            None
        }
    }

    /// The grids after `kind` cell `(c, row)` is set to `v`.
    pub open spec fn written(&self, o: &Assignment, kind: ColumnKind, c: Column, row: int, v: Option<Fe>) -> bool {
        let i = flat(c.index as int, row, self.rows as int);
        &&& o.grid(kind) == self.grid(kind).update(i, v)
        &&& forall|k: ColumnKind| k != kind ==> o.grid(k) == self.grid(k)
        &&& o.cell(c, row) == v
        &&& forall|c2: Column, r2: int| !(c2 == c && r2 == row) ==> #[trigger] o.cell(c2, r2) == self.cell(c2, r2)
    }

    /// Equal grids, tables and next free row: `o` is well formed too.
    proof fn lemma_copies_only(&self, o: &Assignment)
        requires
            self.wf(),
            o.cs == self.cs,
            o.rows == self.rows,
            o.fixed@ == self.fixed@,
            o.advice@ == self.advice@,
            o.instance@ == self.instance@,
            o.selectors@ == self.selectors@,
            o.tables@ == self.tables@,
            o.table_lens@ == self.table_lens@,
            next_row(o.regions@) == next_row(self.regions@),
            placement_ok(o.regions@, o.rows as int),
            o.open ==> o.regions@.len() > 0,
        ensures
            o.wf(),
            forall|c: Column, r: int| #[trigger] o.cell(c, r) == self.cell(c, r),
    {
        assert(forall|k: ColumnKind| o.grid(k) == self.grid(k));
        assert(forall|c: Column, r: int| #[trigger] o.cell(c, r) == self.cell(c, r));
        assert(forall|s2: int, r: int| #[trigger] o.selector_on(s2, r) == self.selector_on(s2, r));
    }

    pub proof fn lemma_grid_len(&self, kind: ColumnKind)
        requires
            self.wf(),
        ensures
            self.grid(kind).len() == self.num_columns(kind) * self.rows,
    {
    }

    proof fn lemma_written(&self, o: &Assignment, kind: ColumnKind, c: Column, row: int, v: Option<Fe>)
        requires
            self.wf(),
            c.kind == kind,
            c.index < self.num_columns(kind),
            0 <= row < self.rows,
            o.cs == self.cs,
            o.rows == self.rows,
            o.grid(kind) == self.grid(kind).update(flat(c.index as int, row, self.rows as int), v),
            forall|k: ColumnKind| k != kind ==> o.grid(k) == self.grid(k),
            kind != ColumnKind::Instance,
            row < next_row(self.regions@),
            o.selectors@ == self.selectors@,
            o.tables@ == self.tables@,
            o.table_lens@ == self.table_lens@,
            o.regions@ == self.regions@,
            o.open == self.open,
        ensures
            self.written(o, kind, c, row, v),
            o.wf(),
    {
        let i = flat(c.index as int, row, self.rows as int);
        lemma_flat_in_bounds(c.index as int, row, self.num_columns(kind), self.rows as int);
        self.lemma_grid_len(kind);
        assert forall|c2: Column, r2: int| !(c2 == c && r2 == row) implies #[trigger] o.cell(c2, r2)
            == self.cell(c2, r2) by {
            if c2.index < self.num_columns(c2.kind) && 0 <= r2 < self.rows {
                let j = flat(c2.index as int, r2, self.rows as int);
                lemma_flat_in_bounds(c2.index as int, r2, self.num_columns(c2.kind), self.rows as int);
                if c2.kind == kind {
                    lemma_flat_distinct(c2.index as int, r2, c.index as int, row, self.rows as int);
                    assert(o.grid(kind)[j] == self.grid(kind)[j]);
                } else {
                    assert(o.grid(c2.kind) == self.grid(c2.kind));
                }
            }
        }
        assert(o.fixed@.len() == self.fixed@.len() && o.advice@.len() == self.advice@.len()
            && o.instance@.len() == self.instance@.len()) by {
            assert(o.grid(ColumnKind::Fixed).len() == self.grid(ColumnKind::Fixed).len());
            assert(o.grid(ColumnKind::Advice).len() == self.grid(ColumnKind::Advice).len());
            assert(o.grid(ColumnKind::Instance).len() == self.grid(ColumnKind::Instance).len());
        }
        assert forall|c2: Column, r2: int| next_row(o.regions@) <= r2 && c2.kind != ColumnKind::Instance implies #[trigger] o.cell(c2, r2) is None by {
            assert(self.cell(c2, r2) is None);
        }
        assert forall|s2: int, r2: int| next_row(o.regions@) <= r2 implies !#[trigger] o.selector_on(s2, r2) by {
            assert(!self.selector_on(s2, r2));
        }
    }

    fn grow(&mut self, offset: usize)
        requires
            old(self).wf(),
            old(self).open,
            old(self).current_start() + offset < old(self).rows,
        ensures
            final(self).wf(),
            final(self).regions@ == old(self).grown(offset as int),
            final(self).cs == old(self).cs,
            final(self).rows == old(self).rows,
            final(self).fixed@ == old(self).fixed@,
            final(self).advice@ == old(self).advice@,
            final(self).instance@ == old(self).instance@,
            final(self).selectors@ == old(self).selectors@,
            final(self).tables@ == old(self).tables@,
            final(self).table_lens@ == old(self).table_lens@,
            final(self).copies@ == old(self).copies@,
            final(self).open == old(self).open,
    {
        let li = self.regions.len() - 1;
        let last = self.regions[li];
        if last.height < offset + 1 {
            self.regions.set(li, RegionInfo { start: last.start, height: offset + 1 });
        }
        proof {
            assert(self.regions@ =~= old(self).grown(offset as int));
            assert(next_row(self.regions@) >= next_row(old(self).regions@));
            assert(forall|c2: Column, r2: int| #[trigger] self.cell(c2, r2) == old(self).cell(c2, r2));
            assert(forall|s2: int, r2: int| #[trigger] self.selector_on(s2, r2) == old(self).selector_on(s2, r2));
        }
    }

    fn write_cell(&mut self, kind: ColumnKind, idx: usize, v: Option<Fe>)
        requires
            idx < old(self).grid(kind).len(),
        ensures
            final(self).grid(kind) == old(self).grid(kind).update(idx as int, v),
            forall|k: ColumnKind| k != kind ==> final(self).grid(k) == old(self).grid(k),
            final(self).cs == old(self).cs,
            final(self).rows == old(self).rows,
            final(self).selectors@ == old(self).selectors@,
            final(self).tables@ == old(self).tables@,
            final(self).table_lens@ == old(self).table_lens@,
            final(self).copies@ == old(self).copies@,
            final(self).regions@ == old(self).regions@,
            final(self).open == old(self).open,
    {
        match kind {
            ColumnKind::Fixed => self.fixed.set(idx, v),
            ColumnKind::Advice => self.advice.set(idx, v),
            ColumnKind::Instance => self.instance.set(idx, v),
        }
    }

    fn read_cell(&self, kind: ColumnKind, idx: usize) -> (r: Option<Fe>)
        requires
            idx < self.grid(kind).len(),
        ensures
            r == self.grid(kind)[idx as int],
    {
        match kind {
            ColumnKind::Fixed => self.fixed[idx],
            ColumnKind::Advice => self.advice[idx],
            ColumnKind::Instance => self.instance[idx],
        }
    }

    fn grid_len(&self, kind: ColumnKind) -> (r: usize)
        ensures
            r == self.grid(kind).len(),
    {
        match kind {
            ColumnKind::Fixed => self.fixed.len(),
            ColumnKind::Advice => self.advice.len(),
            ColumnKind::Instance => self.instance.len(),
        }
    }

    fn num_cols(&self, kind: ColumnKind) -> (r: usize)
        ensures
            r == self.num_columns(kind),
    {
        match kind {
            ColumnKind::Fixed => self.cs.num_fixed,
            ColumnKind::Advice => self.cs.num_advice,
            ColumnKind::Instance => self.cs.num_instance,
        }
    }

    /// What cell `c` holds; unknown outside the grid.
    pub fn get_cell(&self, c: Cell) -> (r: Option<Fe>)
        requires
            self.wf(),
        ensures
            r == self.cell(c.column, c.row as int),
    {
        if c.column.index < self.num_cols(c.column.kind) && c.row < self.rows {
            let len = self.grid_len(c.column.kind);
            proof {
                lemma_flat_in_bounds(c.column.index as int, c.row as int, self.num_columns(c.column.kind), self.rows as int);
            }
            self.read_cell(c.column.kind, c.column.index * self.rows + c.row)
        } else {
            None
        }
    }

    fn assign_cell(&mut self, kind: ColumnKind, column: Column, offset: usize, value: Fe) -> (r: Result<Cell, SynthesisError>)
        requires
            old(self).wf(),
            kind != ColumnKind::Instance,
        ensures
            final(self).wf(),
            r is Err <==> old(self).assign_error(column, kind, offset as int) is Some,
            r matches Err(e) ==> old(self).assign_error(column, kind, offset as int) == Some(e),
            r is Err ==> *final(self) == *old(self),
            r matches Ok(cell) ==> {
                let row = old(self).current_start() + offset;
                &&& cell == Cell { column, row: row as usize }
                &&& old(self).written(final(self), kind, column, row, Some(value))
                &&& final(self).regions@ == old(self).grown(offset as int)
                &&& old(self).same_but_cells(final(self))
            },
    {
        if !self.open {
            return Err(SynthesisError::NoOpenRegion);
        }
        if column.kind != kind || column.index >= self.num_cols(kind) {
            return Err(SynthesisError::UnknownColumn);
        }
        let start = self.regions[self.regions.len() - 1].start;
        if offset >= self.rows - start {
            return Err(SynthesisError::OutOfRows);
        }
        let row = start + offset;
        let len = self.grid_len(kind);
        proof {
            lemma_flat_in_bounds(column.index as int, row as int, self.num_columns(kind), self.rows as int);
        }
        let idx = column.index * self.rows + row;
        if self.read_cell(kind, idx).is_some() {
            return Err(SynthesisError::AlreadyAssigned);
        }
        let ghost before = *self;
        self.grow(offset);
        let ghost mid = *self;
        self.write_cell(kind, idx, Some(value));
        proof {
            mid.lemma_grid_len(kind);
            mid.lemma_written(self, kind, column, row as int, Some(value));
            assert(forall|c2: Column, r2: int| #[trigger] mid.cell(c2, r2) == before.cell(c2, r2));
            assert(forall|k: ColumnKind| mid.grid(k) == before.grid(k));
        }
        Ok(Cell { column, row })
    }

    /// Writes a witness value into advice column `column` at `offset` rows
    /// into the open region, and returns the cell.
    pub fn assign_advice(&mut self, column: Column, offset: usize, value: Fe) -> (r: Result<Cell, SynthesisError>)
        requires
            old(self).wf(),
        ensures
            final(self).wf(),
            r is Err <==> old(self).assign_error(column, ColumnKind::Advice, offset as int) is Some,
            r matches Err(e) ==> old(self).assign_error(column, ColumnKind::Advice, offset as int) == Some(e),
            r is Err ==> *final(self) == *old(self),
            r matches Ok(cell) ==> {
                let row = old(self).current_start() + offset;
                &&& cell == Cell { column, row: row as usize }
                &&& old(self).written(final(self), ColumnKind::Advice, column, row, Some(value))
                &&& final(self).regions@ == old(self).grown(offset as int)
                &&& old(self).same_but_cells(final(self))
            },
    {
        self.assign_cell(ColumnKind::Advice, column, offset, value)
    }

    /// Writes a constant into fixed column `column` at `offset` rows into the
    /// open region, and returns the cell.
    pub fn assign_fixed(&mut self, column: Column, offset: usize, value: Fe) -> (r: Result<Cell, SynthesisError>)
        requires
            old(self).wf(),
        ensures
            final(self).wf(),
            r is Err <==> old(self).assign_error(column, ColumnKind::Fixed, offset as int) is Some,
            r matches Err(e) ==> old(self).assign_error(column, ColumnKind::Fixed, offset as int) == Some(e),
            r is Err ==> *final(self) == *old(self),
            r matches Ok(cell) ==> {
                let row = old(self).current_start() + offset;
                &&& cell == Cell { column, row: row as usize }
                &&& old(self).written(final(self), ColumnKind::Fixed, column, row, Some(value))
                &&& final(self).regions@ == old(self).grown(offset as int)
                &&& old(self).same_but_cells(final(self))
            },
    {
        self.assign_cell(ColumnKind::Fixed, column, offset, value)
    }
}

impl Assignment {
    pub open spec fn selector_error(&self, s: Selector, offset: int) -> Option<SynthesisError> {
        if !self.open {
            Some(SynthesisError::NoOpenRegion)
        } else if !self.cs.has_selector(s) {
            Some(SynthesisError::UnknownSelector)
        } else if self.current_start() + offset >= self.rows {
            Some(SynthesisError::OutOfRows)
        } else {
            None
        }
    }

    /// Turns selector `s` on at `offset` rows into the open region.
    pub fn enable_selector(&mut self, s: Selector, offset: usize) -> (r: Result<(), SynthesisError>)
        requires
            old(self).wf(),
        ensures
            final(self).wf(),
            r is Err <==> old(self).selector_error(s, offset as int) is Some,
            r matches Err(e) ==> old(self).selector_error(s, offset as int) == Some(e),
            r is Err ==> *final(self) == *old(self),
            r is Ok ==> {
                let row = old(self).current_start() + offset;
                &&& final(self).selectors@ == old(self).selectors@.update(
                    flat(s.index as int, row, old(self).rows as int),
                    true,
                )
                &&& final(self).selector_on(s.index as int, row)
                &&& forall|s2: int, r2: int|
                    !(s2 == s.index && r2 == row) ==> #[trigger] final(self).selector_on(s2, r2)
                        == old(self).selector_on(s2, r2)
                &&& final(self).regions@ == old(self).grown(offset as int)
                &&& final(self).cs == old(self).cs
                &&& final(self).rows == old(self).rows
                &&& forall|k: ColumnKind| final(self).grid(k) == old(self).grid(k)
                &&& forall|c: Column, r2: int| #[trigger] final(self).cell(c, r2) == old(self).cell(c, r2)
                &&& final(self).tables@ == old(self).tables@
                &&& final(self).table_lens@ == old(self).table_lens@
                &&& final(self).copies@ == old(self).copies@
                &&& final(self).open == old(self).open
            },
    {
        if !self.open {
            return Err(SynthesisError::NoOpenRegion);
        }
        if !(s.index < self.cs.selectors.len() && self.cs.selectors[s.index] == s.complex) {
            return Err(SynthesisError::UnknownSelector);
        }
        let start = self.regions[self.regions.len() - 1].start;
        if offset >= self.rows - start {
            return Err(SynthesisError::OutOfRows);
        }
        let row = start + offset;
        let len = self.selectors.len();
        proof {
            lemma_flat_in_bounds(s.index as int, row as int, self.cs.selectors@.len() as int, self.rows as int);
        }
        let ghost before = *self;
        self.grow(offset);
        let ghost mid = *self;
        self.selectors.set(s.index * self.rows + row, true);
        proof {
            let i = flat(s.index as int, row as int, self.rows as int);
            assert(row < next_row(self.regions@));
            assert(forall|k: ColumnKind| self.grid(k) == before.grid(k));
            assert forall|s2: int, r2: int| next_row(self.regions@) <= r2 implies !#[trigger] self.selector_on(s2, r2) by {
                if 0 <= s2 < self.cs.selectors@.len() && 0 <= r2 < self.rows {
                    lemma_flat_distinct(s2, r2, s.index as int, row as int, self.rows as int);
                    lemma_flat_in_bounds(s2, r2, self.cs.selectors@.len() as int, self.rows as int);
                    let j = flat(s2, r2, self.rows as int);
                    assert(self.selectors@[j] == mid.selectors@[j]);
                    assert(!mid.selector_on(s2, r2));
                }
            }
            assert forall|c2: Column, r2: int| next_row(self.regions@) <= r2 && c2.kind != ColumnKind::Instance implies #[trigger] self.cell(c2, r2) is None by {
                assert(mid.cell(c2, r2) is None);
            }
            lemma_flat_in_bounds(s.index as int, row as int, self.cs.selectors@.len() as int, self.rows as int);
            assert forall|s2: int, r2: int| !(s2 == s.index && r2 == row) implies #[trigger] self.selector_on(s2, r2)
                == before.selector_on(s2, r2) by {
                if 0 <= s2 < self.cs.selectors@.len() && 0 <= r2 < self.rows {
                    lemma_flat_distinct(s2, r2, s.index as int, row as int, self.rows as int);
                    lemma_flat_in_bounds(s2, r2, self.cs.selectors@.len() as int, self.rows as int);
                    let j = flat(s2, r2, self.rows as int);
                    assert(self.selectors@[j] == mid.selectors@[j]);
                }
            }
            assert(forall|c2: Column, r2: int| #[trigger] self.cell(c2, r2) == before.cell(c2, r2));
        }
        Ok(())
    }

    pub open spec fn table_error(&self, t: TableColumn, offset: int) -> Option<SynthesisError> {
        if t.index >= self.cs.num_tables {
            Some(SynthesisError::UnknownTable)
        } else if offset >= self.rows {
            Some(SynthesisError::OutOfRows)
        } else if self.table_cell(t.index as int, offset) is Some {
            Some(SynthesisError::AlreadyAssigned)
        } else {
            None
        }
    }

    /// Writes row `offset` of lookup table column `t`.
    pub fn assign_table_cell(&mut self, t: TableColumn, offset: usize, value: Fe) -> (r: Result<(), SynthesisError>)
        requires
            old(self).wf(),
        ensures
            final(self).wf(),
            r is Err <==> old(self).table_error(t, offset as int) is Some,
            r matches Err(e) ==> old(self).table_error(t, offset as int) == Some(e),
            r is Err ==> *final(self) == *old(self),
            r is Ok ==> {
                &&& final(self).tables@ == old(self).tables@.update(
                    flat(t.index as int, offset as int, old(self).rows as int),
                    Some(value),
                )
                &&& final(self).table_lens@ == old(self).table_lens@.update(
                    t.index as int,
                    if old(self).table_lens@[t.index as int] > offset {
                        old(self).table_lens@[t.index as int]
                    } else {
                        (offset + 1) as usize
                    },
                )
                &&& final(self).cs == old(self).cs
                &&& final(self).rows == old(self).rows
                &&& forall|k: ColumnKind| final(self).grid(k) == old(self).grid(k)
                &&& final(self).selectors@ == old(self).selectors@
                &&& final(self).copies@ == old(self).copies@
                &&& final(self).regions@ == old(self).regions@
                &&& final(self).open == old(self).open
            },
    {
        if t.index >= self.cs.num_tables {
            return Err(SynthesisError::UnknownTable);
        }
        if offset >= self.rows {
            return Err(SynthesisError::OutOfRows);
        }
        let len = self.tables.len();
        proof {
            lemma_flat_in_bounds(t.index as int, offset as int, self.cs.num_tables as int, self.rows as int);
        }
        let idx = t.index * self.rows + offset;
        if self.tables[idx].is_some() {
            return Err(SynthesisError::AlreadyAssigned);
        }
        self.tables.set(idx, Some(value));
        let old_len = self.table_lens[t.index];
        if old_len <= offset {
            self.table_lens.set(t.index, offset + 1);
        }
        proof {
            assert(forall|k: ColumnKind| self.grid(k) == old(self).grid(k));
            assert(forall|c: Column, r: int| #[trigger] self.cell(c, r) == old(self).cell(c, r));
            assert(forall|s2: int, r: int| #[trigger] self.selector_on(s2, r) == old(self).selector_on(s2, r));
            assert(self.table_lens@ =~= old(self).table_lens@.update(
                t.index as int,
                if old_len > offset { old_len } else { (offset + 1) as usize },
            ));
        }
        Ok(())
    }

    fn is_in_grid(&self, c: Cell) -> (r: bool)
        ensures
            r == self.in_grid(c),
    {
        c.column.index < self.num_cols(c.column.kind) && c.row < self.rows
    }

    pub open spec fn equal_error(&self, a: Cell, b: Cell) -> Option<SynthesisError> {
        if !self.in_grid(a) || !self.in_grid(b) {
            Some(SynthesisError::UnknownColumn)
        } else if !self.cs.equality_enabled(a.column) || !self.cs.equality_enabled(b.column) {
            Some(SynthesisError::NotEqualityEnabled)
        } else {
            None
        }
    }

    /// Requires cells `a` and `b` to hold the same value.
    pub fn constrain_equal(&mut self, a: Cell, b: Cell) -> (r: Result<(), SynthesisError>)
        requires
            old(self).wf(),
        ensures
            final(self).wf(),
            r is Err <==> old(self).equal_error(a, b) is Some,
            r matches Err(e) ==> old(self).equal_error(a, b) == Some(e),
            r is Err ==> *final(self) == *old(self),
            r is Ok ==> *final(self) == (Assignment {
                copies: final(self).copies,
                ..*old(self)
            }) && final(self).copies@ == old(self).copies@.push(CopyConstraint { a, b }),
    {
        if !self.is_in_grid(a) || !self.is_in_grid(b) {
            return Err(SynthesisError::UnknownColumn);
        }
        if !self.cs.is_equality_enabled(a.column) || !self.cs.is_equality_enabled(b.column) {
            return Err(SynthesisError::NotEqualityEnabled);
        }
        self.copies.push(CopyConstraint { a, b });
        proof {
            old(self).lemma_copies_only(self);
        }
        Ok(())
    }

    /// Requires `cell` to equal row `row` of instance column `instance`.
    pub fn constrain_instance(&mut self, cell: Cell, instance: Column, row: usize) -> (r: Result<(), SynthesisError>)
        requires
            old(self).wf(),
        ensures
            final(self).wf(),
            r is Err <==> instance.kind != ColumnKind::Instance || old(self).equal_error(
                cell,
                Cell { column: instance, row },
            ) is Some,
            r matches Err(e) ==> (instance.kind != ColumnKind::Instance && e
                == SynthesisError::UnknownColumn) || old(self).equal_error(
                cell,
                Cell { column: instance, row },
            ) == Some(e),
            r is Err ==> *final(self) == *old(self),
            r is Ok ==> *final(self) == (Assignment {
                copies: final(self).copies,
                ..*old(self)
            }) && final(self).copies@ == old(self).copies@.push(
                CopyConstraint { a: cell, b: Cell { column: instance, row } },
            ),
    {
        if instance.kind != ColumnKind::Instance {
            return Err(SynthesisError::UnknownColumn);
        }
        self.constrain_equal(cell, Cell { column: instance, row })
    }

    /// Writes the value of `src` into advice column `column` at `offset` rows
    /// into the open region, requires the two cells to be equal, and returns
    /// the new cell.
    pub fn copy_advice(&mut self, src: Cell, column: Column, offset: usize) -> (r: Result<Cell, SynthesisError>)
        requires
            old(self).wf(),
        ensures
            final(self).wf(),
            r is Err <==> old(self).copy_error(src, column, offset as int) is Some,
            r matches Err(e) ==> old(self).copy_error(src, column, offset as int) == Some(e),
            r is Err ==> *final(self) == *old(self),
            r matches Ok(cell) ==> {
                let row = old(self).current_start() + offset;
                &&& cell == Cell { column, row: row as usize }
                &&& old(self).written(
                    final(self),
                    ColumnKind::Advice,
                    column,
                    row,
                    old(self).cell(src.column, src.row as int),
                )
                &&& final(self).cell(column, row) == final(self).cell(src.column, src.row as int)
                &&& final(self).copies@ == old(self).copies@.push(CopyConstraint { a: src, b: cell })
                &&& !copy_fails(final(self), old(self).copies@.len() as int)
                &&& final(self).regions@ == old(self).grown(offset as int)
                &&& final(self).cs == old(self).cs
                &&& final(self).rows == old(self).rows
                &&& final(self).selectors@ == old(self).selectors@
                &&& final(self).tables@ == old(self).tables@
                &&& final(self).table_lens@ == old(self).table_lens@
                &&& final(self).open == old(self).open
            },
    {
        if !self.open {
            return Err(SynthesisError::NoOpenRegion);
        }
        if column.kind != ColumnKind::Advice || column.index >= self.cs.num_advice
            || !self.is_in_grid(src) {
            return Err(SynthesisError::UnknownColumn);
        }
        if !self.cs.is_equality_enabled(src.column) || !self.cs.is_equality_enabled(column) {
            return Err(SynthesisError::NotEqualityEnabled);
        }
        let start = self.regions[self.regions.len() - 1].start;
        if offset >= self.rows - start {
            return Err(SynthesisError::OutOfRows);
        }
        let row = start + offset;
        let len = self.grid_len(ColumnKind::Advice);
        proof {
            lemma_flat_in_bounds(column.index as int, row as int, self.cs.num_advice as int, self.rows as int);
        }
        let idx = column.index * self.rows + row;
        if self.advice[idx].is_some() {
            return Err(SynthesisError::AlreadyAssigned);
        }
        let v = self.get_cell(src);
        let ghost before = *self;
        self.grow(offset);
        let ghost mid = *self;
        self.write_cell(ColumnKind::Advice, idx, v);
        proof {
            mid.lemma_grid_len(ColumnKind::Advice);
            mid.lemma_written(self, ColumnKind::Advice, column, row as int, v);
        }
        let ghost mid2 = *self;
        let dest = Cell { column, row };
        self.copies.push(CopyConstraint { a: src, b: dest });
        proof {
            mid2.lemma_copies_only(self);
            assert(forall|c2: Column, r2: int| #[trigger] mid.cell(c2, r2) == before.cell(c2, r2));
            assert(forall|k: ColumnKind| mid.grid(k) == before.grid(k));
            if !(src.column == column && src.row == row) {
                assert(self.cell(src.column, src.row as int) == before.cell(src.column, src.row as int));
            }
        }
        Ok(dest)
    }
}

impl Assignment {
    /// Extends the open region to cover row `offset` of it, leaving every cell
    /// as it is.
    pub fn reserve(&mut self, offset: usize) -> (r: Result<(), SynthesisError>)
        requires
            old(self).wf(),
        ensures
            final(self).wf(),
            r is Err <==> !old(self).open || old(self).current_start() + offset >= old(self).rows,
            r matches Err(e) ==> e == if old(self).open {
                SynthesisError::OutOfRows
            } else {
                SynthesisError::NoOpenRegion
            },
            r is Err ==> *final(self) == *old(self),
            r is Ok ==> final(self).regions@ == old(self).grown(offset as int) && old(
                self,
            ).same_but_cells(final(self)) && forall|k: ColumnKind|
                final(self).grid(k) == old(self).grid(k),
    {
        if !self.open {
            return Err(SynthesisError::NoOpenRegion);
        }
        let start = self.regions[self.regions.len() - 1].start;
        if offset >= self.rows - start {
            return Err(SynthesisError::OutOfRows);
        }
        self.grow(offset);
        Ok(())
    }
}

/// What a region placed from row `start` leaves unchanged: every cell and
/// selector above it, the instance columns and the tables.
pub open spec fn keeps_above(a: &Assignment, b: &Assignment, start: int) -> bool {
    &&& b.cs == a.cs
    &&& b.rows == a.rows
    &&& forall|c: Column, r: int|
        (r < start || c.kind == ColumnKind::Instance) ==> #[trigger] b.cell(c, r) == a.cell(c, r)
    &&& forall|s: int, r: int| r < start ==> #[trigger] b.selector_on(s, r) == a.selector_on(s, r)
    &&& b.tables@ == a.tables@
    &&& b.table_lens@ == a.table_lens@
}

/// `keeps_above` composes.
pub proof fn lemma_keeps_above_trans(a: &Assignment, b: &Assignment, d: &Assignment, s1: int, s2: int)
    requires
        keeps_above(a, b, s1),
        keeps_above(b, d, s2),
        s1 <= s2,
    ensures
        keeps_above(a, d, s1),
{
    assert forall|c: Column, r: int| (r < s1 || c.kind == ColumnKind::Instance) implies #[trigger] d.cell(c, r) == a.cell(c, r) by {
        assert(d.cell(c, r) == b.cell(c, r));
    }
    assert forall|s: int, r: int| r < s1 implies #[trigger] d.selector_on(s, r) == a.selector_on(s, r) by {
        assert(d.selector_on(s, r) == b.selector_on(s, r));
    }
}

/// A cell written by an earlier region.
pub open spec fn earlier(a: &Assignment, x: Cell) -> bool {
    a.in_grid(x) && x.row < next_row(a.regions@)
}

/// The value in row `r` of table column `t`.
pub open spec fn table_value(a: &Assignment, t: TableColumn, r: int) -> Option<int> {
    fe_opt(a.table_cell(t.index as int, r))
}

/// Table column `t` has nothing written.
pub open spec fn table_empty(a: &Assignment, t: TableColumn) -> bool {
    a.table_len(t.index as int) == 0 && forall|r: int| #[trigger] a.table_cell(t.index as int, r) is None
}

/// Only the table columns differ.
pub open spec fn same_but_tables(a: &Assignment, b: &Assignment) -> bool {
    &&& b.cs == a.cs
    &&& b.rows == a.rows
    &&& forall|k: ColumnKind| b.grid(k) == a.grid(k)
    &&& b.selectors@ == a.selectors@
    &&& b.regions@ == a.regions@
    &&& b.copies@ == a.copies@
    &&& b.open == a.open
}

/// Writes the integer `v` into row `r` of table column `t`.
pub fn set_table_value(a: &mut Assignment, t: TableColumn, r: usize, v: u64) -> (res: Result<(), SynthesisError>)
    requires
        old(a).wf(),
        t.index < old(a).cs.num_tables,
        old(a).table_cell(t.index as int, r as int) is None,
    ensures
        final(a).wf(),
        res is Ok <==> r < old(a).rows,
        res matches Err(e) ==> e == SynthesisError::OutOfRows,
        res is Err ==> *final(a) == *old(a),
        res is Ok ==> {
            &&& same_but_tables(old(a), final(a))
            &&& table_value(final(a), t, r as int) == Some(v as int)
            &&& final(a).table_len(t.index as int) == if old(a).table_len(t.index as int) > r {
                old(a).table_len(t.index as int)
            } else {
                r + 1
            }
            &&& forall|t2: int, r2: int| !(t2 == t.index && r2 == r) ==> #[trigger] final(a).table_cell(t2, r2) == old(a).table_cell(t2, r2)
            &&& forall|t2: int| t2 != t.index ==> #[trigger] final(a).table_len(t2) == old(a).table_len(t2)
        },
{
    let res = a.assign_table_cell(t, r, Fe::from_u64(v));
    proof {
        if res is Ok {
            lemma_flat_in_bounds(t.index as int, r as int, a.cs.num_tables as int, a.rows as int);
            assert forall|t2: int, r2: int| !(t2 == t.index && r2 == r) implies #[trigger] a.table_cell(t2, r2) == old(a).table_cell(t2, r2) by {
                if 0 <= t2 < a.cs.num_tables && 0 <= r2 < a.rows {
                    lemma_flat_distinct(t2, r2, t.index as int, r as int, a.rows as int);
                    lemma_flat_in_bounds(t2, r2, a.cs.num_tables as int, a.rows as int);
                }
            }
        }
    }
    res
}

} // verus!
