//! The declarative side of a circuit: columns, selectors, expressions, gates,
//! lookups and the columns that take part in copy constraints.
use crate::field::Fe;
use vstd::prelude::*;

verus! {

#[derive(Clone, Copy, PartialEq, Eq, Structural, Debug)]
pub enum ColumnKind {
    /// Circuit-defined constants.
    Fixed,
    /// Witness values.
    Advice,
    /// Public inputs, supplied when the circuit is checked.
    Instance,
}

/// A column of the grid; `index` counts the columns of its kind.
#[derive(Clone, Copy, PartialEq, Eq, Structural, Debug)]
pub struct Column {
    pub kind: ColumnKind,
    pub index: usize,
}

/// A column that holds a lookup table.
#[derive(Clone, Copy, PartialEq, Eq, Structural, Debug)]
pub struct TableColumn {
    pub index: usize,
}

/// A boolean pseudo-column that switches gates and lookups on and off. A simple
/// selector serves one gate and no lookup; a complex one may be used anywhere.
#[derive(Clone, Copy, PartialEq, Eq, Structural, Debug)]
pub struct Selector {
    pub index: usize,
    pub complex: bool,
}

/// A polynomial over cells, read relative to the row it is evaluated at.
#[derive(Debug)]
pub enum Expr {
    Constant(Fe),
    /// The cell of `column` at `rotation` rows from the current one.
    Query(Column, i32),
    Selector(Selector),
    Negated(Box<Expr>),
    Sum(Box<Expr>, Box<Expr>),
    Product(Box<Expr>, Box<Expr>),
}

impl Expr {
    pub fn constant(v: Fe) -> (r: Expr)
        ensures
            r == Expr::Constant(v),
    {
        Expr::Constant(v)
    }

    pub fn query(column: Column, rotation: i32) -> (r: Expr)
        ensures
            r == Expr::Query(column, rotation),
    {
        Expr::Query(column, rotation)
    }

    pub fn selector(s: Selector) -> (r: Expr)
        ensures
            r == Expr::Selector(s),
    {
        Expr::Selector(s)
    }

    pub fn negated(e: Expr) -> (r: Expr)
        ensures
            r == Expr::Negated(Box::new(e)),
    {
        Expr::Negated(Box::new(e))
    }

    pub fn sum(a: Expr, b: Expr) -> (r: Expr)
        ensures
            r == Expr::Sum(Box::new(a), Box::new(b)),
    {
        Expr::Sum(Box::new(a), Box::new(b))
    }

    /// `a - b`, written as `a + (-b)`.
    pub fn difference(a: Expr, b: Expr) -> (r: Expr)
        ensures
            r == Expr::Sum(Box::new(a), Box::new(Expr::Negated(Box::new(b)))),
    {
        Expr::Sum(Box::new(a), Box::new(Expr::Negated(Box::new(b))))
    }

    pub fn product(a: Expr, b: Expr) -> (r: Expr)
        ensures
            r == Expr::Product(Box::new(a), Box::new(b)),
    {
        Expr::Product(Box::new(a), Box::new(b))
    }
}

/// The cell of `col` at `rot` rows from the current one.
pub open spec fn q(col: Column, rot: i32) -> Expr {
    Expr::Query(col, rot)
}

/// `x + y`.
pub open spec fn sum(x: Expr, y: Expr) -> Expr {
    Expr::Sum(Box::new(x), Box::new(y))
}

/// `x * y`.
pub open spec fn prod(x: Expr, y: Expr) -> Expr {
    Expr::Product(Box::new(x), Box::new(y))
}

/// `-x`.
pub open spec fn neg(x: Expr) -> Expr {
    Expr::Negated(Box::new(x))
}

/// Whether `e` reads the selector `Selector { index, complex: false }`.
pub open spec fn mentions_simple(e: Expr, index: int) -> bool
    decreases e,
{
    match e {
        Expr::Constant(_) => false,
        Expr::Query(_, _) => false,
        Expr::Selector(s) => !s.complex && s.index == index,
        Expr::Negated(a) => mentions_simple(*a, index),
        Expr::Sum(a, b) => mentions_simple(*a, index) || mentions_simple(*b, index),
        Expr::Product(a, b) => mentions_simple(*a, index) || mentions_simple(*b, index),
    }
}

/// Whether `e` reads any simple selector.
pub open spec fn has_simple(e: Expr) -> bool
    decreases e,
{
    match e {
        Expr::Constant(_) => false,
        Expr::Query(_, _) => false,
        Expr::Selector(s) => !s.complex,
        Expr::Negated(a) => has_simple(*a),
        Expr::Sum(a, b) => has_simple(*a) || has_simple(*b),
        Expr::Product(a, b) => has_simple(*a) || has_simple(*b),
    }
}

pub open spec fn seq_mentions_simple(es: Seq<Expr>, index: int) -> bool {
    exists|p: int| 0 <= p < es.len() && mentions_simple(#[trigger] es[p], index)
}

fn expr_mentions_simple(e: &Expr, index: usize) -> (r: bool)
    ensures
        r == mentions_simple(*e, index as int),
    decreases e,
{
    match e {
        Expr::Constant(_) => false,
        Expr::Query(_, _) => false,
        Expr::Selector(s) => !s.complex && s.index == index,
        Expr::Negated(a) => expr_mentions_simple(a, index),
        Expr::Sum(a, b) => expr_mentions_simple(a, index) || expr_mentions_simple(b, index),
        Expr::Product(a, b) => expr_mentions_simple(a, index) || expr_mentions_simple(b, index),
    }
}

fn expr_has_simple(e: &Expr) -> (r: bool)
    ensures
        r == has_simple(*e),
    decreases e,
{
    match e {
        Expr::Constant(_) => false,
        Expr::Query(_, _) => false,
        Expr::Selector(s) => !s.complex,
        Expr::Negated(a) => expr_has_simple(a),
        Expr::Sum(a, b) => expr_has_simple(a) || expr_has_simple(b),
        Expr::Product(a, b) => expr_has_simple(a) || expr_has_simple(b),
    }
}

fn any_mentions_simple(es: &Vec<Expr>, index: usize) -> (r: bool)
    ensures
        r == seq_mentions_simple(es@, index as int),
{
    let mut p: usize = 0;
    while p < es.len()
        invariant
            p <= es.len(),
            forall|q: int| 0 <= q < p ==> !mentions_simple(#[trigger] es@[q], index as int),
        decreases es.len() - p,
    {
        if expr_mentions_simple(&es[p], index) {
            return true;
        }
        p = p + 1;
    }
    false
}

/// A named list of polynomials that must vanish on every row.
#[derive(Debug)]
pub struct Gate {
    pub name: String,
    pub polys: Vec<Expr>,
}

/// One component of a lookup: the value of `input` must appear in `table`.
#[derive(Debug)]
pub struct LookupInput {
    pub input: Expr,
    pub table: TableColumn,
}

/// On every row, the tuple of inputs must equal some row of the tables.
#[derive(Debug)]
pub struct Lookup {
    pub name: String,
    pub inputs: Vec<LookupInput>,
}

#[derive(Clone, Copy, PartialEq, Eq, Structural, Debug)]
pub enum ConfigError {
    /// A column that this constraint system did not create.
    UnknownColumn,
    /// A selector that this constraint system did not create, or one whose
    /// kind (simple or complex) differs from the one it was created with.
    UnknownSelector,
    /// A table column that this constraint system did not create.
    UnknownTable,
    /// A gate with no polynomial.
    EmptyGate,
    /// A lookup with no input.
    EmptyLookup,
    /// A simple selector read by a lookup.
    SimpleSelectorInLookup,
    /// A simple selector read by a second gate.
    SimpleSelectorReused,
}

/// The shape of a circuit, built once before any witness is laid out.
pub struct ConstraintSystem {
    pub num_fixed: usize,
    pub num_advice: usize,
    pub num_instance: usize,
    pub num_tables: usize,
    /// For each selector, whether it is complex.
    pub selectors: Vec<bool>,
    pub gates: Vec<Gate>,
    pub lookups: Vec<Lookup>,
    /// The columns that may take part in copy constraints.
    pub equality: Vec<Column>,
}

impl ConstraintSystem {
    pub open spec fn has_column(&self, c: Column) -> bool {
        match c.kind {
            ColumnKind::Fixed => c.index < self.num_fixed,
            ColumnKind::Advice => c.index < self.num_advice,
            ColumnKind::Instance => c.index < self.num_instance,
        }
    }

    pub open spec fn has_selector(&self, s: Selector) -> bool {
        s.index < self.selectors@.len() && self.selectors@[s.index as int] == s.complex
    }

    /// Every column and selector that `e` reads belongs to this system.
    pub open spec fn expr_valid(&self, e: Expr) -> bool
        decreases e,
    {
        match e {
            Expr::Constant(_) => true,
            Expr::Query(c, _) => self.has_column(c),
            Expr::Selector(s) => self.has_selector(s),
            Expr::Negated(a) => self.expr_valid(*a),
            Expr::Sum(a, b) => self.expr_valid(*a) && self.expr_valid(*b),
            Expr::Product(a, b) => self.expr_valid(*a) && self.expr_valid(*b),
        }
    }

    pub open spec fn polys_valid(&self, es: Seq<Expr>) -> bool {
        forall|p: int| 0 <= p < es.len() ==> self.expr_valid(#[trigger] es[p])
    }

    pub open spec fn inputs_valid(&self, ins: Seq<LookupInput>) -> bool {
        forall|j: int|
            0 <= j < ins.len() ==> self.expr_valid(#[trigger] ins[j].input) && ins[j].table.index
                < self.num_tables
    }

    pub open spec fn inputs_columns_valid(&self, ins: Seq<LookupInput>) -> bool {
        forall|j: int| 0 <= j < ins.len() ==> self.expr_valid(#[trigger] ins[j].input)
    }

    pub open spec fn inputs_tables_valid(&self, ins: Seq<LookupInput>) -> bool {
        forall|j: int| 0 <= j < ins.len() ==> (#[trigger] ins[j]).table.index < self.num_tables
    }

    /// Some existing gate reads the simple selector `index`.
    pub open spec fn simple_used_by_gate(&self, index: int) -> bool {
        exists|g: int|
            0 <= g < self.gates@.len() && seq_mentions_simple(#[trigger] self.gates@[g].polys@, index)
    }

    /// Some simple selector that `es` reads is read by an existing gate.
    pub open spec fn reuses_simple(&self, es: Seq<Expr>) -> bool {
        exists|i: int|
            0 <= i < self.selectors@.len() && #[trigger] seq_mentions_simple(es, i)
                && self.simple_used_by_gate(i)
    }

    pub open spec fn equality_enabled(&self, c: Column) -> bool {
        self.equality@.contains(c)
    }

    /// The same system, with only the named parts allowed to differ.
    pub open spec fn same_columns(&self, o: &ConstraintSystem) -> bool {
        &&& self.num_fixed == o.num_fixed
        &&& self.num_advice == o.num_advice
        &&& self.num_instance == o.num_instance
        &&& self.num_tables == o.num_tables
        &&& self.selectors@ == o.selectors@
    }

    pub fn new() -> (r: ConstraintSystem)
        ensures
            r.num_fixed == 0,
            r.num_advice == 0,
            r.num_instance == 0,
            r.num_tables == 0,
            r.selectors@.len() == 0,
            r.gates@.len() == 0,
            r.lookups@.len() == 0,
            r.equality@.len() == 0,
    {
        ConstraintSystem {
            num_fixed: 0,
            num_advice: 0,
            num_instance: 0,
            num_tables: 0,
            selectors: Vec::new(),
            gates: Vec::new(),
            lookups: Vec::new(),
            equality: Vec::new(),
        }
    }

    pub fn fixed_column(&mut self) -> (r: Column)
        requires
            old(self).num_fixed < usize::MAX,
        ensures
            r == (Column { kind: ColumnKind::Fixed, index: old(self).num_fixed }),
            final(self).num_fixed == old(self).num_fixed + 1,
            final(self).num_advice == old(self).num_advice,
            final(self).num_instance == old(self).num_instance,
            final(self).num_tables == old(self).num_tables,
            final(self).selectors@ == old(self).selectors@,
            final(self).gates@ == old(self).gates@,
            final(self).lookups@ == old(self).lookups@,
            final(self).equality@ == old(self).equality@,
    {
        let c = Column { kind: ColumnKind::Fixed, index: self.num_fixed };
        self.num_fixed = self.num_fixed + 1;
        c
    }

    pub fn advice_column(&mut self) -> (r: Column)
        requires
            old(self).num_advice < usize::MAX,
        ensures
            r == (Column { kind: ColumnKind::Advice, index: old(self).num_advice }),
            final(self).num_advice == old(self).num_advice + 1,
            final(self).num_fixed == old(self).num_fixed,
            final(self).num_instance == old(self).num_instance,
            final(self).num_tables == old(self).num_tables,
            final(self).selectors@ == old(self).selectors@,
            final(self).gates@ == old(self).gates@,
            final(self).lookups@ == old(self).lookups@,
            final(self).equality@ == old(self).equality@,
    {
        let c = Column { kind: ColumnKind::Advice, index: self.num_advice };
        self.num_advice = self.num_advice + 1;
        c
    }

    pub fn instance_column(&mut self) -> (r: Column)
        requires
            old(self).num_instance < usize::MAX,
        ensures
            r == (Column { kind: ColumnKind::Instance, index: old(self).num_instance }),
            final(self).num_instance == old(self).num_instance + 1,
            final(self).num_fixed == old(self).num_fixed,
            final(self).num_advice == old(self).num_advice,
            final(self).num_tables == old(self).num_tables,
            final(self).selectors@ == old(self).selectors@,
            final(self).gates@ == old(self).gates@,
            final(self).lookups@ == old(self).lookups@,
            final(self).equality@ == old(self).equality@,
    {
        let c = Column { kind: ColumnKind::Instance, index: self.num_instance };
        self.num_instance = self.num_instance + 1;
        c
    }

    pub fn lookup_table_column(&mut self) -> (r: TableColumn)
        requires
            old(self).num_tables < usize::MAX,
        ensures
            r == (TableColumn { index: old(self).num_tables }),
            final(self).num_tables == old(self).num_tables + 1,
            final(self).num_fixed == old(self).num_fixed,
            final(self).num_advice == old(self).num_advice,
            final(self).num_instance == old(self).num_instance,
            final(self).selectors@ == old(self).selectors@,
            final(self).gates@ == old(self).gates@,
            final(self).lookups@ == old(self).lookups@,
            final(self).equality@ == old(self).equality@,
    {
        let c = TableColumn { index: self.num_tables };
        self.num_tables = self.num_tables + 1;
        c
    }

    fn new_selector(&mut self, complex: bool) -> (r: Selector)
        ensures
            r.index == old(self).selectors@.len(),
            r.complex == complex,
            final(self).selectors@ == old(self).selectors@.push(complex),
            final(self).num_fixed == old(self).num_fixed,
            final(self).num_advice == old(self).num_advice,
            final(self).num_instance == old(self).num_instance,
            final(self).num_tables == old(self).num_tables,
            final(self).gates@ == old(self).gates@,
            final(self).lookups@ == old(self).lookups@,
            final(self).equality@ == old(self).equality@,
    {
        let s = Selector { index: self.selectors.len(), complex };
        self.selectors.push(complex);
        s
    }

    /// A selector for one gate.
    pub fn selector(&mut self) -> (r: Selector)
        ensures
            r.index == old(self).selectors@.len(),
            r.complex == false,
            final(self).selectors@ == old(self).selectors@.push(false),
            final(self).num_fixed == old(self).num_fixed,
            final(self).num_advice == old(self).num_advice,
            final(self).num_instance == old(self).num_instance,
            final(self).num_tables == old(self).num_tables,
            final(self).gates@ == old(self).gates@,
            final(self).lookups@ == old(self).lookups@,
            final(self).equality@ == old(self).equality@,
    {
        self.new_selector(false)
    }

    /// A selector that any number of gates and lookups may read.
    pub fn complex_selector(&mut self) -> (r: Selector)
        ensures
            r.index == old(self).selectors@.len(),
            r.complex == true,
            final(self).selectors@ == old(self).selectors@.push(true),
            final(self).num_fixed == old(self).num_fixed,
            final(self).num_advice == old(self).num_advice,
            final(self).num_instance == old(self).num_instance,
            final(self).num_tables == old(self).num_tables,
            final(self).gates@ == old(self).gates@,
            final(self).lookups@ == old(self).lookups@,
            final(self).equality@ == old(self).equality@,
    {
        self.new_selector(true)
    }

    fn check_expr(&self, e: &Expr) -> (r: Result<(), ConfigError>)
        ensures
            r is Ok <==> self.expr_valid(*e),
            r matches Err(x) ==> x == ConfigError::UnknownColumn || x == ConfigError::UnknownSelector,
        decreases e,
    {
        match e {
            Expr::Constant(_) => Ok(()),
            Expr::Query(c, _) => {
                let n = match c.kind {
                    ColumnKind::Fixed => self.num_fixed,
                    ColumnKind::Advice => self.num_advice,
                    ColumnKind::Instance => self.num_instance,
                };
                if c.index < n {
                    Ok(())
                } else {
                    Err(ConfigError::UnknownColumn)
                }
            },
            Expr::Selector(s) => {
                if s.index < self.selectors.len() && self.selectors[s.index] == s.complex {
                    Ok(())
                } else {
                    Err(ConfigError::UnknownSelector)
                }
            },
            Expr::Negated(a) => self.check_expr(a),
            Expr::Sum(a, b) | Expr::Product(a, b) => {
                match self.check_expr(a) {
                    Ok(()) => self.check_expr(b),
                    Err(x) => Err(x),
                }
            },
        }
    }

    fn check_polys(&self, es: &Vec<Expr>) -> (r: Result<(), ConfigError>)
        ensures
            r is Ok <==> self.polys_valid(es@),
            r matches Err(x) ==> x == ConfigError::UnknownColumn || x == ConfigError::UnknownSelector,
    {
        let mut p: usize = 0;
        while p < es.len()
            invariant
                p <= es.len(),
                forall|q: int| 0 <= q < p ==> self.expr_valid(#[trigger] es@[q]),
            decreases es.len() - p,
        {
            match self.check_expr(&es[p]) {
                Ok(()) => {},
                Err(x) => {
                    return Err(x);
                },
            }
            p = p + 1;
        }
        Ok(())
    }

    fn gates_mention_simple(&self, index: usize) -> (r: bool)
        ensures
            r == self.simple_used_by_gate(index as int),
    {
        let mut g: usize = 0;
        while g < self.gates.len()
            invariant
                g <= self.gates@.len(),
                forall|h: int|
                    0 <= h < g ==> !seq_mentions_simple(#[trigger] self.gates@[h].polys@, index as int),
            decreases self.gates@.len() - g,
        {
            if any_mentions_simple(&self.gates[g].polys, index) {
                return true;
            }
            g = g + 1;
        }
        false
    }

    fn find_reused_simple(&self, es: &Vec<Expr>) -> (r: bool)
        ensures
            r == self.reuses_simple(es@),
    {
        let mut i: usize = 0;
        while i < self.selectors.len()
            invariant
                i <= self.selectors@.len(),
                forall|k: int|
                    0 <= k < i ==> !(#[trigger] seq_mentions_simple(es@, k) && self.simple_used_by_gate(k)),
            decreases self.selectors@.len() - i,
        {
            if any_mentions_simple(es, i) && self.gates_mention_simple(i) {
                return true;
            }
            i = i + 1;
        }
        false
    }

    /// Adds a gate whose polynomials must vanish on every row, and returns its
    /// index.
    pub fn create_gate(&mut self, name: String, polys: Vec<Expr>) -> (r: Result<usize, ConfigError>)
        ensures
            old(self).same_columns(final(self)),
            final(self).lookups@ == old(self).lookups@,
            final(self).equality@ == old(self).equality@,
            r == Err::<usize, ConfigError>(ConfigError::EmptyGate) <==> polys@.len() == 0,
            r is Ok <==> polys@.len() > 0 && old(self).polys_valid(polys@) && !old(
                self,
            ).reuses_simple(polys@),
            r == Err::<usize, ConfigError>(ConfigError::SimpleSelectorReused) <==> polys@.len() > 0
                && old(self).polys_valid(polys@) && old(self).reuses_simple(polys@),
            r is Ok ==> r->Ok_0 == old(self).gates@.len() && final(self).gates@ == old(
                self,
            ).gates@.push(Gate { name, polys }),
            r is Err ==> final(self).gates@ == old(self).gates@,
    {
        if polys.len() == 0 {
            return Err(ConfigError::EmptyGate);
        }
        match self.check_polys(&polys) {
            Ok(()) => {},
            Err(x) => {
                return Err(x);
            },
        }
        if self.find_reused_simple(&polys) {
            return Err(ConfigError::SimpleSelectorReused);
        }
        let n = self.gates.len();
        self.gates.push(Gate { name, polys });
        Ok(n)
    }
    pub open spec fn lookup_has_simple(ins: Seq<LookupInput>) -> bool {
        exists|j: int| 0 <= j < ins.len() && has_simple(#[trigger] ins[j].input)
    }

    fn check_inputs(&self, ins: &Vec<LookupInput>) -> (r: Result<(), ConfigError>)
        ensures
            r is Ok <==> self.inputs_columns_valid(ins@) && self.inputs_tables_valid(ins@),
            r matches Err(x) ==> (x == ConfigError::UnknownColumn || x
                == ConfigError::UnknownSelector) && !self.inputs_columns_valid(ins@) || x
                == ConfigError::UnknownTable && self.inputs_columns_valid(ins@),
    {
        let mut j: usize = 0;
        while j < ins.len()
            invariant
                j <= ins.len(),
                forall|k: int| 0 <= k < j ==> self.expr_valid(#[trigger] ins@[k].input),
            decreases ins.len() - j,
        {
            match self.check_expr(&ins[j].input) {
                Ok(()) => {},
                Err(x) => {
                    return Err(x);
                },
            }
            j = j + 1;
        }
        let mut j: usize = 0;
        while j < ins.len()
            invariant
                j <= ins.len(),
                self.inputs_columns_valid(ins@),
                forall|k: int| 0 <= k < j ==> (#[trigger] ins@[k]).table.index < self.num_tables,
            decreases ins.len() - j,
        {
            if ins[j].table.index >= self.num_tables {
                return Err(ConfigError::UnknownTable);
            }
            j = j + 1;
        }
        Ok(())
    }

    fn find_simple_input(ins: &Vec<LookupInput>) -> (r: bool)
        ensures
            r == Self::lookup_has_simple(ins@),
    {
        let mut j: usize = 0;
        while j < ins.len()
            invariant
                j <= ins.len(),
                forall|k: int| 0 <= k < j ==> !has_simple(#[trigger] ins@[k].input),
            decreases ins.len() - j,
        {
            if expr_has_simple(&ins[j].input) {
                return true;
            }
            j = j + 1;
        }
        false
    }

    /// Adds a lookup: on every row the tuple of inputs must equal some row of
    /// the table columns. Returns its index.
    pub fn lookup(&mut self, name: String, inputs: Vec<LookupInput>) -> (r: Result<usize, ConfigError>)
        ensures
            old(self).same_columns(final(self)),
            final(self).gates@ == old(self).gates@,
            final(self).equality@ == old(self).equality@,
            r == Err::<usize, ConfigError>(ConfigError::EmptyLookup) <==> inputs@.len() == 0,
            r == Err::<usize, ConfigError>(ConfigError::UnknownTable) <==> inputs@.len() > 0
                && old(self).inputs_columns_valid(inputs@) && !old(self).inputs_tables_valid(
                inputs@,
            ),
            r == Err::<usize, ConfigError>(ConfigError::SimpleSelectorInLookup) <==> inputs@.len()
                > 0 && old(self).inputs_columns_valid(inputs@) && old(self).inputs_tables_valid(
                inputs@,
            ) && Self::lookup_has_simple(inputs@),
            r is Ok <==> inputs@.len() > 0 && old(self).inputs_columns_valid(inputs@) && old(
                self,
            ).inputs_tables_valid(inputs@) && !Self::lookup_has_simple(inputs@),
            r is Ok ==> r->Ok_0 == old(self).lookups@.len() && final(self).lookups@ == old(
                self,
            ).lookups@.push(Lookup { name, inputs }),
            r is Err ==> final(self).lookups@ == old(self).lookups@,
    {
        if inputs.len() == 0 {
            return Err(ConfigError::EmptyLookup);
        }
        match self.check_inputs(&inputs) {
            Ok(()) => {},
            Err(x) => {
                return Err(x);
            },
        }
        if Self::find_simple_input(&inputs) {
            return Err(ConfigError::SimpleSelectorInLookup);
        }
        let n = self.lookups.len();
        self.lookups.push(Lookup { name, inputs });
        Ok(n)
    }

    pub fn is_equality_enabled(&self, c: Column) -> (r: bool)
        ensures
            r == self.equality_enabled(c),
    {
        let mut i: usize = 0;
        while i < self.equality.len()
            invariant
                i <= self.equality@.len(),
                forall|k: int| 0 <= k < i ==> self.equality@[k] != c,
            decreases self.equality@.len() - i,
        {
            if self.equality[i] == c {
                return true;
            }
            i = i + 1;
        }
        false
    }

    /// Lets the column take part in copy constraints.
    pub fn enable_equality(&mut self, c: Column) -> (r: Result<(), ConfigError>)
        ensures
            old(self).same_columns(final(self)),
            final(self).gates@ == old(self).gates@,
            final(self).lookups@ == old(self).lookups@,
            r is Ok <==> old(self).has_column(c),
            r matches Err(x) ==> x == ConfigError::UnknownColumn,
            r is Ok ==> forall|d: Column|
                final(self).equality_enabled(d) <==> old(self).equality_enabled(d) || d == c,
            r is Err ==> final(self).equality@ == old(self).equality@,
    {
        let n = match c.kind {
            ColumnKind::Fixed => self.num_fixed,
            ColumnKind::Advice => self.num_advice,
            ColumnKind::Instance => self.num_instance,
        };
        if c.index >= n {
            return Err(ConfigError::UnknownColumn);
        }
        if !self.is_equality_enabled(c) {
            self.equality.push(c);
            assert(forall|d: Column|
                final(self).equality@.contains(d) <==> old(self).equality@.contains(d) || d == c) by {
                assert(forall|k: int| 0 <= k < old(self).equality@.len() ==> final(self).equality@[k] == old(self).equality@[k]);
                assert(final(self).equality@[old(self).equality@.len() as int] == c);
            }
        }
        Ok(())
    }
}

} // verus!
