//! Factors: weighted relations over a list of variables.
use vstd::prelude::*;
use crate::error::QueryError;
use crate::relation::{
    KeyedRow,
    Row,
    RowModel,
    consolidate,
    has,
    keyed_model,
    consolidate_spec,
    lemma_consolidate,
    lemma_consolidate_fit,
    project,
    project_spec,
    rows_fit,
    rows_model,
};
use crate::semiring::Semiring;

pub mod graph;

verus! {

/// What is wrong with a candidate factor, if anything: a repeated variable,
/// else a tuple of the wrong length.
pub open spec fn construction_error<W>(vars: Seq<u32>, rows: Seq<RowModel<W>>) -> Option<QueryError> {
    if !vars.no_duplicates() {
        Some(QueryError::DuplicateVariableInFactor)
    } else if !rows_fit(rows, vars.len() as int) {
        Some(QueryError::ArityMismatch)
    } else {
        None
    }
}

/// A factor whose variables are distinct and whose tuples all have one entry
/// per variable.
pub open spec fn factor_wf<W>(vars: Seq<u32>, rows: Seq<RowModel<W>>) -> bool {
    construction_error(vars, rows).is_none()
}

/// Whether every tuple has one entry per variable.
fn check_arity<W>(tuples: &Vec<Row<W>>, n: usize) -> (r: bool)
    ensures
        r == rows_fit(rows_model(tuples@), n as int),
{
    let mut i: usize = 0;
    while i < tuples.len()
        invariant
            i <= tuples.len(),
            forall|j: int| 0 <= j < i ==> (#[trigger] rows_model(tuples@)[j]).0.len() == n,
        decreases tuples.len() - i,
    {
        assert(rows_model(tuples@)[i as int].0.len() == tuples@[i as int].0.len());
        if tuples[i].0.len() != n {
            return false;
        }
        i = i + 1;
    }
    true
}

/// Whether the variables are pairwise distinct.
fn check_distinct(vars: &Vec<u32>) -> (r: bool)
    ensures
        r == vars@.no_duplicates(),
{
    let mut i: usize = 0;
    while i < vars.len()
        invariant
            i <= vars.len(),
            forall|a: int, b: int| 0 <= a < b < vars.len() && a < i ==> vars@[a] != vars@[b],
        decreases vars.len() - i,
    {
        let mut j: usize = i + 1;
        while j < vars.len()
            invariant
                i < vars.len(),
                i + 1 <= j <= vars.len(),
                forall|a: int, b: int| 0 <= a < b < vars.len() && a < i ==> vars@[a] != vars@[b],
                forall|b: int| i < b < j ==> vars@[i as int] != vars@[b],
            decreases vars.len() - j,
        {
            if vars[i] == vars[j] {
                return false;
            }
            j = j + 1;
        }
        i = i + 1;
    }
    true
}

/// A hyperedge of the query: variables and the weighted tuples over them.
pub trait Factor<W: Semiring>: Sized {
    /// The variables, position for position with the tuples' entries.
    spec fn vars(&self) -> Seq<u32>;

    /// The weighted tuples.
    spec fn rows(&self) -> Seq<RowModel<W>>;

    /// The rows that `normalize` keeps of the rows rebuilt over `vars` after
    /// an elimination.
    spec fn normalize_spec(rows: Seq<RowModel<W>>, vars: Seq<u32>) -> Seq<RowModel<W>>;

    /// `normalize` keeps tuple lengths.
    proof fn lemma_normalize_fit(rows: Seq<RowModel<W>>, vars: Seq<u32>, n: int)
        requires
            rows_fit(rows, n),
        ensures
            rows_fit(Self::normalize_spec(rows, vars), n),
    ;

    /// Assembles a factor from its parts as they are.
    fn from_parts(variables: Vec<u32>, tuples: Vec<Row<W>>) -> (r: Self)
        ensures
            r.vars() == variables@,
            r.rows() == rows_model(tuples@),
    ;

    /// The rows to keep of the rows rebuilt over `vars` after an elimination.
    fn normalize(rows: Vec<Row<W>>, vars: &Vec<u32>) -> (r: Vec<Row<W>>)
        ensures
            rows_model(r@) == Self::normalize_spec(rows_model(rows@), vars@),
    ;

    /// The variables.
    fn variables(&self) -> (r: Vec<u32>)
        ensures
            r@ == self.vars(),
    ;

    /// The weighted tuples.
    fn tuples(self) -> (r: Vec<Row<W>>)
        ensures
            rows_model(r@) == self.rows(),
    ;

    /// A factor over `variables` with the given tuples: equal tuples merged,
    /// their weights combined, and tuples whose weight comes to zero left out.
    fn new(variables: Vec<u32>, tuples: Vec<Row<W>>) -> (r: Result<Self, QueryError>)
        ensures
            r.is_err() == construction_error(variables@, rows_model(tuples@)).is_some(),
            r.is_err() ==> construction_error(variables@, rows_model(tuples@)) == Some(
                r->Err_0,
            ),
            r.is_ok() ==> r->Ok_0.vars() == variables@ && r->Ok_0.rows() == consolidate_spec(
                rows_model(tuples@),
            ),
            r.is_ok() ==> factor_wf(r->Ok_0.vars(), r->Ok_0.rows()),
            r.is_ok() ==> forall|i: int, j: int|
                0 <= i < j < r->Ok_0.rows().len() ==> (#[trigger] r->Ok_0.rows()[i]).0 != (
                #[trigger] r->Ok_0.rows()[j]).0,
    {
        if !check_distinct(&variables) {
            return Err(QueryError::DuplicateVariableInFactor);
        }
        if !check_arity(&tuples, variables.len()) {
            return Err(QueryError::ArityMismatch);
        }
        proof {
            lemma_consolidate_fit(rows_model(tuples@), variables@.len() as int);
            lemma_consolidate(rows_model(tuples@));
        }
        let grouped = consolidate(tuples);
        Ok(Self::from_parts(variables, grouped))
    }

    /// Whether `var` is one of the variables.
    fn participate(&self, var: &u32) -> (r: bool)
        ensures
            r == self.vars().contains(*var),
    {
        let v = self.variables();
        has(&v, *var)
    }

    /// The tuples split into their entries on `vars` (the key, in the order
    /// of `vars`) and the rest (in the tuple's order).
    fn tuples_by_variables(self, vars: &Vec<u32>) -> (r: Vec<KeyedRow<W>>)
        requires
            rows_fit(self.rows(), self.vars().len() as int),
            vars@.no_duplicates(),
        ensures
            keyed_model(r@) == project_spec(self.rows(), self.vars(), vars@),
            self.vars().no_duplicates() ==> forall|i: int|
                0 <= i < r@.len() ==> (#[trigger] keyed_model(r@)[i]).0.len() + keyed_model(r@)[i].1.len()
                    == self.rows()[i].0.len(),
    {
        let fv = self.variables();
        let ghost rm = self.rows();
        let ghost vm = self.vars();
        let rows = self.tuples();
        let r = project(&rows, &fv, vars);
        proof {
            if vm.no_duplicates() {
                assert forall|i: int|
                    0 <= i < r@.len() implies (#[trigger] keyed_model(r@)[i]).0.len() + keyed_model(r@)[i].1.len()
                        == rm[i].0.len() by {
                    assert(keyed_model(r@).len() == r@.len());
                    assert(project_spec(rm, vm, vars@).len() == rm.len());
                    assert(rm[i].0.len() == vm.len());
                    crate::engine::lemma_split_lossless(rm[i].0, vm, vars@);
                }
            }
        }
        r
    }
}

/// A factor of arbitrary arity, as used for graphical models.
pub struct GenericFactor<W> {
    pub variables: Vec<u32>,
    pub tuples: Vec<Row<W>>,
}

impl<W: Semiring> Factor<W> for GenericFactor<W> {
    open spec fn vars(&self) -> Seq<u32> {
        self.variables@
    }

    open spec fn rows(&self) -> Seq<RowModel<W>> {
        rows_model(self.tuples@)
    }

    /// Every row is kept.
    open spec fn normalize_spec(rows: Seq<RowModel<W>>, vars: Seq<u32>) -> Seq<RowModel<W>> {
        rows
    }

    proof fn lemma_normalize_fit(rows: Seq<RowModel<W>>, vars: Seq<u32>, n: int) {
    }

    fn from_parts(variables: Vec<u32>, tuples: Vec<Row<W>>) -> (r: Self) {
        GenericFactor { variables, tuples }
    }

    fn normalize(rows: Vec<Row<W>>, vars: &Vec<u32>) -> (r: Vec<Row<W>>) {
        rows
    }

    fn variables(&self) -> (r: Vec<u32>) {
        self.variables.clone()
    }

    fn tuples(self) -> (r: Vec<Row<W>>) {
        self.tuples
    }
}

} // verus!
