//! Factors over the two endpoints of an undirected edge.
use vstd::prelude::*;
use crate::relation::{
    is_canonical,
    Row,
    RowModel,
    canonical_spec,
    keep_canonical,
    rows_model,
};
use crate::semiring::Semiring;
use super::Factor;

verus! {

/// A binary relation over the endpoints of edges. After an elimination each
/// undirected edge is held once, the endpoint of the smaller variable id first.
pub struct GraphFactor<W> {
    pub variables: Vec<u32>,
    pub tuples: Vec<Row<W>>,
}

impl<W: Semiring> Factor<W> for GraphFactor<W> {
    open spec fn vars(&self) -> Seq<u32> {
        self.variables@
    }

    open spec fn rows(&self) -> Seq<RowModel<W>> {
        rows_model(self.tuples@)
    }

    /// The edges in canonical orientation: the endpoint of the smaller
    /// variable id first. An edge between two vertices is then kept once.
    open spec fn normalize_spec(rows: Seq<RowModel<W>>, vars: Seq<u32>) -> Seq<RowModel<W>> {
        canonical_spec(rows, vars)
    }

    proof fn lemma_normalize_fit(rows: Seq<RowModel<W>>, vars: Seq<u32>, n: int) {
        let all = rows;
        let pred = |r: RowModel<W>| is_canonical(r.0, vars);
        assert forall|i: int| 0 <= i < all.filter(pred).len() implies (#[trigger] all.filter(
            pred,
        )[i]).0.len() == n by {
            all.lemma_filter_contains_rev(pred, all.filter(pred)[i]);
            all.filter_lemma(pred);
        }
    }

    fn from_parts(variables: Vec<u32>, tuples: Vec<Row<W>>) -> (r: Self) {
        GraphFactor { variables, tuples }
    }

    fn normalize(rows: Vec<Row<W>>, vars: &Vec<u32>) -> (r: Vec<Row<W>>) {
        keep_canonical(rows, vars)
    }

    fn variables(&self) -> (r: Vec<u32>) {
        self.variables.clone()
    }

    fn tuples(self) -> (r: Vec<Row<W>>) {
        self.tuples
    }
}


/// Keeping canonical edges is idempotent, and leaves an edge set that is
/// already canonical unchanged.
pub proof fn lemma_canonical_idempotent<W>(rows: Seq<RowModel<W>>, vars: Seq<u32>)
    ensures
        canonical_spec(canonical_spec(rows, vars), vars) == canonical_spec(rows, vars),
        (forall|i: int| 0 <= i < rows.len() ==> is_canonical(#[trigger] rows[i].0, vars))
            ==> canonical_spec(rows, vars) == rows,
    decreases rows.len(),
{
    reveal(Seq::filter);
    if rows.len() > 0 {
        let pre = rows.drop_last();
        lemma_canonical_idempotent(pre, vars);
        let pred = |r: RowModel<W>| is_canonical(r.0, vars);
        let c = canonical_spec(pre, vars);
        if pred(rows.last()) {
            assert(c.push(rows.last()).drop_last() == c);
        }
        if forall|i: int| 0 <= i < rows.len() ==> is_canonical(#[trigger] rows[i].0, vars) {
            assert forall|i: int| 0 <= i < pre.len() implies is_canonical(#[trigger] pre[i].0, vars) by {
                assert(pre[i] == rows[i]);
            }
            assert(is_canonical(rows[rows.len() - 1].0, vars));
            assert(pre.push(rows.last()) == rows);
        }
    }
}

/// Graph normalization of an edge set that is already canonical changes
/// nothing, and normalizing twice is normalizing once.
pub proof fn lemma_graph_normalize_stable<W: Semiring>(rows: Seq<RowModel<W>>, vars: Seq<u32>)
    ensures
        <GraphFactor<W> as Factor<W>>::normalize_spec(
            <GraphFactor<W> as Factor<W>>::normalize_spec(rows, vars),
            vars,
        ) == <GraphFactor<W> as Factor<W>>::normalize_spec(rows, vars),
        (forall|i: int| 0 <= i < rows.len() ==> is_canonical(#[trigger] rows[i].0, vars))
            ==> <GraphFactor<W> as Factor<W>>::normalize_spec(rows, vars) == rows,
{
    lemma_canonical_idempotent(rows, vars);
}

} // verus!
