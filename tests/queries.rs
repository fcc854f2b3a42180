use aggregate_query::factors::graph::GraphFactor;
use aggregate_query::factors::GenericFactor;
use aggregate_query::semiring::max_prod::MaxProd;
use aggregate_query::{Factor, InsideOut, Query, QueryError, Value};

fn n(x: i64) -> Value {
    Value::Number(x)
}

fn edges(list: &[(i64, i64)]) -> Vec<(Vec<Value>, i64)> {
    list.iter().map(|&(a, b)| (vec![n(a), n(b)], 1)).collect()
}

fn graph(vars: Vec<u32>, list: &[(i64, i64)]) -> GraphFactor<i64> {
    GraphFactor::new(vars, edges(list)).unwrap()
}

const EDGES: [(i64, i64); 8] = [(1, 2), (1, 3), (2, 3), (2, 4), (4, 5), (5, 6), (6, 7), (5, 7)];

#[test]
fn triangle_count_first_edges() {
    let first = &EDGES[..7];
    let q = Query {
        factors: vec![graph(vec![2, 3], first), graph(vec![1, 2], first), graph(vec![1, 3], first)],
        variable_order: vec![3, 2, 1],
    };
    let out = q.inside_out().unwrap();
    assert_eq!(out.variables, Vec::<u32>::new());
    assert_eq!(out.tuples, vec![(vec![], 1)]);
}

#[test]
fn triangle_count_all_edges() {
    let q = Query {
        factors: vec![graph(vec![2, 3], &EDGES), graph(vec![1, 2], &EDGES), graph(vec![1, 3], &EDGES)],
        variable_order: vec![3, 2, 1],
    };
    let out = q.inside_out().unwrap();
    assert_eq!(out.tuples, vec![(vec![], 2)]);
}

fn s(x: &str) -> Value {
    Value::String(x.to_string())
}

// Probabilities in thousandths, multiplied exactly as integers.
fn prob(vars: Vec<u32>, rows: Vec<(Vec<&str>, f64)>) -> GenericFactor<i64> {
    let rows = rows
        .into_iter()
        .map(|(t, p)| (t.into_iter().map(s).collect(), (p * 1000.0).round() as i64))
        .collect();
    GenericFactor::new(vars, rows).unwrap()
}

#[test]
fn burglary_marginal() {
    let q = Query {
        factors: vec![
            prob(vec![1], vec![(vec!["E"], 0.01), (vec!["!E"], 0.99)]),
            prob(vec![2], vec![(vec!["B"], 0.05), (vec!["!B"], 0.95)]),
            prob(vec![1, 3], vec![(vec!["E", "A"], 0.9), (vec!["E", "!A"], 0.1)]),
            prob(vec![2, 3], vec![(vec!["B", "A"], 0.6), (vec!["B", "!A"], 0.4)]),
            prob(vec![4, 3], vec![(vec!["J", "A"], 0.6), (vec!["J", "!A"], 0.4)]),
            prob(vec![5, 3], vec![(vec!["M", "A"], 0.8), (vec!["M", "!A"], 0.2)]),
        ],
        variable_order: vec![1, 2, 4, 5],
    };
    let out = q.inside_out().unwrap();
    assert_eq!(out.variables, vec![3]);
    assert_eq!(out.tuples.len(), 2);
    let scale = 1e18;
    let a = out.tuples.iter().find(|r| r.0 == vec![s("A")]).unwrap().1 as f64 / scale;
    let not_a = out.tuples.iter().find(|r| r.0 == vec![s("!A")]).unwrap().1 as f64 / scale;
    assert!((a - 0.01 * 0.9 * 0.05 * 0.6 * 0.6 * 0.8).abs() < 1e-6);
    assert!((not_a - 0.01 * 0.1 * 0.05 * 0.4 * 0.4 * 0.2).abs() < 1e-6);
    let total: f64 = out.tuples.iter().map(|r| r.1 as f64 / scale).sum();
    assert!((total - (0.0001296 + 0.0000016)).abs() < 1e-6);
}

fn ints(vars: Vec<u32>, rows: Vec<(Vec<i64>, i64)>) -> GenericFactor<i64> {
    let rows = rows.into_iter().map(|(t, w)| (t.into_iter().map(n).collect(), w)).collect();
    GenericFactor::new(vars, rows).unwrap()
}

#[test]
fn unknown_variable_is_rejected() {
    let q = Query {
        factors: vec![ints(vec![1, 2], vec![(vec![1, 2], 1)])],
        variable_order: vec![1, 9],
    };
    assert_eq!(q.inside_out().err(), Some(QueryError::EmptyEliminationGroup(9)));
}

#[test]
fn repeated_order_variable_is_rejected() {
    let q = Query {
        factors: vec![ints(vec![1, 2], vec![(vec![1, 2], 1)])],
        variable_order: vec![1, 1],
    };
    assert_eq!(q.inside_out().err(), Some(QueryError::EmptyEliminationGroup(1)));
}

#[test]
fn single_factor_sums_out() {
    let q = Query {
        factors: vec![ints(
            vec![1, 2, 3],
            vec![(vec![1, 10, 100], 2), (vec![1, 20, 100], 3), (vec![2, 10, 200], 5)],
        )],
        variable_order: vec![1, 3],
    };
    let out = q.inside_out().unwrap();
    assert_eq!(out.variables, vec![2]);
    assert_eq!(out.tuples, vec![(vec![n(10)], 7), (vec![n(20)], 3)]);
}

#[test]
fn single_factor_keeps_weights() {
    let q = Query {
        factors: vec![ints(vec![1, 2], vec![(vec![1, 10], 2), (vec![2, 20], 3)])],
        variable_order: vec![1],
    };
    let out = q.inside_out().unwrap();
    assert_eq!(out.variables, vec![2]);
    assert_eq!(out.tuples, vec![(vec![n(10)], 2), (vec![n(20)], 3)]);
}

#[test]
fn no_elimination_returns_join() {
    let q = Query {
        factors: vec![
            ints(vec![1, 2], vec![(vec![1, 10], 2), (vec![2, 20], 3)]),
            ints(vec![2, 3], vec![(vec![10, 7], 5), (vec![30, 8], 1)]),
        ],
        variable_order: vec![],
    };
    let out = q.inside_out().unwrap();
    assert_eq!(out.variables, vec![1, 2, 3]);
    assert_eq!(out.tuples, vec![(vec![n(1), n(10), n(7)], 10)]);
}

// Each row as variable-value pairs sorted by variable, rows sorted.
fn by_variable(f: &GenericFactor<i64>) -> Vec<(Vec<(u32, Value)>, i64)> {
    let mut rows: Vec<(Vec<(u32, Value)>, i64)> = f
        .tuples
        .iter()
        .map(|(t, w)| {
            let mut a: Vec<(u32, Value)> = f.variables.iter().cloned().zip(t.iter().cloned()).collect();
            a.sort();
            (a, *w)
        })
        .collect();
    rows.sort();
    rows
}

#[test]
fn factor_order_does_not_change_result() {
    let a = || ints(vec![1, 2], vec![(vec![1, 10], 2), (vec![2, 10], 3), (vec![2, 20], 4)]);
    let b = || ints(vec![2], vec![(vec![10], 5), (vec![20], 7)]);
    let c = || ints(vec![3], vec![(vec![9], 11)]);
    let one = Query { factors: vec![a(), b(), c()], variable_order: vec![2] }.inside_out().unwrap();
    let two = Query { factors: vec![c(), b(), a()], variable_order: vec![2] }.inside_out().unwrap();
    assert_eq!(one.variables, vec![3, 1]);
    assert_eq!(two.variables, vec![3, 1]);
    let x = by_variable(&one);
    let y = by_variable(&two);
    assert_eq!(x, y);
    assert_eq!(
        x,
        vec![
            (vec![(1, n(1)), (3, n(9))], 110),
            (vec![(1, n(2)), (3, n(9))], 15 * 11 + 28 * 11),
        ]
    );
}

#[test]
fn output_arity_matches_free_variables() {
    let q = Query {
        factors: vec![
            ints(vec![1, 2], vec![(vec![1, 2], 1), (vec![1, 3], 1)]),
            ints(vec![2, 3], vec![(vec![2, 5], 1), (vec![3, 5], 2)]),
            ints(vec![4], vec![(vec![4], 3)]),
        ],
        variable_order: vec![2],
    };
    let out = q.inside_out().unwrap();
    assert_eq!(out.variables.len(), 3);
    for (t, _) in &out.tuples {
        assert_eq!(t.len(), out.variables.len());
    }
}

#[test]
fn duplicate_variable_is_rejected() {
    let r = GenericFactor::<i64>::new(vec![1, 1], vec![]);
    assert_eq!(r.err(), Some(QueryError::DuplicateVariableInFactor));
}

#[test]
fn arity_mismatch_is_rejected() {
    let r = GenericFactor::<i64>::new(vec![1, 2], vec![(vec![n(1)], 1)]);
    assert_eq!(r.err(), Some(QueryError::ArityMismatch));
}

#[test]
fn new_merges_equal_tuples() {
    let f = ints(vec![1], vec![(vec![4], 2), (vec![5], 1), (vec![4], 3)]);
    assert_eq!(f.tuples, vec![(vec![n(4)], 5), (vec![n(5)], 1)]);
}

#[test]
fn max_prod_keeps_most_probable() {
    let rows = vec![(vec![n(1), n(1)], MaxProd { value: 3 }), (vec![n(1), n(2)], MaxProd { value: 7 })];
    let q = Query {
        factors: vec![GenericFactor::new(vec![1, 2], rows).unwrap()],
        variable_order: vec![2],
    };
    let out = q.inside_out().unwrap();
    assert_eq!(out.tuples, vec![(vec![n(1)], MaxProd { value: 7 })]);
}

#[test]
fn graph_step_keeps_canonical_edges() {
    let f1 = graph(vec![2, 3], &[(1, 3), (2, 3)]);
    let f2 = graph(vec![1, 3], &[(1, 3), (2, 3)]);
    let joined = aggregate_query::join(vec![f1, f2]);
    assert_eq!(joined.0, vec![2, 3, 1]);
    assert_eq!(joined.1, vec![3]);
    let out: GraphFactor<i64> = aggregate_query::eliminate(joined, 3).unwrap();
    assert_eq!(out.variables, vec![2, 1]);
    // Oriented by variable id: the endpoint of variable 1 comes first in value.
    assert_eq!(out.tuples, vec![(vec![n(2), n(1)], 1)]);
}

#[test]
fn graph_canonical_input_is_stable() {
    let f = graph(vec![1, 2], &[(1, 2), (3, 4)]);
    let joined = aggregate_query::join(vec![f]);
    let out: GraphFactor<i64> = aggregate_query::eliminate(joined, 2).unwrap();
    assert_eq!(out.variables, vec![1]);
    let again: GraphFactor<i64> = aggregate_query::eliminate(aggregate_query::join(vec![out]), 1).unwrap();
    assert_eq!(again.tuples, vec![(vec![], 2)]);
}

#[test]
fn unbound_variable_in_eliminate() {
    let f = ints(vec![1, 2], vec![(vec![1, 2], 1)]);
    let joined = aggregate_query::join(vec![f]);
    let r: Result<GenericFactor<i64>, QueryError> = aggregate_query::eliminate(joined, 7);
    assert_eq!(r.err(), Some(QueryError::UnboundEliminationVariable(7)));
}

#[test]
fn partial_overlap_joins_naturally() {
    let q = Query {
        factors: vec![
            ints(vec![1, 2, 3], vec![(vec![1, 2, 3], 1)]),
            ints(vec![2, 3], vec![(vec![2, 3], 1), (vec![2, 4], 5)]),
            ints(vec![1, 2], vec![(vec![1, 2], 1), (vec![7, 2], 5)]),
        ],
        variable_order: vec![2],
    };
    // Rows that give variable 1 or 3 two values are not joined.
    let out = q.inside_out().unwrap();
    assert_eq!(out.variables, vec![1, 3]);
    assert_eq!(out.tuples, vec![(vec![n(1), n(3)], 1)]);
}

#[test]
fn keys_match_by_variable() {
    let q = Query {
        factors: vec![
            ints(vec![1, 2], vec![(vec![5, 6], 2)]),
            ints(vec![2, 1], vec![(vec![6, 5], 3), (vec![5, 6], 7)]),
        ],
        variable_order: vec![],
    };
    let out = q.inside_out().unwrap();
    assert_eq!(out.variables, vec![1, 2]);
    assert_eq!(out.tuples, vec![(vec![n(5), n(6)], 6)]);
}

#[test]
fn column_order_of_factors_does_not_matter() {
    let a = || ints(vec![1, 2], vec![(vec![5, 6], 1)]);
    let b = || ints(vec![2, 1], vec![(vec![6, 5], 1)]);
    let one = Query { factors: vec![a(), b()], variable_order: vec![] }.inside_out().unwrap();
    let two = Query { factors: vec![b(), a()], variable_order: vec![] }.inside_out().unwrap();
    assert_eq!(by_variable(&one), by_variable(&two));
    assert_eq!(by_variable(&one), vec![(vec![(1, n(5)), (2, n(6))], 1)]);
}

#[test]
fn zero_weights_are_dropped() {
    let f = ints(vec![1], vec![(vec![4], 2), (vec![5], 1), (vec![4], -2)]);
    assert_eq!(f.tuples, vec![(vec![n(5)], 1)]);
    let q = Query {
        factors: vec![ints(vec![1, 2], vec![(vec![1, 10], 2), (vec![1, 20], -2), (vec![2, 10], 1)])],
        variable_order: vec![2],
    };
    let out = q.inside_out().unwrap();
    assert_eq!(out.tuples, vec![(vec![n(2)], 1)]);
}

#[test]
fn no_factors_with_order_is_rejected() {
    let q: Query<GenericFactor<i64>> = Query { factors: vec![], variable_order: vec![4] };
    assert_eq!(q.inside_out().err(), Some(QueryError::EmptyEliminationGroup(4)));
}

#[test]
fn participate_and_projection() {
    let f = ints(vec![5, 6, 7], vec![(vec![1, 2, 3], 4)]);
    assert!(f.participate(&6));
    assert!(!f.participate(&8));
    let keyed = f.tuples_by_variables(&vec![7, 5]);
    assert_eq!(keyed, vec![(vec![n(3), n(1)], vec![n(2)], 4)]);
}
