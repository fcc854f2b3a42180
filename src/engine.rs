//! The variable elimination (InsideOut) engine: joins the factors that mention
//! a variable, sums the variable out, and repeats along the elimination order.
use vstd::prelude::*;
use crate::error::QueryError;
use crate::factors::{Factor, construction_error, factor_wf};
use crate::relation::{
    consolidate_spec,
    lemma_consolidate_fit,
    lemma_filter_no_duplicates,
    index_of,
    lemma_index_of,
    position,
    key_spec,
    pick_spec,
    pick,
    Row,
    rows_model,
    group_spec,
    key_pos,
    lemma_key_pos_bounds,
    lemma_consolidate,
    consistent,
    keep_consistent,
    matches_spec,
    rows_fit,
    KeyedModel,
    KeyedRow,
    RowModel,
    equi_join,
    equi_join_spec,
    keyed_model,
    project_spec,
    skip_at,
    split_spec,
};
use crate::semiring::Semiring;
use crate::factors::GenericFactor;
use crate::value::ValueModel;
use crate::value::{copy_tuple, tuple_model};

verus! {

/// The variables and the weighted tuples of a factor.
pub type FactorModel<W> = (Seq<u32>, Seq<RowModel<W>>);

/// The variable lists, as sequences.
pub open spec fn lists_model(vs: Seq<Vec<u32>>) -> Seq<Seq<u32>> {
    vs.map_values(|v: Vec<u32>| v@)
}

/// `acc` followed by those entries of `xs` not seen before.
pub open spec fn add_new(acc: Seq<u32>, xs: Seq<u32>) -> Seq<u32>
    decreases xs.len(),
{
    if xs.len() == 0 {
        acc
    } else {
        let a = add_new(acc, xs.drop_last());
        if a.contains(xs.last()) {
            a
        } else {
            a.push(xs.last())
        }
    }
}

/// All variables of the lists, each once, in order of first appearance.
pub open spec fn union_spec(vs: Seq<Seq<u32>>) -> Seq<u32>
    decreases vs.len(),
{
    if vs.len() == 0 {
        seq![]
    } else {
        add_new(union_spec(vs.drop_last()), vs.last())
    }
}

/// Whether `x` is in every list.
pub open spec fn in_all(vs: Seq<Seq<u32>>, x: u32) -> bool {
    forall|j: int| 0 <= j < vs.len() ==> #[trigger] vs[j].contains(x)
}

/// The variables of the first list that are in every list, in the first list's order.
pub open spec fn intersect_spec(vs: Seq<Seq<u32>>) -> Seq<u32> {
    if vs.len() == 0 {
        seq![]
    } else {
        vs[0].filter(|x: u32| in_all(vs, x))
    }
}

proof fn lemma_add_new(acc: Seq<u32>, xs: Seq<u32>)
    requires
        acc.no_duplicates(),
    ensures
        add_new(acc, xs).no_duplicates(),
        forall|x: u32| add_new(acc, xs).contains(x) <==> (acc.contains(x) || xs.contains(x)),
    decreases xs.len(),
{
    if xs.len() > 0 {
        lemma_add_new(acc, xs.drop_last());
        assert forall|x: u32| add_new(acc, xs).contains(x) <==> (acc.contains(x) || xs.contains(
            x,
        )) by {
            let a = add_new(acc, xs.drop_last());
            if xs.contains(x) {
                let k = choose|k: int| 0 <= k < xs.len() && xs[k] == x;
                if k < xs.len() - 1 {
                    assert(xs.drop_last()[k] == x);
                }
            }
            if xs.drop_last().contains(x) {
                let k = choose|k: int| 0 <= k < xs.len() - 1 && xs.drop_last()[k] == x;
                assert(xs[k] == x);
            }
            if !a.contains(xs.last()) {
                assert(a.push(xs.last()).last() == xs.last());
                if a.contains(x) {
                    let k = choose|k: int| 0 <= k < a.len() && a[k] == x;
                    assert(a.push(xs.last())[k] == x);
                }
            }
        }
    }
}

/// The union holds each variable of the lists, once, and nothing else.
pub proof fn lemma_union(vs: Seq<Seq<u32>>)
    ensures
        union_spec(vs).no_duplicates(),
        forall|x: u32|
            union_spec(vs).contains(x) <==> exists|j: int| 0 <= j < vs.len() && #[trigger] vs[j].contains(x),
    decreases vs.len(),
{
    if vs.len() > 0 {
        let pre = vs.drop_last();
        lemma_union(pre);
        lemma_add_new(union_spec(pre), vs.last());
        assert forall|x: u32|
            union_spec(vs).contains(x) implies exists|j: int| 0 <= j < vs.len() && #[trigger] vs[j].contains(x) by {
            if union_spec(pre).contains(x) {
                let j = choose|j: int| 0 <= j < pre.len() && #[trigger] pre[j].contains(x);
                assert(vs[j] == pre[j]);
            } else {
                assert(vs[vs.len() - 1].contains(x));
            }
        }
        assert forall|x: u32|
            (exists|j: int| 0 <= j < vs.len() && #[trigger] vs[j].contains(x)) implies union_spec(vs).contains(x) by {
            let j = choose|j: int| 0 <= j < vs.len() && #[trigger] vs[j].contains(x);
            if j < vs.len() - 1 {
                assert(pre[j] == vs[j]);
                assert(pre[j].contains(x));
                assert(union_spec(pre).contains(x));
            } else {
                assert(vs.last().contains(x));
            }
        }
    }
}

/// All variables of the given lists, each once, in order of first appearance.
pub fn union(variables: &Vec<Vec<u32>>) -> (r: Vec<u32>)
    ensures
        r@ == union_spec(lists_model(variables@)),
        r@.no_duplicates(),
        forall|x: u32|
            r@.contains(x) <==> exists|j: int| 0 <= j < variables.len() && #[trigger] variables@[j]@.contains(x),
{
    let ghost vs = lists_model(variables@);
    let mut r: Vec<u32> = Vec::new();
    let mut i: usize = 0;
    while i < variables.len()
        invariant
            i <= variables.len(),
            vs == lists_model(variables@),
            r@ == union_spec(vs.take(i as int)),
        decreases variables.len() - i,
    {
        let xs = &variables[i];
        let ghost start = r@;
        assert(vs.take(i + 1).drop_last() =~= vs.take(i as int));
        let mut j: usize = 0;
        while j < xs.len()
            invariant
                j <= xs.len(),
                r@ == add_new(start, xs@.take(j as int)),
            decreases xs.len() - j,
        {
            assert(xs@.take(j + 1).drop_last() =~= xs@.take(j as int));
            if !crate::relation::has(&r, xs[j]) {
                r.push(xs[j]);
            }
            j = j + 1;
        }
        assert(xs@.take(xs.len() as int) == xs@);
        i = i + 1;
    }
    assert(vs.take(variables.len() as int) == vs);
    proof {
        lemma_union(vs);
        assert forall|x: u32|
            r@.contains(x) <==> exists|j: int| 0 <= j < variables.len() && #[trigger] variables@[j]@.contains(x) by {
            if r@.contains(x) {
                let j = choose|j: int| 0 <= j < vs.len() && #[trigger] vs[j].contains(x);
                assert(variables@[j]@ == vs[j]);
            }
            if exists|j: int| 0 <= j < variables.len() && #[trigger] variables@[j]@.contains(x) {
                let j = choose|j: int| 0 <= j < variables.len() && #[trigger] variables@[j]@.contains(x);
                assert(vs[j] == variables@[j]@);
            }
        }
    }
    r
}

/// The variables of the first list that are in every list, in the first list's order.
pub fn intersection(variables: &Vec<Vec<u32>>) -> (r: Vec<u32>)
    ensures
        r@ == intersect_spec(lists_model(variables@)),
{
    let ghost vs = lists_model(variables@);
    if variables.len() == 0 {
        return Vec::new();
    }
    let ghost pred = |x: u32| in_all(vs, x);
    let first = &variables[0];
    let mut r: Vec<u32> = Vec::new();
    let mut i: usize = 0;
    while i < first.len()
        invariant
            i <= first.len(),
            variables.len() > 0,
            vs == lists_model(variables@),
            first@ == vs[0],
            pred == (|x: u32| in_all(vs, x)),
            r@ == first@.take(i as int).filter(pred),
        decreases first.len() - i,
    {
        let x = first[i];
        proof {
            assert(first@.take(i + 1) =~= first@.take(i as int).push(x));
            first@.take(i as int).lemma_filter_push(x, pred);
        }
        let mut all = true;
        let mut j: usize = 0;
        while j < variables.len()
            invariant
                j <= variables.len(),
                vs == lists_model(variables@),
                all == (forall|k: int| 0 <= k < j ==> #[trigger] vs[k].contains(x)),
            decreases variables.len() - j,
        {
            assert(vs[j as int] == variables@[j as int]@);
            let here = crate::relation::has(&variables[j], x);
            all = all && here;
            j = j + 1;
        }
        if all {
            r.push(x);
        }
        i = i + 1;
    }
    assert(first@.take(first.len() as int) == first@);
    r
}


/// The variables and weighted tuples of each factor.
pub open spec fn pool_model<W: Semiring, T: Factor<W>>(p: Seq<T>) -> Seq<FactorModel<W>> {
    p.map_values(|f: T| (f.vars(), f.rows()))
}

/// The variable lists of the factors.
pub open spec fn pool_vars<W>(fs: Seq<FactorModel<W>>) -> Seq<Seq<u32>> {
    fs.map_values(|f: FactorModel<W>| f.0)
}

/// Every factor is well formed.
pub open spec fn pool_wf<W>(fs: Seq<FactorModel<W>>) -> bool {
    forall|i: int| 0 <= i < fs.len() ==> factor_wf(#[trigger] fs[i].0, fs[i].1)
}

/// The join key: the variables common to all factors, in the first factor's order.
pub open spec fn join_keys<W>(fs: Seq<FactorModel<W>>) -> Seq<u32> {
    intersect_spec(pool_vars(fs))
}

/// The variables off the key, factor after factor: the layout of joined values.
pub open spec fn value_vars_spec<W>(fs: Seq<FactorModel<W>>, keys: Seq<u32>) -> Seq<u32>
    decreases fs.len(),
{
    if fs.len() == 0 {
        seq![]
    } else {
        value_vars_spec(fs.drop_last(), keys) + split_spec(fs.last().0, fs.last().0, keys, false)
    }
}

/// Each factor projected on the key, equi-joined left to right.
pub open spec fn join_rows_spec<W: Semiring>(fs: Seq<FactorModel<W>>, keys: Seq<u32>) -> Seq<
    KeyedModel<W>,
>
    decreases fs.len(),
{
    if fs.len() == 0 {
        seq![]
    } else if fs.len() == 1 {
        project_spec(fs[0].1, fs[0].0, keys)
    } else {
        equi_join_spec(
            join_rows_spec(fs.drop_last(), keys),
            project_spec(fs.last().1, fs.last().0, keys),
        )
    }
}

/// The variables of `union` off the key `keys`, in the order of `union`.
pub open spec fn off_key(union: Seq<u32>, keys: Seq<u32>) -> Seq<u32> {
    split_spec(union, union, keys, false)
}

/// The join of the factors: the union of their variables, the key variables,
/// and the joined rows, each a key (in key order) with the values of the
/// variables off the key (in union order). A variable that several factors
/// hold off the key must take one value in a joined row.
pub open spec fn join_spec<W: Semiring>(fs: Seq<FactorModel<W>>) -> (Seq<u32>, Seq<u32>, Seq<
    KeyedModel<W>,
>) {
    let u = union_spec(pool_vars(fs));
    let keys = join_keys(fs);
    let vv = value_vars_spec(fs, keys);
    (
        u,
        keys,
        join_rows_spec(fs, keys).filter(|r: KeyedModel<W>| consistent(r.1, vv)).map_values(
            |r: KeyedModel<W>| (r.0, pick_spec(r.1, vv, off_key(u, keys)), r.2),
        ),
    )
}

/// Every keyed row has a key of length `a` and values of length `b`.
pub open spec fn shaped<W>(rows: Seq<KeyedModel<W>>, a: int, b: int) -> bool {
    forall|i: int| 0 <= i < rows.len() ==> (#[trigger] rows[i]).0.len() == a && rows[i].1.len() == b
}

/// The key variables followed by the variables of `all` off the key; every
/// variable of `all` is among them.
fn key_then_rest(all: &Vec<u32>, keys: &Vec<u32>) -> (r: Vec<u32>)
    ensures
        r@ == keys@ + off_key(all@, keys@),
        forall|x: u32| all@.contains(x) ==> r@.contains(x),
{
    let off = split_vars(all, keys, false);
    let mut r = keys.clone();
    let mut rest = off.clone();
    r.append(&mut rest);
    proof {
        assert forall|x: u32| all@.contains(x) implies r@.contains(x) by {
            lemma_split_contains(all@, keys@, false, x);
            if keys@.contains(x) {
                let k = choose|k: int| 0 <= k < keys@.len() && keys@[k] == x;
                assert(r@[k] == x);
            } else {
                let k = choose|k: int| 0 <= k < off@.len() && off@[k] == x;
                assert(r@[keys@.len() + k] == x);
            }
        }
    }
    r
}

/// Each keyed row with its values read at the variables `to`.
fn arrange_values<W: Semiring>(rows: &Vec<KeyedRow<W>>, from: &Vec<u32>, to: &Vec<u32>) -> (r: Vec<
    KeyedRow<W>,
>)
    requires
        forall|i: int| 0 <= i < rows.len() ==> (#[trigger] rows@[i]).1.len() == from.len(),
        forall|i: int| 0 <= i < to.len() ==> from@.contains(#[trigger] to@[i]),
    ensures
        keyed_model(r@) == keyed_model(rows@).map_values(
            |r: KeyedModel<W>| (r.0, pick_spec(r.1, from@, to@), r.2),
        ),
{
    let mut out: Vec<KeyedRow<W>> = Vec::new();
    let mut i: usize = 0;
    while i < rows.len()
        invariant
            i <= rows.len(),
            forall|i: int| 0 <= i < rows.len() ==> (#[trigger] rows@[i]).1.len() == from.len(),
            forall|i: int| 0 <= i < to.len() ==> from@.contains(#[trigger] to@[i]),
            out@.len() == i,
            forall|m: int|
                0 <= m < i ==> #[trigger] keyed_model(out@)[m] == keyed_model(rows@).map_values(
                    |r: KeyedModel<W>| (r.0, pick_spec(r.1, from@, to@), r.2),
                )[m],
        decreases rows.len() - i,
    {
        let row = &rows[i];
        let k = copy_tuple(&row.0);
        let v = pick(&row.1, from, to);
        let ghost before = out@;
        out.push((k, v, row.2));
        assert forall|m: int| 0 <= m < i implies #[trigger] keyed_model(out@)[m] == keyed_model(before)[m] by {
            assert(out@[m] == before[m]);
        }
        i = i + 1;
    }
    assert(keyed_model(out@) =~= keyed_model(rows@).map_values(
        |r: KeyedModel<W>| (r.0, pick_spec(r.1, from@, to@), r.2),
    ));
    out
}

/// Each keyed row laid out as one tuple (key then values, over `from`) read
/// at the variables `to`.
fn lay_out<W: Semiring>(rows: &Vec<KeyedRow<W>>, from: &Vec<u32>, to: &Vec<u32>) -> (r: Vec<Row<W>>)
    requires
        forall|i: int|
            0 <= i < rows.len() ==> (#[trigger] rows@[i]).0.len() + rows@[i].1.len() == from.len(),
        forall|i: int| 0 <= i < to.len() ==> from@.contains(#[trigger] to@[i]),
    ensures
        rows_model(r@) == keyed_model(rows@).map_values(
            |r: KeyedModel<W>| (pick_spec(r.0 + r.1, from@, to@), r.2),
        ),
{
    let mut out: Vec<Row<W>> = Vec::new();
    let mut i: usize = 0;
    while i < rows.len()
        invariant
            i <= rows.len(),
            forall|i: int|
                0 <= i < rows.len() ==> (#[trigger] rows@[i]).0.len() + rows@[i].1.len() == from.len(),
            forall|i: int| 0 <= i < to.len() ==> from@.contains(#[trigger] to@[i]),
            out@.len() == i,
            forall|m: int|
                0 <= m < i ==> #[trigger] rows_model(out@)[m] == keyed_model(rows@).map_values(
                    |r: KeyedModel<W>| (pick_spec(r.0 + r.1, from@, to@), r.2),
                )[m],
        decreases rows.len() - i,
    {
        let row = &rows[i];
        let mut whole = copy_tuple(&row.0);
        let mut j: usize = 0;
        while j < row.1.len()
            invariant
                j <= row.1.len(),
                tuple_model(whole@) == tuple_model(row.0@) + tuple_model(row.1@).take(j as int),
            decreases row.1.len() - j,
        {
            let ghost tb = tuple_model(whole@);
            let x = row.1[j].duplicate();
            whole.push(x);
            assert(tuple_model(whole@) =~= tb.push(x@));
            assert(tuple_model(row.1@).take(j + 1) =~= tuple_model(row.1@).take(j as int).push(x@));
            j = j + 1;
        }
        assert(tuple_model(row.1@).take(row.1.len() as int) == tuple_model(row.1@));
        let t = pick(&whole, from, to);
        let ghost before = out@;
        out.push((t, row.2));
        assert forall|m: int| 0 <= m < i implies #[trigger] rows_model(out@)[m] == rows_model(before)[m] by {
            assert(out@[m] == before[m]);
        }
        i = i + 1;
    }
    assert(rows_model(out@) =~= keyed_model(rows@).map_values(
        |r: KeyedModel<W>| (pick_spec(r.0 + r.1, from@, to@), r.2),
    ));
    out
}

/// The variable list of each factor.
fn variable_lists<W: Semiring, T: Factor<W>>(factors: &Vec<T>) -> (r: Vec<Vec<u32>>)
    ensures
        lists_model(r@) == pool_vars(pool_model::<W, T>(factors@)),
{
    let ghost fm = pool_model::<W, T>(factors@);
    let mut lists: Vec<Vec<u32>> = Vec::new();
    let mut i: usize = 0;
    while i < factors.len()
        invariant
            i <= factors.len(),
            fm == pool_model::<W, T>(factors@),
            lists@.len() == i,
            forall|k: int| 0 <= k < i ==> (#[trigger] lists@[k])@ == fm[k].0,
        decreases factors.len() - i,
    {
        let v = factors[i].variables();
        lists.push(v);
        i = i + 1;
    }
    assert(lists_model(lists@) =~= pool_vars(fm));
    lists
}

/// The variables of `vars` that lie on (or off) `keys`.
fn split_vars(vars: &Vec<u32>, keys: &Vec<u32>, in_key: bool) -> (r: Vec<u32>)
    ensures
        r@ == split_spec(vars@, vars@, keys@, in_key),
{
    let mut r: Vec<u32> = Vec::new();
    let mut i: usize = 0;
    while i < vars.len()
        invariant
            i <= vars.len(),
            r@ == split_spec(vars@.take(i as int), vars@, keys@, in_key),
        decreases vars.len() - i,
    {
        assert(vars@.take(i + 1).drop_last() =~= vars@.take(i as int));
        if crate::relation::has(keys, vars[i]) == in_key {
            r.push(vars[i]);
        }
        i = i + 1;
    }
    assert(vars@.take(vars.len() as int) == vars@);
    r
}

/// Natural join of the factors. Returns the union of their variables (in
/// order of first appearance), the key (the variables common to all of them,
/// in the first factor's order), and the joined rows: a key, matched by
/// variable, with the values of the union's variables off the key (in union
/// order) and the product of the weights. Rows that would give a variable
/// two values are not joined.
pub fn join<W: Semiring, T: Factor<W>>(factors: Vec<T>) -> (r: (Vec<u32>, Vec<u32>, Vec<KeyedRow<W>>))
    requires
        factors.len() > 0,
        pool_wf(pool_model::<W, T>(factors@)),
    ensures
        (r.0@, r.1@, keyed_model(r.2@)) == join_spec(pool_model::<W, T>(factors@)),
        shaped(keyed_model(r.2@), r.1@.len() as int, off_key(r.0@, r.1@).len() as int),
{
    let ghost fm = pool_model::<W, T>(factors@);
    let n = factors.len();
    let lists = variable_lists::<W, T>(&factors);
    let keys = intersection(&lists);
    let mut rest = factors;
    let mut value_vars: Vec<u32> = Vec::new();
    let mut acc: Vec<KeyedRow<W>> = Vec::new();
    let mut i: usize = 0;
    while i < n
        invariant
            i <= n,
            n == fm.len(),
            n > 0,
            pool_wf(fm),
            keys@ == join_keys(fm),
            pool_model::<W, T>(rest@) == fm.skip(i as int),
            value_vars@ == value_vars_spec(fm.take(i as int), keys@),
            keyed_model(acc@) == join_rows_spec(fm.take(i as int), keys@),
        decreases n - i,
    {
        let ghost rm = pool_model::<W, T>(rest@);
        let ghost old_rest = rest@;
        assert(rm.len() == rest@.len());
        let f = rest.remove(0);
        proof {
            assert(rm[0] == fm[i as int]);
            assert(rest@ =~= old_rest.subrange(1, old_rest.len() as int));
            assert forall|k: int| 0 <= k < rest@.len() implies pool_model::<W, T>(rest@)[k] == fm.skip(
                i + 1,
            )[k] by {
                assert(rest@[k] == old_rest[k + 1]);
                assert(rm[k + 1] == fm.skip(i as int)[k + 1]);
            }
            assert(pool_model::<W, T>(rest@) =~= fm.skip(i + 1));
            assert(fm.take(i + 1).drop_last() =~= fm.take(i as int));
            assert(fm.take(i + 1).last() == fm[i as int]);
            assert(factor_wf(fm[i as int].0, fm[i as int].1));
        }
        proof {
            let pv = pool_vars(fm);
            assert(pv[0] == fm[0].0);
            assert(factor_wf(fm[0].0, fm[0].1));
            lemma_filter_no_duplicates(pv[0], |x: u32| in_all(pv, x));
        }
        let fv = f.variables();
        let mut off = split_vars(&fv, &keys, false);
        value_vars.append(&mut off);
        let proj = f.tuples_by_variables(&keys);
        if i == 0 {
            acc = proj;
        } else {
            acc = equi_join(&acc, &proj);
        }
        i = i + 1;
    }
    assert(fm.take(n as int) == fm);
    let all = union(&lists);
    let off = split_vars(&all, &keys, false);
    proof {
        lemma_keys_in_first(fm);
        lemma_key_full(fm[0].0, fm[0].0, keys@);
        lemma_join_shape(fm, keys@);
        lemma_union(pool_vars(fm));
        let ka = keyed_model(acc@);
        assert forall|i: int| 0 <= i < acc.len() implies (#[trigger] acc@[i]).1.len() == value_vars.len() && acc@[i].0.len() == keys.len() by {
            assert(ka[i].1.len() == value_vars@.len());
        }
        assert forall|i: int| 0 <= i < off.len() implies value_vars@.contains(#[trigger] off@[i]) by {
            let x = off@[i];
            lemma_split_contains(all@, keys@, false, x);
            assert(off@.contains(x));
            let j = choose|j: int| 0 <= j < pool_vars(fm).len() && #[trigger] pool_vars(fm)[j].contains(x);
            assert(fm[j].0.contains(x));
            lemma_value_vars_contains(fm, keys@, x);
        }
    }
    let kept = keep_consistent(acc, &value_vars);
    proof {
        let ka = keyed_model(acc@);
        let pred = |r: KeyedModel<W>| consistent(r.1, value_vars@);
        ka.filter_lemma(pred);
        let kk = keyed_model(kept@);
        assert forall|i: int| 0 <= i < kept.len() implies (#[trigger] kept@[i]).1.len() == value_vars.len() && kept@[i].0.len() == keys.len() by {
            ka.lemma_filter_contains_rev(pred, kk[i]);
            let m = choose|m: int| 0 <= m < ka.len() && ka[m] == kk[i];
            assert(kk[i].1.len() == kept@[i].1.len());
        }
    }
    let arranged = arrange_values(&kept, &value_vars, &off);
    proof {
        let ka = keyed_model(kept@);
        let kr = keyed_model(arranged@);
        assert forall|i: int| 0 <= i < kr.len() implies (#[trigger] kr[i]).0.len() == keys@.len() && kr[i].1.len() == off@.len() by {
            assert(kr[i].0 == ka[i].0);
        }
    }
    (all, keys, arranged)
}


/// A factor built from `vars` and `rows` as `Factor::new` builds it.
pub open spec fn build_spec<W: Semiring>(vars: Seq<u32>, rows: Seq<RowModel<W>>) -> Result<
    FactorModel<W>,
    QueryError,
> {
    match construction_error(vars, rows) {
        Some(e) => Err(e),
        None => Ok((vars, consolidate_spec(rows))),
    }
}

/// Each joined row as one tuple over `to`: key and values, over the key
/// variables followed by the union's variables off the key, read at `to`.
pub open spec fn lay_out_spec<W>(joined: (Seq<u32>, Seq<u32>, Seq<KeyedModel<W>>), to: Seq<u32>) -> Seq<
    RowModel<W>,
> {
    let from = joined.1 + off_key(joined.0, joined.1);
    joined.2.map_values(|r: KeyedModel<W>| (pick_spec(r.0 + r.1, from, to), r.2))
}

/// Sums `var` out of a join: every joined row is laid out over the union of
/// the variables without `var`, the factor kind keeps what it keeps, and
/// equal tuples are merged.
pub open spec fn eliminate_spec<W: Semiring, T: Factor<W>>(
    joined: (Seq<u32>, Seq<u32>, Seq<KeyedModel<W>>),
    var: u32,
) -> Result<FactorModel<W>, QueryError> {
    if !joined.1.contains(var) {
        Err(QueryError::UnboundEliminationVariable(var))
    } else {
        let vars = skip_at(joined.0, index_of(joined.0, var));
        build_spec(vars, T::normalize_spec(lay_out_spec(joined, vars), vars))
    }
}

/// The factor, or the error, as a model.
pub open spec fn outcome_model<W: Semiring, T: Factor<W>>(r: Result<T, QueryError>) -> Result<
    FactorModel<W>,
    QueryError,
> {
    match r {
        Ok(f) => Ok((f.vars(), f.rows())),
        Err(e) => Err(e),
    }
}

/// Removes `var` from a join of factors. The result's variables are the
/// joined variables without `var`, in the same order; each joined row becomes
/// a tuple over them, the factor kind keeps what it keeps, and equal tuples
/// are merged.
pub fn eliminate<W: Semiring, T: Factor<W>>(
    joined: (Vec<u32>, Vec<u32>, Vec<KeyedRow<W>>),
    var: u32,
) -> (r: Result<T, QueryError>)
    requires
        shaped(keyed_model(joined.2@), joined.1@.len() as int, off_key(joined.0@, joined.1@).len() as int),
    ensures
        outcome_model::<W, T>(r) == eliminate_spec::<W, T>(
            (joined.0@, joined.1@, keyed_model(joined.2@)),
            var,
        ),
        r.is_ok() ==> factor_wf(r->Ok_0.vars(), r->Ok_0.rows()),
        r.is_ok() && joined.0@.contains(var) ==> r->Ok_0.vars().len() == joined.0@.len() - 1,
{
    let ghost jm = (joined.0@, joined.1@, keyed_model(joined.2@));
    proof {
        lemma_index_of(joined.0@, var);
        if joined.0@.contains(var) {
            lemma_skip_at_len(joined.0@, index_of(joined.0@, var));
        }
    }
    let (all, keys, tuples) = joined;
    if !crate::relation::has(&keys, var) {
        return Err(QueryError::UnboundEliminationVariable(var));
    }
    let found = position(&all, var);
    let ghost p = index_of(all@, var);
    let mut vars: Vec<u32> = Vec::new();
    let mut j: usize = 0;
    while j < all.len()
        invariant
            j <= all.len(),
            p == index_of(all@, var),
            match found {
                Some(q) => q as int == p,
                None => p == -1,
            },
            vars@ == skip_at(all@.take(j as int), p),
        decreases all.len() - j,
    {
        assert(all@.take(j + 1).drop_last() =~= all@.take(j as int));
        let skip = match found {
            Some(q) => j == q,
            None => false,
        };
        if !skip {
            vars.push(all[j]);
        }
        j = j + 1;
    }
    assert(all@.take(all.len() as int) == all@);
    let from = key_then_rest(&all, &keys);
    proof {
        let km = keyed_model(tuples@);
        assert forall|i: int| 0 <= i < tuples.len() implies (#[trigger] tuples@[i]).0.len() + tuples@[i].1.len() == from.len() by {
            assert(km[i].0.len() == keys@.len());
        }
        assert forall|i: int| 0 <= i < vars.len() implies from@.contains(#[trigger] vars@[i]) by {
            let x = vars@[i];
            assert(vars@.contains(x));
            lemma_skip_at_contains(all@, p, x, all@.len() as int);
            assert(all@.take(all@.len() as int) == all@);
            let k = choose|k: int| 0 <= k < all@.len() && k != p && all@[k] == x;
            assert(all@.contains(x));
        }
    }
    let laid = lay_out(&tuples, &from, &vars);
    let rows = T::normalize(laid, &vars);
    T::new(vars, rows)
}

/// The factors that mention `v`.
pub open spec fn mentioning<W>(pool: Seq<FactorModel<W>>, v: u32) -> Seq<FactorModel<W>> {
    pool.filter(|f: FactorModel<W>| f.0.contains(v))
}

/// The factors that do not mention `v`.
pub open spec fn not_mentioning<W>(pool: Seq<FactorModel<W>>, v: u32) -> Seq<FactorModel<W>> {
    pool.filter(|f: FactorModel<W>| !f.0.contains(v))
}

/// One elimination step: the factors that mention `v` are joined and `v` is
/// summed out; the result goes after the other factors.
pub open spec fn step_spec<W: Semiring, T: Factor<W>>(pool: Seq<FactorModel<W>>, v: u32) -> Result<
    Seq<FactorModel<W>>,
    QueryError,
> {
    let part = mentioning(pool, v);
    if part.len() == 0 {
        Err(QueryError::EmptyEliminationGroup(v))
    } else {
        match eliminate_spec::<W, T>(join_spec(part), v) {
            Ok(f) => Ok(not_mentioning(pool, v).push(f)),
            Err(e) => Err(e),
        }
    }
}

/// The pool of factors after eliminating the variables of `order` in turn.
pub open spec fn run_spec<W: Semiring, T: Factor<W>>(pool: Seq<FactorModel<W>>, order: Seq<u32>) -> Result<
    Seq<FactorModel<W>>,
    QueryError,
>
    decreases order.len(),
{
    if order.len() == 0 {
        Ok(pool)
    } else {
        match run_spec::<W, T>(pool, order.drop_last()) {
            Ok(p) => step_spec::<W, T>(p, order.last()),
            Err(e) => Err(e),
        }
    }
}

/// Whether the variable at position `i` of the order can have no factor at its
/// turn: no factor mentions it, or it came earlier in the order.
pub open spec fn unplaceable(all_vars: Seq<u32>, order: Seq<u32>, i: int) -> bool {
    !all_vars.contains(order[i]) || order.take(i).contains(order[i])
}

/// The first unplaceable position of the order, or -1.
pub open spec fn first_unplaceable(all_vars: Seq<u32>, order: Seq<u32>) -> int
    decreases order.len(),
{
    if order.len() == 0 {
        -1
    } else {
        let p = first_unplaceable(all_vars, order.drop_last());
        if p >= 0 {
            p
        } else if unplaceable(all_vars, order, order.len() - 1) {
            order.len() - 1
        } else {
            -1
        }
    }
}

/// The final relation: the remaining factors joined, each row laid out over
/// the union of their variables.
pub open spec fn finish_spec<W: Semiring>(pool: Seq<FactorModel<W>>) -> Result<
    FactorModel<W>,
    QueryError,
> {
    let j = join_spec(pool);
    build_spec(j.0, lay_out_spec(j, j.0))
}

/// What a query evaluates to: the order is checked first, then every variable
/// is eliminated in turn and the rest joined.
pub open spec fn query_spec<W: Semiring, T: Factor<W>>(pool: Seq<FactorModel<W>>, order: Seq<u32>) -> Result<
    FactorModel<W>,
    QueryError,
> {
    let b = first_unplaceable(union_spec(pool_vars(pool)), order);
    if b >= 0 {
        Err(QueryError::EmptyEliminationGroup(order[b]))
    } else {
        match run_spec::<W, T>(pool, order) {
            Ok(p) => finish_spec(p),
            Err(e) => Err(e),
        }
    }
}


proof fn lemma_first_unplaceable_prefix(a: Seq<u32>, s: Seq<u32>, j: int)
    requires
        0 <= j < s.len(),
        first_unplaceable(a, s.take(j + 1)) == j,
    ensures
        first_unplaceable(a, s) == j,
    decreases s.len(),
{
    if s.len() > j + 1 {
        assert(s.drop_last().take(j + 1) == s.take(j + 1));
        lemma_first_unplaceable_prefix(a, s.drop_last(), j);
    } else {
        assert(s.take(j + 1) == s);
    }
}

proof fn lemma_run_error_stays<W: Semiring, T: Factor<W>>(
    pool: Seq<FactorModel<W>>,
    order: Seq<u32>,
    i: int,
    e: QueryError,
)
    requires
        0 <= i <= order.len(),
        run_spec::<W, T>(pool, order.take(i)) == Err::<Seq<FactorModel<W>>, QueryError>(e),
    ensures
        run_spec::<W, T>(pool, order) == Err::<Seq<FactorModel<W>>, QueryError>(e),
    decreases order.len(),
{
    if i < order.len() {
        assert(order.drop_last().take(i) == order.take(i));
        lemma_run_error_stays::<W, T>(pool, order.drop_last(), i, e);
    } else {
        assert(order.take(i) == order);
    }
}

/// A query: factors, and the order in which bound variables are eliminated.
/// Variables that are not in the order are free and stay in the result.
pub struct Query<T> {
    pub factors: Vec<T>,
    pub variable_order: Vec<u32>,
}

/// Evaluation of a query by variable elimination.
pub trait InsideOut<W: Semiring, T: Factor<W>>: Sized {
    /// The query can be evaluated: it has a factor or a variable to eliminate,
    /// and its factors are well formed.
    spec fn ready(&self) -> bool;

    /// The relation over the free variables, or the reason the query fails.
    spec fn outcome(&self) -> Result<FactorModel<W>, QueryError>;

    /// Eliminates the bound variables in order and returns the factor over
    /// the free variables.
    fn inside_out(self) -> (r: Result<T, QueryError>)
        requires
            self.ready(),
        ensures
            outcome_model::<W, T>(r) == self.outcome(),
    ;
}

impl<T> Query<T> {
    /// Eliminates the bound variables in order and returns the factor over
    /// the free variables.
    #[verifier::loop_isolation(false)]
    fn evaluate<W: Semiring>(self) -> (r: Result<T, QueryError>)
        where T: Factor<W>,
        requires
            self.factors.len() > 0 || self.variable_order.len() > 0,
            pool_wf(pool_model::<W, T>(self.factors@)),
        ensures
            outcome_model::<W, T>(r) == query_spec::<W, T>(pool_model::<W, T>(self.factors@), self.variable_order@),
    {
        let ghost goal = query_spec::<W, T>(pool_model::<W, T>(self.factors@), self.variable_order@);
        let Query { factors, variable_order: order } = self;
        let ghost pm = pool_model::<W, T>(factors@);
        assert(goal == query_spec::<W, T>(pm, order@));
        // Every variable of the order must find a factor at its turn.
        let lists = variable_lists::<W, T>(&factors);
        let all = union(&lists);
        let mut i: usize = 0;
        while i < order.len()
            invariant
                i <= order.len(),
                all@ == union_spec(pool_vars(pm)),
                first_unplaceable(all@, order@.take(i as int)) == -1,
                goal == query_spec::<W, T>(pm, order@),
            decreases order.len() - i,
        {
            let v = order[i];
            let mut seen = false;
            let mut j: usize = 0;
            while j < i
                invariant
                    j <= i < order.len(),
                    v == order@[i as int],
                    seen == (exists|q: int| 0 <= q < j && order@[q] == v),
                decreases i - j,
            {
                if order[j] == v {
                    seen = true;
                }
                j = j + 1;
            }
            proof {
                if seen {
                    let q = choose|q: int| 0 <= q < i && order@[q] == v;
                    assert(order@.take(i as int)[q] == v);
                }
                if order@.take(i as int).contains(v) {
                    let q = choose|q: int| 0 <= q < i && order@.take(i as int)[q] == v;
                    assert(order@[q] == v);
                }
            }
            proof {
                let pre = order@.take(i + 1);
                assert(pre.drop_last() =~= order@.take(i as int));
                assert(pre.take(i as int) =~= order@.take(i as int));
                assert(pre[i as int] == v);
            }
            if seen || !crate::relation::has(&all, v) {
                proof {
                    assert(unplaceable(all@, order@.take(i + 1), i as int));
                    assert(first_unplaceable(all@, order@.take(i + 1)) == i);
                    lemma_first_unplaceable_prefix(all@, order@, i as int);
                    assert(query_spec::<W, T>(pm, order@) == Err::<FactorModel<W>, QueryError>(
                        QueryError::EmptyEliminationGroup(v),
                    ));
                }
                return Err(QueryError::EmptyEliminationGroup(v));
            }
            i = i + 1;
        }
        assert(order@.take(order.len() as int) == order@);
        proof {
            if factors.len() == 0 {
                assert(pool_vars(pm).len() == 0);
                assert(!all@.contains(order@[0]));
                lemma_first_unplaceable_found(all@, order@, 0);
            }
        }
        // Eliminate the bound variables in turn.
        let mut pool = factors;
        let mut i: usize = 0;
        while i < order.len()
            invariant
                i <= order.len(),
                first_unplaceable(union_spec(pool_vars(pm)), order@) == -1,
                goal == query_spec::<W, T>(pm, order@),
                run_spec::<W, T>(pm, order@.take(i as int)) == Ok::<Seq<FactorModel<W>>, QueryError>(
                    pool_model::<W, T>(pool@),
                ),
                pool.len() > 0,
                pool_wf(pool_model::<W, T>(pool@)),
            decreases order.len() - i,
        {
            let v = order[i];
            let ghost before = pool_model::<W, T>(pool@);
            let ghost has_v = |f: FactorModel<W>| f.0.contains(v);
            let ghost lacks_v = |f: FactorModel<W>| !f.0.contains(v);
            let mut part: Vec<T> = Vec::new();
            let mut rest: Vec<T> = Vec::new();
            let mut src = pool;
            let mut k: usize = 0;
            let n = src.len();
            while k < n
                invariant
                    k <= n,
                    n == before.len(),
                    pool_model::<W, T>(src@) == before.skip(k as int),
                    pool_model::<W, T>(part@) == before.take(k as int).filter(has_v),
                    pool_model::<W, T>(rest@) == before.take(k as int).filter(lacks_v),
                    has_v == (|f: FactorModel<W>| f.0.contains(v)),
                    lacks_v == (|f: FactorModel<W>| !f.0.contains(v)),
                    pool_wf(before),
                    pool_wf(pool_model::<W, T>(part@)),
                    pool_wf(pool_model::<W, T>(rest@)),
                decreases n - k,
            {
                let ghost sm = pool_model::<W, T>(src@);
                let ghost old_src = src@;
                let ghost pb = pool_model::<W, T>(part@);
                let ghost rb = pool_model::<W, T>(rest@);
                assert(sm.len() == src@.len());
                let f = src.remove(0);
                proof {
                    assert(sm[0] == before[k as int]);
                    assert(src@ =~= old_src.subrange(1, old_src.len() as int));
                    assert forall|m: int| 0 <= m < src@.len() implies pool_model::<W, T>(src@)[m]
                        == before.skip(k + 1)[m] by {
                        assert(src@[m] == old_src[m + 1]);
                        assert(sm[m + 1] == before.skip(k as int)[m + 1]);
                    }
                    assert(pool_model::<W, T>(src@) =~= before.skip(k + 1));
                    assert(before.take(k + 1) =~= before.take(k as int).push(before[k as int]));
                    before.take(k as int).lemma_filter_push(before[k as int], has_v);
                    before.take(k as int).lemma_filter_push(before[k as int], lacks_v);
                    assert(factor_wf(before[k as int].0, before[k as int].1));
                }
                if f.participate(&v) {
                    part.push(f);
                    assert(pool_model::<W, T>(part@) =~= pb.push(before[k as int]));
                } else {
                    rest.push(f);
                    assert(pool_model::<W, T>(rest@) =~= rb.push(before[k as int]));
                }
                k = k + 1;
            }
            proof {
                assert(before.take(n as int) == before);
                assert(order@.take(i + 1).drop_last() =~= order@.take(i as int));
                assert(order@.take(i + 1).last() == v);
                assert(pool_model::<W, T>(part@) == mentioning(before, v));
                assert(pool_model::<W, T>(rest@) == not_mentioning(before, v));
                assert(pool_model::<W, T>(part@).len() == part@.len());
                assert(run_spec::<W, T>(pm, order@.take(i + 1)) == step_spec::<W, T>(before, v));
            }
            if part.len() == 0 {
                proof {
                    assert(step_spec::<W, T>(before, v) == Err::<Seq<FactorModel<W>>, QueryError>(
                        QueryError::EmptyEliminationGroup(v),
                    ));
                    lemma_run_error_stays::<W, T>(pm, order@, i + 1, QueryError::EmptyEliminationGroup(v));
                    assert(query_spec::<W, T>(pm, order@) == Err::<FactorModel<W>, QueryError>(
                        QueryError::EmptyEliminationGroup(v),
                    ));
                }
                return Err(QueryError::EmptyEliminationGroup(v));
            }
            let joined = join(part);
            match eliminate::<W, T>(joined, v) {
                Ok(f) => {
                    let ghost rb = pool_model::<W, T>(rest@);
                    rest.push(f);
                    assert(pool_model::<W, T>(rest@) =~= rb.push((f.vars(), f.rows())));
                    pool = rest;
                },
                Err(e) => {
                    proof {
                        lemma_run_error_stays::<W, T>(pm, order@, i + 1, e);
                    }
                    return Err(e);
                },
            }
            i = i + 1;
        }
        assert(order@.take(order.len() as int) == order@);
        // Join what remains and lay each row out over the union of the variables.
        let (all, keys, tuples) = join(pool);
        let from = key_then_rest(&all, &keys);
        proof {
            let km = keyed_model(tuples@);
            assert forall|i: int| 0 <= i < tuples.len() implies (#[trigger] tuples@[i]).0.len() + tuples@[i].1.len() == from.len() by {
                assert(km[i].0.len() == keys@.len());
            }
            assert forall|i: int| 0 <= i < all.len() implies from@.contains(#[trigger] all@[i]) by {
                assert(all@.contains(all@[i]));
            }
        }
        let rows = lay_out(&tuples, &from, &all);
        T::new(all, rows)
    }
}

impl<W: Semiring, T: Factor<W>> InsideOut<W, T> for Query<T> {
    open spec fn ready(&self) -> bool {
        (self.factors.len() > 0 || self.variable_order.len() > 0) && pool_wf(
            pool_model::<W, T>(self.factors@),
        )
    }

    open spec fn outcome(&self) -> Result<FactorModel<W>, QueryError> {
        query_spec::<W, T>(pool_model::<W, T>(self.factors@), self.variable_order@)
    }

    fn inside_out(self) -> (r: Result<T, QueryError>) {
        self.evaluate()
    }

}


proof fn lemma_first_unplaceable_bound(a: Seq<u32>, s: Seq<u32>)
    ensures
        -1 <= first_unplaceable(a, s) < s.len(),
    decreases s.len(),
{
    if s.len() > 0 {
        lemma_first_unplaceable_bound(a, s.drop_last());
    }
}

proof fn lemma_first_unplaceable_found(a: Seq<u32>, s: Seq<u32>, i: int)
    requires
        0 <= i < s.len(),
        unplaceable(a, s, i),
    ensures
        0 <= first_unplaceable(a, s) <= i,
    decreases s.len(),
{
    if i < s.len() - 1 {
        let pre = s.drop_last();
        assert(pre[i] == s[i]);
        assert(pre.take(i) == s.take(i));
        lemma_first_unplaceable_found(a, pre, i);
    } else {
        lemma_first_unplaceable_bound(a, s.drop_last());
    }
}

/// An elimination order that names a variable no factor mentions makes the
/// query fail with `EmptyEliminationGroup`, decided from the order and the
/// factors' variables before any join.
pub proof fn lemma_unknown_variable_rejected<W: Semiring, T: Factor<W>>(
    pool: Seq<FactorModel<W>>,
    order: Seq<u32>,
    i: int,
)
    requires
        0 <= i < order.len(),
        forall|j: int| 0 <= j < pool.len() ==> !(#[trigger] pool[j]).0.contains(order[i]),
    ensures
        query_spec::<W, T>(pool, order) == Err::<FactorModel<W>, QueryError>(
            QueryError::EmptyEliminationGroup(
                order[first_unplaceable(union_spec(pool_vars(pool)), order)],
            ),
        ),
        0 <= first_unplaceable(union_spec(pool_vars(pool)), order) <= i,
{
    let vs = pool_vars(pool);
    lemma_union(vs);
    if union_spec(vs).contains(order[i]) {
        let j = choose|j: int| 0 <= j < vs.len() && #[trigger] vs[j].contains(order[i]);
        assert(vs[j] == pool[j].0);
    }
    lemma_first_unplaceable_found(union_spec(vs), order, i);
}


/// Whether some factor of the pool mentions `x`.
pub open spec fn pool_has<W>(pool: Seq<FactorModel<W>>, x: u32) -> bool {
    exists|j: int| 0 <= j < pool.len() && #[trigger] pool[j].0.contains(x)
}

proof fn lemma_push_contains<A>(s: Seq<A>, e: A, x: A)
    ensures
        s.push(e).contains(x) <==> (s.contains(x) || e == x),
{
    if s.contains(x) {
        let i = choose|i: int| 0 <= i < s.len() && s[i] == x;
        assert(s.push(e)[i] == x);
    }
    if e == x {
        assert(s.push(e)[s.len() as int] == x);
    }
    if s.push(e).contains(x) {
        let i = choose|i: int| 0 <= i < s.push(e).len() && s.push(e)[i] == x;
        if i < s.len() {
            assert(s[i] == x);
        }
    }
}

proof fn lemma_split_vars_contains(vars: Seq<u32>, keys: Seq<u32>, in_key: bool, k: int, x: u32)
    requires
        0 <= k <= vars.len(),
    ensures
        split_spec(vars.take(k), vars, keys, in_key).contains(x) <==> (vars.take(k).contains(x)
            && keys.contains(x) == in_key),
    decreases k,
{
    let t = vars.take(k);
    if k > 0 {
        let pre = vars.take(k - 1);
        assert(t.drop_last() =~= pre);
        assert(t =~= pre.push(vars[k - 1]));
        lemma_split_vars_contains(vars, keys, in_key, k - 1, x);
        let rest = split_spec(pre, vars, keys, in_key);
        lemma_push_contains(rest, vars[k - 1], x);
        lemma_push_contains(pre, vars[k - 1], x);
    }
}

proof fn lemma_split_contains(vars: Seq<u32>, keys: Seq<u32>, in_key: bool, x: u32)
    ensures
        split_spec(vars, vars, keys, in_key).contains(x) <==> (vars.contains(x) && keys.contains(x)
            == in_key),
{
    lemma_split_vars_contains(vars, keys, in_key, vars.len() as int, x);
    assert(vars.take(vars.len() as int) == vars);
}

proof fn lemma_value_vars_contains<W>(fs: Seq<FactorModel<W>>, keys: Seq<u32>, x: u32)
    ensures
        value_vars_spec(fs, keys).contains(x) <==> (pool_has(fs, x) && !keys.contains(x)),
    decreases fs.len(),
{
    if fs.len() > 0 {
        let pre = fs.drop_last();
        lemma_value_vars_contains(pre, keys, x);
        lemma_split_contains(fs.last().0, keys, false, x);
        let a = value_vars_spec(pre, keys);
        let b = split_spec(fs.last().0, fs.last().0, keys, false);
        if (a + b).contains(x) {
            let i = choose|i: int| 0 <= i < (a + b).len() && (a + b)[i] == x;
            if i < a.len() {
                assert(a[i] == x);
                let j = choose|j: int| 0 <= j < pre.len() && #[trigger] pre[j].0.contains(x);
                assert(fs[j] == pre[j]);
            } else {
                assert(b[i - a.len()] == x);
                assert(fs[fs.len() - 1].0.contains(x));
            }
        }
        if pool_has(fs, x) && !keys.contains(x) {
            let j = choose|j: int| 0 <= j < fs.len() && #[trigger] fs[j].0.contains(x);
            if j < fs.len() - 1 {
                assert(pre[j] == fs[j]);
                assert(pool_has(pre, x));
                let i = choose|i: int| 0 <= i < a.len() && a[i] == x;
                assert((a + b)[i] == x);
            } else {
                let i = choose|i: int| 0 <= i < b.len() && b[i] == x;
                assert((a + b)[a.len() + i] == x);
            }
        }
    }
}

proof fn lemma_skip_at_contains(s: Seq<u32>, pos: int, x: u32, k: int)
    requires
        0 <= k <= s.len(),
    ensures
        skip_at(s.take(k), pos).contains(x) <==> exists|i: int| 0 <= i < k && i != pos && s[i] == x,
    decreases k,
{
    let t = s.take(k);
    if k > 0 {
        let pre = s.take(k - 1);
        assert(t.drop_last() =~= pre);
        assert(t.last() == s[k - 1]);
        lemma_skip_at_contains(s, pos, x, k - 1);
        let rest = skip_at(pre, pos);
        lemma_push_contains(rest, s[k - 1], x);
        if exists|i: int| 0 <= i < k && i != pos && s[i] == x {
            let i = choose|i: int| 0 <= i < k && i != pos && s[i] == x;
            if i < k - 1 {
                assert(exists|i: int| 0 <= i < k - 1 && i != pos && s[i] == x);
            }
        }
        if exists|i: int| 0 <= i < k - 1 && i != pos && s[i] == x {
            let i = choose|i: int| 0 <= i < k - 1 && i != pos && s[i] == x;
            assert(exists|i: int| 0 <= i < k && i != pos && s[i] == x);
        }
        if k - 1 != pos && s[k - 1] == x {
            assert(exists|i: int| 0 <= i < k && i != pos && s[i] == x);
        }
    }
}











proof fn lemma_matches_shape<W: Semiring>(l: KeyedModel<W>, right: Seq<KeyedModel<W>>, a: int, b: int, c: int)
    requires
        l.0.len() == a,
        l.1.len() == b,
        forall|i: int| 0 <= i < right.len() ==> (#[trigger] right[i]).1.len() == c,
    ensures
        shaped(matches_spec(l, right), a, b + c),
    decreases right.len(),
{
    if right.len() > 0 {
        let pre = right.drop_last();
        assert forall|i: int| 0 <= i < pre.len() implies (#[trigger] pre[i]).1.len() == c by {
            assert(pre[i] == right[i]);
        }
        lemma_matches_shape(l, pre, a, b, c);
        assert(right.last().1.len() == c);
    }
}

proof fn lemma_equi_join_shape<W: Semiring>(
    left: Seq<KeyedModel<W>>,
    right: Seq<KeyedModel<W>>,
    a: int,
    b: int,
    c: int,
)
    requires
        shaped(left, a, b),
        forall|i: int| 0 <= i < right.len() ==> (#[trigger] right[i]).1.len() == c,
    ensures
        shaped(equi_join_spec(left, right), a, b + c),
    decreases left.len(),
{
    if left.len() > 0 {
        let pre = left.drop_last();
        assert forall|i: int| 0 <= i < pre.len() implies (#[trigger] pre[i]).0.len() == a && pre[i].1.len() == b by {
            assert(pre[i] == left[i]);
        }
        lemma_equi_join_shape(pre, right, a, b, c);
        assert(left.last() == left[left.len() - 1]);
        lemma_matches_shape(left.last(), right, a, b, c);
        let x = equi_join_spec(pre, right);
        let y = matches_spec(left.last(), right);
        assert forall|i: int| 0 <= i < (x + y).len() implies (#[trigger] (x + y)[i]).0.len() == a && (x + y)[i].1.len() == b + c by {
            if i < x.len() {
                assert((x + y)[i] == x[i]);
            } else {
                assert((x + y)[i] == y[i - x.len()]);
            }
        }
    }
}

proof fn lemma_split_len<A, B>(t1: Seq<A>, t2: Seq<B>, vars: Seq<u32>, keys: Seq<u32>, in_key: bool)
    requires
        t1.len() == t2.len(),
    ensures
        split_spec(t1, vars, keys, in_key).len() == split_spec(t2, vars, keys, in_key).len(),
    decreases t1.len(),
{
    if t1.len() > 0 {
        lemma_split_len(t1.drop_last(), t2.drop_last(), vars, keys, in_key);
    }
}

proof fn lemma_project_shape<W>(rows: Seq<RowModel<W>>, vars: Seq<u32>, keys: Seq<u32>)
    requires
        rows_fit(rows, vars.len() as int),
    ensures
        shaped(
            project_spec(rows, vars, keys),
            key_spec(vars, vars, keys).len() as int,
            split_spec(vars, vars, keys, false).len() as int,
        ),
{
    let pr = project_spec(rows, vars, keys);
    assert forall|i: int| 0 <= i < pr.len() implies (#[trigger] pr[i]).0.len() == key_spec(
        vars,
        vars,
        keys,
    ).len() && pr[i].1.len() == split_spec(vars, vars, keys, false).len() by {
        assert(rows[i].0.len() == vars.len());
        lemma_key_len(rows[i].0, vars, vars, keys);
        lemma_split_len(rows[i].0, vars, vars, keys, false);
    }
}

proof fn lemma_key_len<A, B>(t1: Seq<A>, t2: Seq<B>, vars: Seq<u32>, keys: Seq<u32>)
    ensures
        key_spec(t1, vars, keys).len() == key_spec(t2, vars, keys).len(),
    decreases keys.len(),
{
    if keys.len() > 0 {
        lemma_key_len(t1, t2, vars, keys.drop_last());
    }
}

proof fn lemma_key_full<A>(t: Seq<A>, vars: Seq<u32>, keys: Seq<u32>)
    requires
        forall|i: int| 0 <= i < keys.len() ==> vars.contains(#[trigger] keys[i]),
    ensures
        key_spec(t, vars, keys).len() == keys.len(),
    decreases keys.len(),
{
    if keys.len() > 0 {
        let pre = keys.drop_last();
        assert forall|i: int| 0 <= i < pre.len() implies vars.contains(#[trigger] pre[i]) by {
            assert(pre[i] == keys[i]);
        }
        lemma_key_full(t, vars, pre);
        assert(vars.contains(keys[keys.len() - 1]));
        lemma_index_of(vars, keys.last());
    }
}

/// The join key lies within the first factor's variables.
proof fn lemma_keys_in_first<W>(fs: Seq<FactorModel<W>>)
    requires
        fs.len() > 0,
    ensures
        forall|i: int| 0 <= i < join_keys(fs).len() ==> fs[0].0.contains(#[trigger] join_keys(fs)[i]),
{
    let pv = pool_vars(fs);
    let pred = |x: u32| in_all(pv, x);
    assert(pv[0] == fs[0].0);
    assert forall|i: int| 0 <= i < join_keys(fs).len() implies fs[0].0.contains(#[trigger] join_keys(fs)[i]) by {
        let keys = join_keys(fs);
        assert(keys.contains(keys[i]));
        pv[0].lemma_filter_contains_rev(pred, keys[i]);
    }
}

/// Joined rows have keys as long as the key and values as long as the value
/// variables.
proof fn lemma_join_shape<W: Semiring>(fs: Seq<FactorModel<W>>, keys: Seq<u32>)
    requires
        fs.len() > 0,
        pool_wf(fs),
        key_spec(fs[0].0, fs[0].0, keys).len() == keys.len(),
    ensures
        shaped(join_rows_spec(fs, keys), keys.len() as int, value_vars_spec(fs, keys).len() as int),
    decreases fs.len(),
{
    assert(factor_wf(fs[0].0, fs[0].1));
    let last = fs[fs.len() - 1];
    assert(factor_wf(last.0, last.1));
    lemma_project_shape(last.1, last.0, keys);
    if fs.len() == 1 {
        assert(fs.drop_last().len() == 0);
        assert(value_vars_spec(fs.drop_last(), keys) =~= Seq::<u32>::empty());
        assert(fs.last() == fs[0]);
        assert(value_vars_spec(fs, keys) =~= split_spec(fs[0].0, fs[0].0, keys, false));
    } else {
        let pre = fs.drop_last();
        assert forall|i: int| 0 <= i < pre.len() implies factor_wf(#[trigger] pre[i].0, pre[i].1) by {
            assert(pre[i] == fs[i]);
        }
        assert(pre[0] == fs[0]);
        lemma_join_shape(pre, keys);
        let right = project_spec(last.1, last.0, keys);
        let c = split_spec(last.0, last.0, keys, false).len() as int;
        assert forall|i: int| 0 <= i < right.len() implies (#[trigger] right[i]).1.len() == c by {
        }
        lemma_equi_join_shape(join_rows_spec(pre, keys), right, keys.len() as int, value_vars_spec(pre, keys).len() as int, c);
    }
}

proof fn lemma_skip_at_no_dup(s: Seq<u32>, pos: int)
    requires
        s.no_duplicates(),
    ensures
        skip_at(s, pos).no_duplicates(),
    decreases s.len(),
{
    if s.len() > 0 {
        let pre = s.drop_last();
        assert(pre.no_duplicates());
        lemma_skip_at_no_dup(pre, pos);
        let r = skip_at(pre, pos);
        if s.len() - 1 != pos {
            if r.contains(s.last()) {
                lemma_skip_at_contains(pre, pos, s.last(), pre.len() as int);
                assert(pre.take(pre.len() as int) == pre);
                let i = choose|i: int| 0 <= i < pre.len() && i != pos && pre[i] == s.last();
                assert(s[i] == s[s.len() - 1]);
            }
            assert forall|a: int, b: int|
                0 <= a < r.push(s.last()).len() && 0 <= b < r.push(s.last()).len() && a != b
                    implies r.push(s.last())[a] != r.push(s.last())[b] by {
                if a == r.len() {
                    assert(r.contains(r[b]));
                } else if b == r.len() {
                    assert(r.contains(r[a]));
                }
            }
        }
    }
}

proof fn lemma_union_pool<W>(fs: Seq<FactorModel<W>>)
    ensures
        union_spec(pool_vars(fs)).no_duplicates(),
        forall|x: u32| #[trigger] union_spec(pool_vars(fs)).contains(x) <==> pool_has(fs, x),
{
    let pv = pool_vars(fs);
    lemma_union(pv);
    assert forall|x: u32| #[trigger] union_spec(pv).contains(x) <==> pool_has(fs, x) by {
        if union_spec(pv).contains(x) {
            let j = choose|j: int| 0 <= j < pv.len() && #[trigger] pv[j].contains(x);
            assert(fs[j].0.contains(x));
        }
        if pool_has(fs, x) {
            let j = choose|j: int| 0 <= j < fs.len() && #[trigger] fs[j].0.contains(x);
            assert(pv[j].contains(x));
        }
    }
}

/// Rows laid out over `to` have one entry per variable of `to`.
proof fn lemma_lay_out_fit<W>(joined: (Seq<u32>, Seq<u32>, Seq<KeyedModel<W>>), to: Seq<u32>)
    ensures
        rows_fit(lay_out_spec(joined, to), to.len() as int),
{
}

/// Eliminating a variable of the join key always succeeds: the result has the
/// joined variables but that one, each once, and tuples that fit them.
proof fn lemma_eliminate_ok<W: Semiring, T: Factor<W>>(part: Seq<FactorModel<W>>, v: u32)
    requires
        part.len() > 0,
        join_keys(part).contains(v),
    ensures
        eliminate_spec::<W, T>(join_spec(part), v) is Ok,
        factor_wf(eliminate_spec::<W, T>(join_spec(part), v)->Ok_0.0, eliminate_spec::<W, T>(join_spec(part), v)->Ok_0.1),
        forall|x: u32| #[trigger] eliminate_spec::<W, T>(join_spec(part), v)->Ok_0.0.contains(x)
            <==> (pool_has(part, x) && x != v),
{
    let j = join_spec(part);
    let u = j.0;
    lemma_union_pool(part);
    lemma_keys_in_first(part);
    let k = choose|k: int| 0 <= k < j.1.len() && j.1[k] == v;
    assert(part[0].0.contains(j.1[k]));
    assert(pool_has(part, v));
    let p = index_of(u, v);
    lemma_index_of(u, v);
    let vars = skip_at(u, p);
    lemma_skip_at_no_dup(u, p);
    let laid = lay_out_spec(j, vars);
    lemma_lay_out_fit(j, vars);
    T::lemma_normalize_fit(laid, vars, vars.len() as int);
    let rows = T::normalize_spec(laid, vars);
    assert(construction_error(vars, rows).is_none());
    lemma_consolidate_fit(rows, vars.len() as int);
    assert forall|x: u32| #[trigger] vars.contains(x) <==> (pool_has(part, x) && x != v) by {
        lemma_skip_at_contains(u, p, x, u.len() as int);
        assert(u.take(u.len() as int) == u);
        if pool_has(part, x) && x != v {
            assert(u.contains(x));
            let i = choose|i: int| 0 <= i < u.len() && u[i] == x;
            assert(i != p);
        }
        if vars.contains(x) {
            let i = choose|i: int| 0 <= i < u.len() && i != p && u[i] == x;
            assert(u.contains(x));
        }
    }
}

/// The final join always succeeds: its variables are those of the pool, each
/// once, and its tuples fit them.
proof fn lemma_finish_ok<W: Semiring>(pool: Seq<FactorModel<W>>)
    ensures
        finish_spec(pool) is Ok,
        finish_spec(pool)->Ok_0.0.no_duplicates(),
        rows_fit(finish_spec(pool)->Ok_0.1, finish_spec(pool)->Ok_0.0.len() as int),
        forall|x: u32| #[trigger] finish_spec(pool)->Ok_0.0.contains(x) <==> pool_has(pool, x),
{
    let j = join_spec(pool);
    lemma_union_pool(pool);
    lemma_lay_out_fit(j, j.0);
    lemma_consolidate_fit(lay_out_spec(j, j.0), j.0.len() as int);
}

/// An elimination step on a variable that some factor mentions succeeds; the
/// pool then mentions the same variables but that one.
proof fn lemma_step_ok<W: Semiring, T: Factor<W>>(p: Seq<FactorModel<W>>, v: u32)
    requires
        pool_wf(p),
        pool_has(p, v),
    ensures
        step_spec::<W, T>(p, v) is Ok,
        pool_wf(step_spec::<W, T>(p, v)->Ok_0),
        step_spec::<W, T>(p, v)->Ok_0.len() > 0,
        forall|x: u32| #[trigger] pool_has(step_spec::<W, T>(p, v)->Ok_0, x) <==> (pool_has(p, x) && x != v),
{
    let has_v = |f: FactorModel<W>| f.0.contains(v);
    let lacks_v = |f: FactorModel<W>| !f.0.contains(v);
    let part = mentioning(p, v);
    let rest = not_mentioning(p, v);
    let m = choose|m: int| 0 <= m < p.len() && #[trigger] p[m].0.contains(v);
    p.lemma_filter_contains(has_v, m);
    assert(part.len() > 0);
    p.filter_lemma(has_v);
    p.filter_lemma(lacks_v);
    let pv = pool_vars(part);
    assert forall|i: int| 0 <= i < pv.len() implies #[trigger] pv[i].contains(v) by {
        assert(has_v(part[i]));
    }
    assert(pv[0] == part[0].0);
    pv[0].lemma_filter_contains(|y: u32| in_all(pv, y), choose|i: int| 0 <= i < pv[0].len() && pv[0][i] == v);
    lemma_eliminate_ok::<W, T>(part, v);
    let f = eliminate_spec::<W, T>(join_spec(part), v)->Ok_0;
    let q = rest.push(f);
    assert forall|i: int| 0 <= i < q.len() implies factor_wf(#[trigger] q[i].0, q[i].1) by {
        if i < rest.len() {
            p.lemma_filter_contains_rev(lacks_v, rest[i]);
            let k = choose|k: int| 0 <= k < p.len() && p[k] == rest[i];
            assert(factor_wf(p[k].0, p[k].1));
        }
    }
    assert forall|x: u32| #[trigger] pool_has(q, x) <==> (pool_has(p, x) && x != v) by {
        if pool_has(q, x) {
            let k = choose|k: int| 0 <= k < q.len() && #[trigger] q[k].0.contains(x);
            if k < rest.len() {
                p.lemma_filter_contains_rev(lacks_v, rest[k]);
                let k2 = choose|k2: int| 0 <= k2 < p.len() && p[k2] == rest[k];
                assert(p[k2].0.contains(x));
                assert(!rest[k].0.contains(v));
            } else {
                assert(q[k] == f);
                assert(f.0.contains(x));
                let k3 = choose|k3: int| 0 <= k3 < part.len() && #[trigger] part[k3].0.contains(x);
                p.lemma_filter_contains_rev(has_v, part[k3]);
                let k4 = choose|k4: int| 0 <= k4 < p.len() && p[k4] == part[k3];
                assert(p[k4].0.contains(x));
            }
        }
        if pool_has(p, x) && x != v {
            let k = choose|k: int| 0 <= k < p.len() && #[trigger] p[k].0.contains(x);
            if p[k].0.contains(v) {
                p.lemma_filter_contains(has_v, k);
                let k2 = choose|k2: int| 0 <= k2 < part.len() && part[k2] == p[k];
                assert(part[k2].0.contains(x));
                assert(pool_has(part, x));
                assert(f.0.contains(x));
                assert(q[q.len() - 1].0.contains(x));
            } else {
                p.lemma_filter_contains(lacks_v, k);
                let k2 = choose|k2: int| 0 <= k2 < rest.len() && rest[k2] == p[k];
                assert(q[k2].0.contains(x));
            }
        }
    }
}

/// After a check that passes, every elimination step succeeds and the pool
/// mentions the variables of the query but those eliminated so far.
proof fn lemma_run_ok<W: Semiring, T: Factor<W>>(pool: Seq<FactorModel<W>>, order: Seq<u32>, k: int)
    requires
        pool_wf(pool),
        pool.len() > 0,
        first_unplaceable(union_spec(pool_vars(pool)), order) == -1,
        0 <= k <= order.len(),
    ensures
        run_spec::<W, T>(pool, order.take(k)) is Ok,
        pool_wf(run_spec::<W, T>(pool, order.take(k))->Ok_0),
        run_spec::<W, T>(pool, order.take(k))->Ok_0.len() > 0,
        forall|x: u32| #[trigger] pool_has(run_spec::<W, T>(pool, order.take(k))->Ok_0, x)
            <==> (pool_has(pool, x) && !order.take(k).contains(x)),
    decreases k,
{
    if k == 0 {
        assert(order.take(0) =~= Seq::<u32>::empty());
    } else {
        let pre = order.take(k - 1);
        assert(order.take(k).drop_last() =~= pre);
        assert(order.take(k).last() == order[k - 1]);
        lemma_run_ok::<W, T>(pool, order, k - 1);
        let p = run_spec::<W, T>(pool, pre)->Ok_0;
        let v = order[k - 1];
        let u = union_spec(pool_vars(pool));
        if unplaceable(u, order, k - 1) {
            lemma_first_unplaceable_found(u, order, k - 1);
        }
        assert(order.take(k - 1) =~= pre);
        lemma_union_pool(pool);
        assert(pool_has(pool, v));
        assert(pool_has(p, v));
        lemma_step_ok::<W, T>(p, v);
        assert(order.take(k) =~= pre.push(v));
        assert forall|x: u32| #[trigger] pool_has(run_spec::<W, T>(pool, order.take(k))->Ok_0, x)
            <==> (pool_has(pool, x) && !order.take(k).contains(x)) by {
            lemma_push_contains(pre, v, x);
            assert(pool_has(p, x) <==> (pool_has(pool, x) && !pre.contains(x)));
        }
    }
}

/// A query fails exactly when a variable of the order is mentioned by no
/// factor or repeats an earlier one, and then with `EmptyEliminationGroup`,
/// decided before any join. Otherwise every step succeeds.
pub proof fn lemma_query_rejections<W: Semiring, T: Factor<W>>(pool: Seq<FactorModel<W>>, order: Seq<u32>)
    requires
        pool.len() > 0 || order.len() > 0,
        pool_wf(pool),
    ensures
        query_spec::<W, T>(pool, order) is Err <==> first_unplaceable(union_spec(pool_vars(pool)), order) >= 0,
        query_spec::<W, T>(pool, order) is Err ==> query_spec::<W, T>(pool, order)->Err_0 is EmptyEliminationGroup,
{
    let u = union_spec(pool_vars(pool));
    lemma_first_unplaceable_bound(u, order);
    if first_unplaceable(u, order) == -1 {
        if pool.len() == 0 {
            assert(pool_vars(pool).len() == 0);
            assert(!u.contains(order[0]));
            lemma_first_unplaceable_found(u, order, 0);
        }
        lemma_run_ok::<W, T>(pool, order, order.len() as int);
        assert(order.take(order.len() as int) == order);
        lemma_finish_ok(run_spec::<W, T>(pool, order)->Ok_0);
    }
}

/// The free variables of a query: mentioned by some factor, not eliminated.
pub open spec fn free_variables<W>(pool: Seq<FactorModel<W>>, order: Seq<u32>) -> Set<u32> {
    Set::new(|x: u32| pool_has(pool, x) && !order.contains(x))
}

/// The relation a query returns has exactly the free variables, each once,
/// and every tuple has one entry per free variable.
pub proof fn lemma_output_arity<W: Semiring, T: Factor<W>>(pool: Seq<FactorModel<W>>, order: Seq<u32>)
    requires
        pool.len() > 0 || order.len() > 0,
        pool_wf(pool),
    ensures
        query_spec::<W, T>(pool, order) is Ok ==> ({
            let f = query_spec::<W, T>(pool, order)->Ok_0;
            &&& f.0.no_duplicates()
            &&& f.0.to_set() == free_variables(pool, order)
            &&& f.0.len() == free_variables(pool, order).len()
            &&& rows_fit(f.1, f.0.len() as int)
        }),
{
    lemma_query_rejections::<W, T>(pool, order);
    if query_spec::<W, T>(pool, order) is Ok {
        if pool.len() == 0 {
            let u = union_spec(pool_vars(pool));
            assert(pool_vars(pool).len() == 0);
            assert(!u.contains(order[0]));
            lemma_first_unplaceable_found(u, order, 0);
        }
        lemma_run_ok::<W, T>(pool, order, order.len() as int);
        assert(order.take(order.len() as int) == order);
        let p = run_spec::<W, T>(pool, order)->Ok_0;
        lemma_finish_ok(p);
        let vars = finish_spec(p)->Ok_0.0;
        assert forall|x: u32| #[trigger] vars.to_set().contains(x) == free_variables(pool, order).contains(x) by {
            assert(vars.contains(x) <==> pool_has(p, x));
        }
        assert(vars.to_set() =~= free_variables(pool, order));
        vars.unique_seq_to_set();
    }
}


proof fn lemma_first_unplaceable_is(a: Seq<u32>, s: Seq<u32>)
    requires
        first_unplaceable(a, s) >= 0,
    ensures
        unplaceable(a, s, first_unplaceable(a, s)),
    decreases s.len(),
{
    let pre = s.drop_last();
    let b = first_unplaceable(a, s);
    if first_unplaceable(a, pre) >= 0 {
        lemma_first_unplaceable_is(a, pre);
        lemma_first_unplaceable_bound(a, pre);
        assert(pre[b] == s[b]);
        assert(pre.take(b) == s.take(b));
    }
}

/// A query with one factor whose elimination order names every variable of
/// the factor but `w`, each once, succeeds with a factor over `w` alone.
pub proof fn lemma_single_factor_survivor<W: Semiring, T: Factor<W>>(
    f: FactorModel<W>,
    order: Seq<u32>,
    w: u32,
)
    requires
        factor_wf(f.0, f.1),
        f.0.contains(w),
        order.no_duplicates(),
        forall|x: u32| #[trigger] order.contains(x) <==> (f.0.contains(x) && x != w),
    ensures
        query_spec::<W, T>(seq![f], order) is Ok,
        query_spec::<W, T>(seq![f], order)->Ok_0.0 == seq![w],
{
    let pool = seq![f];
    assert(pool_wf(pool)) by {
        assert forall|i: int| 0 <= i < pool.len() implies factor_wf(#[trigger] pool[i].0, pool[i].1) by {
            assert(pool[i] == f);
        }
    }
    assert forall|x: u32| #[trigger] pool_has(pool, x) <==> f.0.contains(x) by {
        if f.0.contains(x) {
            assert(pool[0].0.contains(x));
        }
    }
    let u = union_spec(pool_vars(pool));
    lemma_union_pool(pool);
    if first_unplaceable(u, order) >= 0 {
        let b = first_unplaceable(u, order);
        lemma_first_unplaceable_is(u, order);
        lemma_first_unplaceable_bound(u, order);
        assert(order.contains(order[b]));
        if order.take(b).contains(order[b]) {
            let i = choose|i: int| 0 <= i < b && order.take(b)[i] == order[b];
            assert(order[i] == order[b]);
        }
    }
    lemma_query_rejections::<W, T>(pool, order);
    lemma_output_arity::<W, T>(pool, order);
    let vars = query_spec::<W, T>(pool, order)->Ok_0.0;
    assert(free_variables(pool, order) =~= set![w]);
    assert(set![w].len() == 1);
    assert(vars.len() == 1);
    assert(vars.to_set().contains(vars[0]));
    assert(vars =~= seq![w]);
}


proof fn lemma_split_total<A>(t: Seq<A>, vars: Seq<u32>, keys: Seq<u32>)
    ensures
        split_spec(t, vars, keys, true).len() + split_spec(t, vars, keys, false).len() == t.len(),
    decreases t.len(),
{
    if t.len() > 0 {
        lemma_split_total(t.drop_last(), vars, keys);
    }
}

proof fn lemma_split_vars_no_dup(vars: Seq<u32>, keys: Seq<u32>, k: int)
    requires
        vars.no_duplicates(),
        0 <= k <= vars.len(),
    ensures
        split_spec(vars.take(k), vars, keys, true).no_duplicates(),
    decreases k,
{
    if k > 0 {
        let pre = vars.take(k - 1);
        let t = vars.take(k);
        assert(t.drop_last() =~= pre);
        lemma_split_vars_no_dup(vars, keys, k - 1);
        let r = split_spec(pre, vars, keys, true);
        if keys.contains(vars[k - 1]) {
            if r.contains(vars[k - 1]) {
                lemma_split_vars_contains(vars, keys, true, k - 1, vars[k - 1]);
                let i = choose|i: int| 0 <= i < pre.len() && pre[i] == vars[k - 1];
                assert(vars[i] == vars[k - 1]);
            }
            let r2 = r.push(vars[k - 1]);
            assert forall|a: int, b: int|
                0 <= a < r2.len() && 0 <= b < r2.len() && a != b implies #[trigger] r2[a] != #[trigger] r2[b] by {
                if a == r.len() {
                    assert(r.contains(r[b]));
                } else if b == r.len() {
                    assert(r.contains(r[a]));
                }
            }
        }
    }
}

proof fn lemma_key_vars(vars: Seq<u32>, keys: Seq<u32>)
    requires
        keys.no_duplicates(),
    ensures
        key_spec(vars, vars, keys).no_duplicates(),
        forall|x: u32| #[trigger] key_spec(vars, vars, keys).contains(x) <==> (keys.contains(x) && vars.contains(x)),
    decreases keys.len(),
{
    if keys.len() > 0 {
        let pre = keys.drop_last();
        let y = keys.last();
        assert(pre.no_duplicates());
        lemma_key_vars(vars, pre);
        lemma_index_of(vars, y);
        let r = key_spec(vars, vars, pre);
        assert forall|x: u32| #[trigger] keys.contains(x) <==> (pre.contains(x) || x == y) by {
            assert(pre.push(y) =~= keys);
            lemma_push_contains(pre, y, x);
        }
        if !pre.contains(y) {
        } else {
            let i = choose|i: int| 0 <= i < pre.len() && pre[i] == y;
            assert(keys[i] == keys[keys.len() - 1]);
        }
        if index_of(vars, y) >= 0 {
            assert forall|x: u32| #[trigger] r.push(y).contains(x) <==> (r.contains(x) || x == y) by {
                lemma_push_contains(r, y, x);
            }
            let r2 = r.push(y);
            assert forall|a: int, b: int|
                0 <= a < r2.len() && 0 <= b < r2.len() && a != b implies #[trigger] r2[a] != #[trigger] r2[b] by {
                if a == r.len() {
                    assert(r.contains(r[b]));
                } else if b == r.len() {
                    assert(r.contains(r[a]));
                }
            }
        }
    }
}

/// Splitting a tuple over distinct variables on distinct keys loses nothing:
/// the key and the values together have as many entries as the tuple.
pub proof fn lemma_split_lossless<A>(t: Seq<A>, vars: Seq<u32>, keys: Seq<u32>)
    requires
        t.len() == vars.len(),
        vars.no_duplicates(),
        keys.no_duplicates(),
    ensures
        key_spec(t, vars, keys).len() + split_spec(t, vars, keys, false).len() == t.len(),
{
    lemma_split_total(t, vars, keys);
    lemma_split_len(t, vars, vars, keys, true);
    lemma_split_len(t, vars, vars, keys, false);
    lemma_key_len(t, vars, vars, keys);
    lemma_key_vars(vars, keys);
    lemma_split_vars_no_dup(vars, keys, vars.len() as int);
    assert(vars.take(vars.len() as int) == vars);
    let a = key_spec(vars, vars, keys);
    let b = split_spec(vars, vars, keys, true);
    assert forall|x: u32| a.to_set().contains(x) == b.to_set().contains(x) by {
        lemma_split_contains(vars, keys, true, x);
    }
    assert(a.to_set() =~= b.to_set());
    a.unique_seq_to_set();
    b.unique_seq_to_set();
}


proof fn lemma_skip_at_len<A>(s: Seq<A>, pos: int)
    requires
        0 <= pos < s.len(),
    ensures
        skip_at(s, pos).len() == s.len() - 1,
    decreases s.len(),
{
    if s.len() - 1 > pos {
        lemma_skip_at_len(s.drop_last(), pos);
    } else {
        lemma_skip_at_none(s.drop_last(), pos);
    }
}

proof fn lemma_skip_at_none<A>(s: Seq<A>, pos: int)
    requires
        pos >= s.len(),
    ensures
        skip_at(s, pos).len() == s.len(),
    decreases s.len(),
{
    if s.len() > 0 {
        lemma_skip_at_none(s.drop_last(), pos);
    }
}


proof fn lemma_add_new_fresh(xs: Seq<u32>)
    requires
        xs.no_duplicates(),
    ensures
        add_new(seq![], xs) == xs,
    decreases xs.len(),
{
    if xs.len() > 0 {
        let pre = xs.drop_last();
        assert(pre.no_duplicates());
        lemma_add_new_fresh(pre);
        if pre.contains(xs.last()) {
            let i = choose|i: int| 0 <= i < pre.len() && pre[i] == xs.last();
            assert(xs[i] == xs[xs.len() - 1]);
        }
        assert(pre.push(xs.last()) =~= xs);
    }
}

proof fn lemma_filter_all<A>(s: Seq<A>, pred: spec_fn(A) -> bool)
    requires
        forall|i: int| 0 <= i < s.len() ==> pred(#[trigger] s[i]),
    ensures
        s.filter(pred) == s,
    decreases s.len(),
{
    reveal(Seq::filter);
    if s.len() > 0 {
        let pre = s.drop_last();
        assert forall|i: int| 0 <= i < pre.len() implies pred(#[trigger] pre[i]) by {
            assert(pre[i] == s[i]);
        }
        lemma_filter_all(pre, pred);
        assert(pred(s[s.len() - 1]));
        assert(pre.push(s.last()) =~= s);
    }
}

proof fn lemma_split_none<A>(t: Seq<A>, vars: Seq<u32>)
    requires
        t.len() <= vars.len(),
    ensures
        split_spec(t, vars, vars, false) == Seq::<A>::empty(),
    decreases t.len(),
{
    if t.len() > 0 {
        lemma_split_none(t.drop_last(), vars);
        assert(vars.contains(vars[t.len() - 1]));
    }
}

proof fn lemma_key_whole<A>(t: Seq<A>, vars: Seq<u32>, k: int)
    requires
        t.len() == vars.len(),
        vars.no_duplicates(),
        0 <= k <= vars.len(),
    ensures
        key_spec(t, vars, vars.take(k)) == t.take(k),
    decreases k,
{
    if k > 0 {
        assert(vars.take(k).drop_last() =~= vars.take(k - 1));
        lemma_key_whole(t, vars, k - 1);
        lemma_index_of(vars, vars[k - 1]);
        assert(vars.contains(vars[k - 1]));
        let p = index_of(vars, vars[k - 1]);
        if p != k - 1 {
            assert(vars[p] == vars[k - 1]);
        }
        assert(t.take(k - 1).push(t[k - 1]) =~= t.take(k));
    }
}

proof fn lemma_group_unique<W: Semiring>(rows: Seq<RowModel<W>>)
    requires
        forall|i: int, j: int| 0 <= i < j < rows.len() ==> (#[trigger] rows[i]).0 != (#[trigger] rows[j]).0,
    ensures
        group_spec(rows) == rows,
    decreases rows.len(),
{
    if rows.len() > 0 {
        let pre = rows.drop_last();
        assert forall|i: int, j: int| 0 <= i < j < pre.len() implies (#[trigger] pre[i]).0 != (#[trigger] pre[j]).0 by {
            assert(pre[i] == rows[i] && pre[j] == rows[j]);
        }
        lemma_group_unique(pre);
        lemma_key_pos_bounds(pre, rows.last().0);
        if key_pos(pre, rows.last().0) >= 0 {
            let p = key_pos(pre, rows.last().0);
            assert(rows[p].0 == rows[rows.len() - 1].0);
        }
        assert(pre.push(rows.last()) =~= rows);
    }
}

/// Consolidating rows that are already consolidated changes nothing.
pub proof fn lemma_consolidate_idempotent<W: Semiring>(rows: Seq<RowModel<W>>)
    ensures
        consolidate_spec(consolidate_spec(rows)) == consolidate_spec(rows),
{
    let c = consolidate_spec(rows);
    lemma_consolidate(rows);
    lemma_group_unique(c);
    let pred = |r: RowModel<W>| r.1 != W::zero_spec();
    group_spec(rows).filter_lemma(pred);
    lemma_filter_all(c, pred);
}


/// The join of one factor is that factor: its variables are the union and the
/// key, and each tuple is a whole key with no values.
proof fn lemma_join_single<W: Semiring>(f: FactorModel<W>)
    requires
        factor_wf(f.0, f.1),
    ensures
        join_spec(seq![f]) == (f.0, f.0, f.1.map_values(|r: RowModel<W>| (r.0, Seq::<ValueModel>::empty(), r.1))),
{
    let pool = seq![f];
    let pv = pool_vars(pool);
    assert(pv =~= seq![f.0]);
    assert(pv.drop_last() =~= Seq::<Seq<u32>>::empty());
    lemma_add_new_fresh(f.0);
    assert(union_spec(pv.drop_last()) == Seq::<u32>::empty());
    assert(pv.last() == f.0);
    assert(union_spec(pv) == add_new(seq![], f.0));
    assert(union_spec(pv) == f.0);
    let pred = |x: u32| in_all(pv, x);
    assert forall|i: int| 0 <= i < f.0.len() implies pred(#[trigger] f.0[i]) by {
        assert forall|j: int| 0 <= j < pv.len() implies #[trigger] pv[j].contains(f.0[i]) by {
            assert(pv[j] == f.0);
        }
    }
    lemma_filter_all(f.0, pred);
    let keys = join_keys(pool);
    assert(keys == f.0);
    assert(pool.drop_last() =~= Seq::<FactorModel<W>>::empty());
    lemma_split_none(f.0, f.0);
    assert(pool.last() == f);
    assert(value_vars_spec(pool.drop_last(), keys) == Seq::<u32>::empty());
    assert(value_vars_spec(pool, keys) =~= Seq::<u32>::empty());
    let pr = project_spec(f.1, f.0, keys);
    assert forall|i: int| 0 <= i < pr.len() implies #[trigger] pr[i] == (f.1[i].0, Seq::<ValueModel>::empty(), f.1[i].1) by {
        assert(f.1[i].0.len() == f.0.len());
        lemma_key_whole(f.1[i].0, f.0, f.0.len() as int);
        assert(f.0.take(f.0.len() as int) == f.0);
        assert(f.1[i].0.take(f.0.len() as int) == f.1[i].0);
        lemma_split_none(f.1[i].0, f.0);
    }
    let vv = value_vars_spec(pool, keys);
    let cpred = |r: KeyedModel<W>| consistent(r.1, vv);
    assert(join_rows_spec(pool, keys) == pr);
    assert forall|i: int| 0 <= i < pr.len() implies cpred(#[trigger] pr[i]) by {
    }
    lemma_filter_all(pr, cpred);
    assert(off_key(f.0, f.0) =~= Seq::<u32>::empty());
    let j = join_spec(pool);
    let target = f.1.map_values(|r: RowModel<W>| (r.0, Seq::<ValueModel>::empty(), r.1));
    assert forall|i: int| 0 <= i < j.2.len() implies #[trigger] j.2[i] == target[i] by {
        assert(pick_spec(pr[i].1, vv, off_key(f.0, keys)) =~= Seq::<ValueModel>::empty());
    }
    assert(j.2 =~= target);
}

/// Each row's tuple cut down to its entry at position `i`.
pub open spec fn entry_rows<W>(rows: Seq<RowModel<W>>, i: int) -> Seq<RowModel<W>> {
    rows.map_values(|r: RowModel<W>| (seq![r.0[i]], r.1))
}

/// A factor over two variables with one of them eliminated reduces to the
/// factor over the other: each of its values carries the combination of the
/// weights of the tuples that hold it (see `lemma_consolidate`), and values
/// whose weights come to zero are left out.
pub proof fn lemma_single_factor_weights<W: Semiring>(f: FactorModel<W>, w: u32, y: u32)
    requires
        factor_wf(f.0, f.1),
        f.0.len() == 2,
        f.0.contains(w),
        f.0.contains(y),
        w != y,
    ensures
        query_spec::<W, GenericFactor<W>>(seq![f], seq![y]) == Ok::<FactorModel<W>, QueryError>(
            (seq![w], consolidate_spec(entry_rows(f.1, index_of(f.0, w)))),
        ),
{
    let pool = seq![f];
    let order = seq![y];
    lemma_join_single(f);
    let u = f.0;
    lemma_index_of(u, w);
    lemma_index_of(u, y);
    let iw = index_of(u, w);
    let iy = index_of(u, y);
    assert(iw != iy);
    // The order is placeable.
    assert(order.drop_last() =~= Seq::<u32>::empty());
    assert(order.take(0) =~= Seq::<u32>::empty());
    assert(first_unplaceable(u, order.drop_last()) == -1);
    assert(order[0] == y);
    assert(u.contains(y));
    assert(!order.take(0).contains(y));
    assert(!unplaceable(u, order, 0));
    assert(first_unplaceable(u, order) == -1);
    // The single step.
    let has_v = |g: FactorModel<W>| g.0.contains(y);
    let lacks_v = |g: FactorModel<W>| !g.0.contains(y);
    assert forall|i: int| 0 <= i < pool.len() implies has_v(#[trigger] pool[i]) by {
        assert(pool[i] == f);
    }
    lemma_filter_all(pool, has_v);
    reveal(Seq::filter);
    assert(pool.drop_last() =~= Seq::<FactorModel<W>>::empty());
    assert(pool.drop_last().filter(lacks_v) =~= Seq::<FactorModel<W>>::empty());
    assert(!lacks_v(pool.last()));
    assert(pool.filter(lacks_v) == pool.drop_last().filter(lacks_v));
    assert(not_mentioning(pool, y) =~= Seq::<FactorModel<W>>::empty());
    let j = join_spec(pool);
    let vars = skip_at(u, iy);
    assert(vars =~= seq![w]) by {
        let d = u.drop_last();
        assert(d.drop_last() =~= Seq::<u32>::empty());
        assert(skip_at(d.drop_last(), iy) == Seq::<u32>::empty());
        assert(d.last() == u[0]);
        assert(u.last() == u[1]);
        if iy == 0 {
            assert(skip_at(d, iy) == Seq::<u32>::empty());
            assert(u[1] == w);
        } else {
            assert(skip_at(d, iy) == Seq::<u32>::empty().push(u[0]));
            assert(u[0] == w);
        }
    }
    lemma_split_none(u, u);
    let laid = lay_out_spec(j, vars);
    let rows1 = entry_rows(f.1, iw);
    assert(off_key(j.0, j.1) =~= Seq::<u32>::empty());
    assert forall|i: int| 0 <= i < laid.len() implies #[trigger] laid[i] == rows1[i] by {
        let r = j.2[i];
        assert(r.0 + r.1 =~= f.1[i].0);
        assert(j.1 + off_key(j.0, j.1) =~= u);
        assert(pick_spec(r.0 + r.1, u, vars) =~= seq![f.1[i].0[iw]]);
    }
    assert(laid =~= rows1);
    assert(construction_error(vars, rows1).is_none()) by {
        assert forall|i: int| 0 <= i < rows1.len() implies (#[trigger] rows1[i]).0.len() == vars.len() by {
        }
    }
    let f1 = (vars, consolidate_spec(rows1));
    assert(eliminate_spec::<W, GenericFactor<W>>(j, y) == Ok::<FactorModel<W>, QueryError>(f1));
    assert(Seq::<FactorModel<W>>::empty().push(f1) =~= seq![f1]);
    assert(run_spec::<W, GenericFactor<W>>(pool, order.drop_last()) == Ok::<Seq<FactorModel<W>>, QueryError>(pool));
    assert(order.last() == y);
    assert(mentioning(pool, y) == pool);
    assert(step_spec::<W, GenericFactor<W>>(pool, y) == Ok::<Seq<FactorModel<W>>, QueryError>(seq![f1]));
    assert(run_spec::<W, GenericFactor<W>>(pool, order) == Ok::<Seq<FactorModel<W>>, QueryError>(seq![f1]));
    // The final join of the one remaining factor.
    lemma_consolidate_fit(rows1, 1);
    lemma_join_single(f1);
    let j1 = join_spec(seq![f1]);
    let laid1 = lay_out_spec(j1, j1.0);
    lemma_split_none(vars, vars);
    assert(off_key(j1.0, j1.1) =~= Seq::<u32>::empty());
    assert forall|i: int| 0 <= i < laid1.len() implies #[trigger] laid1[i] == f1.1[i] by {
        let r = j1.2[i];
        assert(f1.1[i].0.len() == 1);
        assert(r.0 + r.1 =~= f1.1[i].0);
        assert(j1.1 + off_key(j1.0, j1.1) =~= vars);
        lemma_index_of(vars, w);
        assert(vars[0] == w);
        assert(index_of(vars, w) == 0);
        assert(pick_spec(r.0 + r.1, vars, vars)[0] == f1.1[i].0[0]);
        assert(pick_spec(r.0 + r.1, vars, vars) =~= f1.1[i].0);
    }
    assert(laid1 =~= f1.1);
    lemma_consolidate_idempotent(rows1);
    assert(construction_error(vars, f1.1).is_none());
}

} // verus!
