//! Weighted relations held in memory, and the relational primitives the
//! elimination engine is built from: projection onto join keys, equi-join,
//! grouping of equal tuples, and reshaping after a variable is removed.
use vstd::prelude::*;
use crate::semiring::Semiring;
use crate::value::{Value, ValueModel, copy_tuple, same_tuple, tuple_model, value_lt};

verus! {

/// A tuple with its weight.
pub type Row<W> = (Vec<Value>, W);

/// A tuple split into its join key and the remaining values, with its weight.
pub type KeyedRow<W> = (Vec<Value>, Vec<Value>, W);

/// The mathematical content of a weighted tuple.
pub type RowModel<W> = (Seq<ValueModel>, W);

/// The mathematical content of a keyed tuple.
pub type KeyedModel<W> = (Seq<ValueModel>, Seq<ValueModel>, W);

pub open spec fn rows_model<W>(r: Seq<Row<W>>) -> Seq<RowModel<W>> {
    r.map_values(|p: Row<W>| (tuple_model(p.0@), p.1))
}

pub open spec fn keyed_model<W>(r: Seq<KeyedRow<W>>) -> Seq<KeyedModel<W>> {
    r.map_values(|p: KeyedRow<W>| (tuple_model(p.0@), tuple_model(p.1@), p.2))
}

/// The entries of `t` whose variable (in `vars`, position for position) is in
/// `keys` when `in_key` holds, or is not in `keys` otherwise; relative order kept.
pub open spec fn split_spec<A>(t: Seq<A>, vars: Seq<u32>, keys: Seq<u32>, in_key: bool) -> Seq<A>
    decreases t.len(),
{
    if t.len() == 0 {
        seq![]
    } else {
        let rest = split_spec(t.drop_last(), vars, keys, in_key);
        if keys.contains(vars[t.len() - 1]) == in_key {
            rest.push(t.last())
        } else {
            rest
        }
    }
}

/// Each tuple split into its key (its entries at `keys`, in that order) and
/// its remaining values (in the tuple's order).
pub open spec fn project_spec<W>(rows: Seq<RowModel<W>>, vars: Seq<u32>, keys: Seq<u32>) -> Seq<
    KeyedModel<W>,
> {
    rows.map_values(
        |r: RowModel<W>|
            (key_spec(r.0, vars, keys), split_spec(r.0, vars, keys, false), r.1),
    )
}

/// The rows of `right` whose key equals the key of `l`, each joined with `l`:
/// values concatenated (left first), weights multiplied.
pub open spec fn matches_spec<W: Semiring>(l: KeyedModel<W>, right: Seq<KeyedModel<W>>) -> Seq<
    KeyedModel<W>,
>
    decreases right.len(),
{
    if right.len() == 0 {
        seq![]
    } else {
        let r = right.last();
        let rest = matches_spec(l, right.drop_last());
        if r.0 == l.0 {
            rest.push((l.0, l.1 + r.1, W::multiply_spec(l.2, r.2)))
        } else {
            rest
        }
    }
}

/// Inner equi-join on the key: for each left row in order, its matches in `right`.
pub open spec fn equi_join_spec<W: Semiring>(left: Seq<KeyedModel<W>>, right: Seq<KeyedModel<W>>) -> Seq<
    KeyedModel<W>,
>
    decreases left.len(),
{
    if left.len() == 0 {
        seq![]
    } else {
        equi_join_spec(left.drop_last(), right) + matches_spec(left.last(), right)
    }
}

/// The first position of tuple `k` in `acc`, or -1.
pub open spec fn key_pos<W>(acc: Seq<RowModel<W>>, k: Seq<ValueModel>) -> int
    decreases acc.len(),
{
    if acc.len() == 0 {
        -1
    } else {
        let p = key_pos(acc.drop_last(), k);
        if p >= 0 {
            p
        } else if acc.last().0 == k {
            acc.len() - 1
        } else {
            -1
        }
    }
}

/// Adds one row to a grouped relation: its weight is combined into the row
/// with the same tuple, or the row is appended.
pub open spec fn merge_spec<W: Semiring>(acc: Seq<RowModel<W>>, row: RowModel<W>) -> Seq<RowModel<W>> {
    let p = key_pos(acc, row.0);
    if p >= 0 {
        acc.update(p, (row.0, W::combine_spec(acc[p].1, row.1)))
    } else {
        acc.push(row)
    }
}

/// Equal tuples merged into one, their weights combined in order; tuples in
/// order of first appearance.
pub open spec fn group_spec<W: Semiring>(rows: Seq<RowModel<W>>) -> Seq<RowModel<W>>
    decreases rows.len(),
{
    if rows.len() == 0 {
        seq![]
    } else {
        merge_spec(group_spec(rows.drop_last()), rows.last())
    }
}

/// Equal tuples merged, their weights combined; tuples whose weight comes to
/// zero left out.
pub open spec fn consolidate_spec<W: Semiring>(rows: Seq<RowModel<W>>) -> Seq<RowModel<W>> {
    group_spec(rows).filter(|r: RowModel<W>| r.1 != W::zero_spec())
}

/// `t` without its entry at position `pos` (all of `t` if there is none).
pub open spec fn skip_at<A>(t: Seq<A>, pos: int) -> Seq<A>
    decreases t.len(),
{
    if t.len() == 0 {
        seq![]
    } else {
        let rest = skip_at(t.drop_last(), pos);
        if t.len() - 1 == pos {
            rest
        } else {
            rest.push(t.last())
        }
    }
}

/// A tuple over `vars` in canonical edge orientation: not an edge, or the
/// endpoint of the variable with the smaller id comes strictly before the other.
pub open spec fn is_canonical(t: Seq<ValueModel>, vars: Seq<u32>) -> bool {
    t.len() != 2 || vars.len() != 2 || if vars[0] < vars[1] {
        value_lt(t[0], t[1])
    } else {
        value_lt(t[1], t[0])
    }
}

/// The rows whose tuple (over `vars`) is in canonical edge orientation.
pub open spec fn canonical_spec<W>(rows: Seq<RowModel<W>>, vars: Seq<u32>) -> Seq<RowModel<W>> {
    rows.filter(|r: RowModel<W>| is_canonical(r.0, vars))
}

/// The entries of `t` (a tuple over `vars`) at the variables `keys`, in the
/// order of `keys`; a key variable that is not in `vars` gives no entry.
pub open spec fn key_spec<A>(t: Seq<A>, vars: Seq<u32>, keys: Seq<u32>) -> Seq<A>
    decreases keys.len(),
{
    if keys.len() == 0 {
        seq![]
    } else {
        let rest = key_spec(t, vars, keys.drop_last());
        let p = index_of(vars, keys.last());
        if p >= 0 {
            rest.push(t[p])
        } else {
            rest
        }
    }
}

/// The tuple `src` (over the variables `from`) read at the variables `to`.
pub open spec fn pick_spec(src: Seq<ValueModel>, from: Seq<u32>, to: Seq<u32>) -> Seq<ValueModel> {
    Seq::new(to.len(), |i: int| src[index_of(from, to[i])])
}

/// Every tuple has `n` entries.
pub open spec fn rows_fit<W>(rows: Seq<RowModel<W>>, n: int) -> bool {
    forall|i: int| 0 <= i < rows.len() ==> (#[trigger] rows[i]).0.len() == n
}

/// Grouping keeps tuple lengths.
pub proof fn lemma_group_fit<W: Semiring>(rows: Seq<RowModel<W>>, n: int)
    requires
        rows_fit(rows, n),
    ensures
        rows_fit(group_spec(rows), n),
    decreases rows.len(),
{
    if rows.len() > 0 {
        let pre = rows.drop_last();
        assert(rows_fit(pre, n)) by {
            assert forall|i: int| 0 <= i < pre.len() implies (#[trigger] pre[i]).0.len() == n by {
                assert(pre[i] == rows[i]);
            }
        }
        lemma_group_fit(pre, n);
        lemma_key_pos_bounds(group_spec(pre), rows.last().0);
    }
}

/// Consolidation keeps tuple lengths.
pub proof fn lemma_consolidate_fit<W: Semiring>(rows: Seq<RowModel<W>>, n: int)
    requires
        rows_fit(rows, n),
    ensures
        rows_fit(consolidate_spec(rows), n),
{
    lemma_group_fit(rows, n);
    let g = group_spec(rows);
    let pred = |r: RowModel<W>| r.1 != W::zero_spec();
    assert forall|i: int| 0 <= i < g.filter(pred).len() implies (#[trigger] g.filter(pred)[i]).0.len() == n by {
        g.filter_lemma(pred);
        g.lemma_filter_contains_rev(pred, g.filter(pred)[i]);
    }
}

/// Whether `x` is in `v`.
pub fn has(v: &Vec<u32>, x: u32) -> (r: bool)
    ensures
        r == v@.contains(x),
{
    let mut i: usize = 0;
    while i < v.len()
        invariant
            i <= v.len(),
            forall|j: int| 0 <= j < i ==> v@[j] != x,
        decreases v.len() - i,
    {
        if v[i] == x {
            return true;
        }
        i = i + 1;
    }
    false
}

/// The part of tuple `t` that lies on (or off) the variables `keys`.
pub fn split(t: &Vec<Value>, vars: &Vec<u32>, keys: &Vec<u32>, in_key: bool) -> (r: Vec<Value>)
    requires
        t.len() == vars.len(),
    ensures
        tuple_model(r@) == split_spec(tuple_model(t@), vars@, keys@, in_key),
{
    let mut r: Vec<Value> = Vec::new();
    let mut i: usize = 0;
    while i < t.len()
        invariant
            i <= t.len(),
            t.len() == vars.len(),
            tuple_model(r@) == split_spec(tuple_model(t@).take(i as int), vars@, keys@, in_key),
        decreases t.len() - i,
    {
        let ghost before = r@;
        let ghost tm = tuple_model(t@);
        assert(tm.take(i + 1).drop_last() == tm.take(i as int));
        if has(keys, vars[i]) == in_key {
            let v = t[i].duplicate();
            r.push(v);
            assert(tuple_model(r@) =~= tuple_model(before).push(tm[i as int]));
        }
        i = i + 1;
    }
    assert(tuple_model(t@).take(t.len() as int) == tuple_model(t@));
    r
}


/// Every row split into its key (its entries at `keys`, in that order) and
/// its remaining values.
pub fn project<W: Semiring>(rows: &Vec<Row<W>>, vars: &Vec<u32>, keys: &Vec<u32>) -> (r: Vec<
    KeyedRow<W>,
>)
    requires
        rows_fit(rows_model(rows@), vars@.len() as int),
        keys@.no_duplicates(),
    ensures
        keyed_model(r@) == project_spec(rows_model(rows@), vars@, keys@),
{
    let mut r: Vec<KeyedRow<W>> = Vec::new();
    let mut i: usize = 0;
    while i < rows.len()
        invariant
            i <= rows.len(),
            rows_fit(rows_model(rows@), vars@.len() as int),
            keyed_model(r@) == project_spec(rows_model(rows@.take(i as int)), vars@, keys@),
        decreases rows.len() - i,
    {
        let ghost before = r@;
        proof {
            lemma_rows_model_index(rows@, i as int);
        }
        let row = &rows[i];
        let k = key_part(&row.0, vars, keys);
        let v = split(&row.0, vars, keys, false);
        r.push((k, v, row.1));
        proof {
            assert(rows@.take(i + 1) == rows@.take(i as int).push(rows@[i as int]));
            assert(rows_model(rows@.take(i + 1)) =~= rows_model(rows@.take(i as int)).push(
                rows_model(rows@)[i as int],
            ));
        }
        assert(keyed_model(r@) =~= keyed_model(before).push(keyed_model(r@).last()));
        assert(project_spec(rows_model(rows@.take(i + 1)), vars@, keys@) =~= project_spec(
            rows_model(rows@.take(i as int)),
            vars@,
            keys@,
        ).push(keyed_model(r@).last()));
        i = i + 1;
    }
    assert(rows@.take(rows.len() as int) == rows@);
    r
}

/// The rows of `right` whose key equals the key of `l`, joined with `l`.
fn matches<W: Semiring>(l: &KeyedRow<W>, right: &Vec<KeyedRow<W>>) -> (r: Vec<KeyedRow<W>>)
    ensures
        keyed_model(r@) == matches_spec(keyed_model(seq![*l])[0], keyed_model(right@)),
{
    let ghost lm = keyed_model(seq![*l])[0];
    let mut r: Vec<KeyedRow<W>> = Vec::new();
    let mut i: usize = 0;
    while i < right.len()
        invariant
            i <= right.len(),
            lm == (tuple_model(l.0@), tuple_model(l.1@), l.2),
            keyed_model(r@) == matches_spec(lm, keyed_model(right@.take(i as int))),
        decreases right.len() - i,
    {
        let ghost before = r@;
        let rr = &right[i];
        proof {
            assert(right@.take(i + 1) == right@.take(i as int).push(right@[i as int]));
            assert(keyed_model(right@.take(i + 1)) =~= keyed_model(right@.take(i as int)).push(
                keyed_model(right@)[i as int],
            ));
            assert(keyed_model(right@.take(i + 1)).drop_last() =~= keyed_model(
                right@.take(i as int),
            ));
        }
        if same_tuple(&rr.0, &l.0) {
            let k = copy_tuple(&l.0);
            let mut v = copy_tuple(&l.1);
            let mut j: usize = 0;
            while j < rr.1.len()
                invariant
                    j <= rr.1.len(),
                    tuple_model(v@) == tuple_model(l.1@) + tuple_model(rr.1@.take(j as int)),
                decreases rr.1.len() - j,
            {
                let x = rr.1[j].duplicate();
                let ghost vb = v@;
                v.push(x);
                assert(tuple_model(v@) =~= tuple_model(vb).push(x@));
                assert(tuple_model(rr.1@.take(j + 1)) =~= tuple_model(rr.1@.take(j as int)).push(
                    x@,
                ));
                j = j + 1;
            }
            assert(rr.1@.take(rr.1.len() as int) == rr.1@);
            let w = l.2.multiply(&rr.2);
            r.push((k, v, w));
            assert(keyed_model(r@) =~= keyed_model(before).push(
                (lm.0, lm.1 + tuple_model(rr.1@), w),
            ));
        }
        i = i + 1;
    }
    assert(right@.take(right.len() as int) == right@);
    r
}

/// Inner equi-join of two keyed relations on their keys.
pub fn equi_join<W: Semiring>(left: &Vec<KeyedRow<W>>, right: &Vec<KeyedRow<W>>) -> (r: Vec<
    KeyedRow<W>,
>)
    ensures
        keyed_model(r@) == equi_join_spec(keyed_model(left@), keyed_model(right@)),
{
    let mut r: Vec<KeyedRow<W>> = Vec::new();
    let mut i: usize = 0;
    while i < left.len()
        invariant
            i <= left.len(),
            keyed_model(r@) == equi_join_spec(keyed_model(left@.take(i as int)), keyed_model(right@)),
        decreases left.len() - i,
    {
        let ghost before = r@;
        let mut m = matches(&left[i], right);
        let ghost mm = m@;
        r.append(&mut m);
        proof {
            assert(left@.take(i + 1) == left@.take(i as int).push(left@[i as int]));
            let lt = keyed_model(left@.take(i + 1));
            assert(lt.drop_last() =~= keyed_model(left@.take(i as int)));
            assert(lt.last() == keyed_model(seq![left@[i as int]])[0]);
            assert(keyed_model(r@) =~= keyed_model(before) + keyed_model(mm));
        }
        i = i + 1;
    }
    assert(left@.take(left.len() as int) == left@);
    r
}


/// The first position of tuple `k` in `acc`, if any.
fn find_tuple<W>(acc: &Vec<Row<W>>, k: &Vec<Value>) -> (r: Option<usize>)
    ensures
        match r {
            Some(p) => p as int == key_pos(rows_model(acc@), tuple_model(k@)),
            None => key_pos(rows_model(acc@), tuple_model(k@)) == -1,
        },
{
    let mut j: usize = 0;
    while j < acc.len()
        invariant
            j <= acc.len(),
            key_pos(rows_model(acc@).take(j as int), tuple_model(k@)) == -1,
        decreases acc.len() - j,
    {
        proof {
            assert(rows_model(acc@).take(j + 1).drop_last() =~= rows_model(acc@).take(j as int));
            lemma_rows_model_index(acc@, j as int);
        }
        let row = &acc[j];
        let found = same_tuple(&row.0, k);
        if found {
            proof {
                let pre = rows_model(acc@).take(j + 1);
                assert(rows_model(acc@)[j as int].0 == tuple_model(k@));
                assert(pre.last() == rows_model(acc@)[j as int]);
                assert(key_pos(pre, tuple_model(k@)) == j);
                lemma_key_pos_prefix(rows_model(acc@), tuple_model(k@), j as int);
            }
            return Some(j);
        }
        j = j + 1;
    }
    assert(rows_model(acc@).take(acc.len() as int) == rows_model(acc@));
    None
}

proof fn lemma_rows_model_index<W>(s: Seq<Row<W>>, i: int)
    requires
        0 <= i < s.len(),
    ensures
        rows_model(s).len() == s.len(),
        rows_model(s)[i] == (tuple_model(s[i].0@), s[i].1),
{
}

/// A position found in a prefix is the position in the whole sequence.
proof fn lemma_key_pos_prefix<W>(s: Seq<RowModel<W>>, k: Seq<ValueModel>, j: int)
    requires
        0 <= j < s.len(),
        key_pos(s.take(j + 1), k) == j,
    ensures
        key_pos(s, k) == j,
    decreases s.len(),
{
    if s.len() > j + 1 {
        assert(s.drop_last().take(j + 1) == s.take(j + 1));
        lemma_key_pos_prefix(s.drop_last(), k, j);
    } else {
        assert(s.take(j + 1) == s);
    }
}

/// A position lies within its sequence and holds the tuple.
pub proof fn lemma_key_pos_bounds<W>(s: Seq<RowModel<W>>, k: Seq<ValueModel>)
    ensures
        -1 <= key_pos(s, k) < s.len(),
        key_pos(s, k) >= 0 ==> s[key_pos(s, k)].0 == k,
    decreases s.len(),
{
    if s.len() > 0 {
        lemma_key_pos_bounds(s.drop_last(), k);
    }
}

/// Merges rows with equal tuples, combining their weights, and leaves out
/// the tuples whose weight comes to zero.
pub fn consolidate<W: Semiring>(rows: Vec<Row<W>>) -> (r: Vec<Row<W>>)
    ensures
        rows_model(r@) == consolidate_spec(rows_model(rows@)),
{
    let grouped = group(rows);
    let ghost gm = rows_model(grouped@);
    let ghost pred = |r: RowModel<W>| r.1 != W::zero_spec();
    let mut out: Vec<Row<W>> = Vec::new();
    let mut i: usize = 0;
    while i < grouped.len()
        invariant
            i <= grouped.len(),
            gm == rows_model(grouped@),
            pred == (|r: RowModel<W>| r.1 != W::zero_spec()),
            rows_model(out@) == gm.take(i as int).filter(pred),
        decreases grouped.len() - i,
    {
        let ghost before = rows_model(out@);
        proof {
            assert(gm.take(i + 1) =~= gm.take(i as int).push(gm[i as int]));
            gm.take(i as int).lemma_filter_push(gm[i as int], pred);
            lemma_rows_model_index(grouped@, i as int);
        }
        if !grouped[i].1.is_zero() {
            let c = copy_tuple(&grouped[i].0);
            out.push((c, grouped[i].1));
            assert(rows_model(out@) =~= before.push(gm[i as int]));
        }
        i = i + 1;
    }
    assert(gm.take(grouped.len() as int) == gm);
    out
}

/// Merges rows with equal tuples, combining their weights.
fn group<W: Semiring>(rows: Vec<Row<W>>) -> (r: Vec<Row<W>>)
    ensures
        rows_model(r@) == group_spec(rows_model(rows@)),
{
    let mut acc: Vec<Row<W>> = Vec::new();
    let mut i: usize = 0;
    while i < rows.len()
        invariant
            i <= rows.len(),
            rows_model(acc@) == group_spec(rows_model(rows@.take(i as int))),
        decreases rows.len() - i,
    {
        let ghost before = rows_model(acc@);
        proof {
            assert(rows@.take(i + 1) == rows@.take(i as int).push(rows@[i as int]));
            assert(rows_model(rows@.take(i + 1)).drop_last() =~= rows_model(rows@.take(i as int)));
        }
        let k = copy_tuple(&rows[i].0);
        let w: W = rows[i].1;
        match find_tuple(&acc, &k) {
            Some(p) => {
                proof {
                    lemma_key_pos_bounds(before, tuple_model(k@));
                }
                let old_w: W = acc[p].1;
                let nw = old_w.combine(&w);
                acc.set(p, (k, nw));
                assert(rows_model(acc@) =~= before.update(p as int, (tuple_model(k@), nw)));
            },
            None => {
                acc.push((k, w));
                assert(rows_model(acc@) =~= before.push((tuple_model(k@), w)));
            },
        }
        i = i + 1;
    }
    assert(rows@.take(rows.len() as int) == rows@);
    acc
}

/// The rows whose tuple is in canonical edge orientation.
pub fn keep_canonical<W: Semiring>(rows: Vec<Row<W>>, vars: &Vec<u32>) -> (r: Vec<Row<W>>)
    ensures
        rows_model(r@) == canonical_spec(rows_model(rows@), vars@),
{
    let ghost pred = |r: RowModel<W>| is_canonical(r.0, vars@);
    let mut out: Vec<Row<W>> = Vec::new();
    let mut i: usize = 0;
    while i < rows.len()
        invariant
            i <= rows.len(),
            pred == (|r: RowModel<W>| is_canonical(r.0, vars@)),
            rows_model(out@) == rows_model(rows@).take(i as int).filter(pred),
        decreases rows.len() - i,
    {
        let ghost before = rows_model(out@);
        let ghost rm = rows_model(rows@);
        proof {
            assert(rm.take(i + 1) =~= rm.take(i as int).push(rm[i as int]));
            rm.take(i as int).lemma_filter_push(rm[i as int], pred);
            lemma_rows_model_index(rows@, i as int);
        }
        let t = &rows[i].0;
        let keep = if t.len() == 2 && vars.len() == 2 {
            if vars[0] < vars[1] {
                t[0].less_than(&t[1])
            } else {
                t[1].less_than(&t[0])
            }
        } else {
            true
        };
        if keep {
            let c = copy_tuple(t);
            out.push((c, rows[i].1));
            assert(rows_model(out@) =~= before.push(rm[i as int]));
        }
        i = i + 1;
    }
    assert(rows_model(rows@).take(rows.len() as int) == rows_model(rows@));
    out
}


/// The weights of the rows with tuple `k`, combined in order starting from zero.
pub open spec fn sum_for<W: Semiring>(rows: Seq<RowModel<W>>, k: Seq<ValueModel>) -> W
    decreases rows.len(),
{
    if rows.len() == 0 {
        W::zero_spec()
    } else if rows.last().0 == k {
        W::combine_spec(sum_for(rows.drop_last(), k), rows.last().1)
    } else {
        sum_for(rows.drop_last(), k)
    }
}

/// Whether some row has tuple `k`.
pub open spec fn has_tuple<W>(rows: Seq<RowModel<W>>, k: Seq<ValueModel>) -> bool {
    exists|i: int| 0 <= i < rows.len() && (#[trigger] rows[i]).0 == k
}

proof fn lemma_sum_absent<W: Semiring>(rows: Seq<RowModel<W>>, k: Seq<ValueModel>)
    requires
        !has_tuple(rows, k),
    ensures
        sum_for(rows, k) == W::zero_spec(),
    decreases rows.len(),
{
    if rows.len() > 0 {
        let pre = rows.drop_last();
        if has_tuple(pre, k) {
            let i = choose|i: int| 0 <= i < pre.len() && (#[trigger] pre[i]).0 == k;
            assert(rows[i] == pre[i]);
        }
        assert(rows[rows.len() - 1].0 != k);
        lemma_sum_absent(pre, k);
    }
}

proof fn lemma_key_pos_absent<W>(s: Seq<RowModel<W>>, k: Seq<ValueModel>)
    requires
        key_pos(s, k) < 0,
    ensures
        !has_tuple(s, k),
    decreases s.len(),
{
    if s.len() > 0 {
        lemma_key_pos_absent(s.drop_last(), k);
        if has_tuple(s, k) {
            let i = choose|i: int| 0 <= i < s.len() && (#[trigger] s[i]).0 == k;
            if i < s.len() - 1 {
                assert(s.drop_last()[i] == s[i]);
            }
        }
    }
}

/// Grouping holds each tuple of its input once, no other tuple, and with
/// each tuple the combination of the weights it had in the input.
pub proof fn lemma_group<W: Semiring>(rows: Seq<RowModel<W>>)
    ensures
        forall|i: int, j: int|
            0 <= i < j < group_spec(rows).len() ==> (#[trigger] group_spec(rows)[i]).0 != (
            #[trigger] group_spec(rows)[j]).0,
        forall|k: Seq<ValueModel>| #[trigger] has_tuple(group_spec(rows), k) <==> has_tuple(rows, k),
        forall|i: int|
            0 <= i < group_spec(rows).len() ==> (#[trigger] group_spec(rows)[i]).1 == sum_for(
                rows,
                group_spec(rows)[i].0,
            ),
    decreases rows.len(),
{
    if rows.len() > 0 {
        let pre = rows.drop_last();
        let row = rows.last();
        let acc = group_spec(pre);
        let g = group_spec(rows);
        lemma_group(pre);
        lemma_key_pos_bounds(acc, row.0);
        let p = key_pos(acc, row.0);
        assert(rows =~= pre.push(row));
        assert forall|k: Seq<ValueModel>| #[trigger] has_tuple(rows, k) <==> (has_tuple(pre, k) || row.0 == k) by {
            if has_tuple(rows, k) {
                let i = choose|i: int| 0 <= i < rows.len() && (#[trigger] rows[i]).0 == k;
                if i < pre.len() {
                    assert(pre[i] == rows[i]);
                }
            }
            if has_tuple(pre, k) {
                let i = choose|i: int| 0 <= i < pre.len() && (#[trigger] pre[i]).0 == k;
                assert(rows[i] == pre[i]);
            }
            if row.0 == k {
                assert(rows[rows.len() - 1].0 == k);
            }
        }
        if p >= 0 {
            assert(g == acc.update(p, (row.0, W::combine_spec(acc[p].1, row.1))));
            assert forall|k: Seq<ValueModel>| #[trigger] has_tuple(g, k) <==> has_tuple(rows, k) by {
                if has_tuple(g, k) {
                    let i = choose|i: int| 0 <= i < g.len() && (#[trigger] g[i]).0 == k;
                    assert(acc[i].0 == k);
                }
                if has_tuple(acc, k) {
                    let i = choose|i: int| 0 <= i < acc.len() && (#[trigger] acc[i]).0 == k;
                    assert(g[i].0 == k);
                }
                if row.0 == k {
                    assert(g[p].0 == k);
                }
            }
        } else {
            lemma_key_pos_absent(acc, row.0);
            lemma_sum_absent(pre, row.0);
            W::lemma_zero_identity(row.1);
            assert(g == acc.push(row));
            assert forall|k: Seq<ValueModel>| #[trigger] has_tuple(g, k) <==> has_tuple(rows, k) by {
                if has_tuple(g, k) {
                    let i = choose|i: int| 0 <= i < g.len() && (#[trigger] g[i]).0 == k;
                    if i < acc.len() {
                        assert(acc[i].0 == k);
                    }
                }
                if has_tuple(acc, k) {
                    let i = choose|i: int| 0 <= i < acc.len() && (#[trigger] acc[i]).0 == k;
                    assert(g[i].0 == k);
                }
                if row.0 == k {
                    assert(g[acc.len() as int].0 == k);
                }
            }
            assert forall|i: int, j: int| 0 <= i < j < g.len() implies (#[trigger] g[i]).0 != (#[trigger] g[j]).0 by {
                if j == acc.len() {
                    assert(acc[i] == g[i]);
                }
            }
        }
        assert forall|i: int| 0 <= i < g.len() implies (#[trigger] g[i]).1 == sum_for(rows, g[i].0) by {
            if i < acc.len() && i != p {
                assert(g[i] == acc[i]);
                assert(acc[i].0 != row.0);
            }
        }
    }
}

pub proof fn lemma_filter_no_duplicates<A>(s: Seq<A>, pred: spec_fn(A) -> bool)
    requires
        s.no_duplicates(),
    ensures
        s.filter(pred).no_duplicates(),
    decreases s.len(),
{
    reveal(Seq::filter);
    if s.len() > 0 {
        let pre = s.drop_last();
        assert(pre.no_duplicates());
        lemma_filter_no_duplicates(pre, pred);
        let f = pre.filter(pred);
        if pred(s.last()) {
            if f.contains(s.last()) {
                pre.lemma_filter_contains_rev(pred, s.last());
                let i = choose|i: int| 0 <= i < pre.len() && pre[i] == s.last();
                assert(s[i] == s[s.len() - 1]);
            }
            assert forall|a: int, b: int|
                0 <= a < f.push(s.last()).len() && 0 <= b < f.push(s.last()).len() && a != b
                    implies f.push(s.last())[a] != f.push(s.last())[b] by {
                if a == f.len() {
                    assert(f.contains(f[b]));
                } else if b == f.len() {
                    assert(f.contains(f[a]));
                }
            }
        }
    }
}


/// Consolidation holds each tuple of its input once, unless its weights
/// combine to zero, no other tuple, and with each tuple the combination of
/// the weights it had in the input.
pub proof fn lemma_consolidate<W: Semiring>(rows: Seq<RowModel<W>>)
    ensures
        forall|i: int, j: int|
            0 <= i < j < consolidate_spec(rows).len() ==> (#[trigger] consolidate_spec(rows)[i]).0
                != (#[trigger] consolidate_spec(rows)[j]).0,
        forall|k: Seq<ValueModel>| #[trigger] has_tuple(consolidate_spec(rows), k) <==> (has_tuple(rows, k)
            && sum_for(rows, k) != W::zero_spec()),
        forall|i: int|
            0 <= i < consolidate_spec(rows).len() ==> (#[trigger] consolidate_spec(rows)[i]).1
                == sum_for(rows, consolidate_spec(rows)[i].0),
{
    lemma_group(rows);
    let g = group_spec(rows);
    let pred = |r: RowModel<W>| r.1 != W::zero_spec();
    let f = g.filter(pred);
    g.filter_lemma(pred);
    assert(g.no_duplicates());
    lemma_filter_no_duplicates(g, pred);
    assert forall|i: int| 0 <= i < f.len() implies exists|a: int| 0 <= a < g.len() && g[a] == #[trigger] f[i] by {
        g.lemma_filter_contains_rev(pred, f[i]);
    }
    assert forall|i: int, j: int| 0 <= i < j < f.len() implies (#[trigger] f[i]).0 != (#[trigger] f[j]).0 by {
        let a = choose|a: int| 0 <= a < g.len() && g[a] == f[i];
        let b = choose|b: int| 0 <= b < g.len() && g[b] == f[j];
        if a < b {
            assert(g[a].0 != g[b].0);
        } else if b < a {
            assert(g[b].0 != g[a].0);
        }
    }
    assert forall|i: int| 0 <= i < f.len() implies (#[trigger] f[i]).1 == sum_for(rows, f[i].0) by {
        let a = choose|a: int| 0 <= a < g.len() && g[a] == f[i];
    }
    assert forall|k: Seq<ValueModel>| #[trigger] has_tuple(f, k) <==> (has_tuple(rows, k) && sum_for(rows, k) != W::zero_spec()) by {
        if has_tuple(f, k) {
            let i = choose|i: int| 0 <= i < f.len() && (#[trigger] f[i]).0 == k;
            let a = choose|a: int| 0 <= a < g.len() && g[a] == f[i];
            assert(has_tuple(g, k));
        }
        if has_tuple(rows, k) && sum_for(rows, k) != W::zero_spec() {
            assert(has_tuple(g, k));
            let a = choose|a: int| 0 <= a < g.len() && (#[trigger] g[a]).0 == k;
            g.lemma_filter_contains(pred, a);
            let i = choose|i: int| 0 <= i < f.len() && f[i] == g[a];
        }
    }
}

/// The first position of `x` in `s`, or -1.
pub open spec fn index_of(s: Seq<u32>, x: u32) -> int
    decreases s.len(),
{
    if s.len() == 0 {
        -1
    } else {
        let p = index_of(s.drop_last(), x);
        if p >= 0 {
            p
        } else if s.last() == x {
            s.len() - 1
        } else {
            -1
        }
    }
}

pub proof fn lemma_index_of(s: Seq<u32>, x: u32)
    ensures
        -1 <= index_of(s, x) < s.len(),
        index_of(s, x) >= 0 ==> s[index_of(s, x)] == x,
        index_of(s, x) < 0 <==> !s.contains(x),
    decreases s.len(),
{
    if s.len() > 0 {
        lemma_index_of(s.drop_last(), x);
        if s.drop_last().contains(x) {
            let k = choose|k: int| 0 <= k < s.len() - 1 && s.drop_last()[k] == x;
            assert(s[k] == x);
        }
        if s.contains(x) {
            let k = choose|k: int| 0 <= k < s.len() && s[k] == x;
            if k < s.len() - 1 {
                assert(s.drop_last()[k] == x);
            }
        }
    }
}

/// The first position of `x` in `s`.
pub fn position(s: &Vec<u32>, x: u32) -> (r: Option<usize>)
    ensures
        match r {
            Some(p) => p as int == index_of(s@, x),
            None => index_of(s@, x) == -1,
        },
{
    let mut i: usize = 0;
    while i < s.len()
        invariant
            i <= s.len(),
            index_of(s@.take(i as int), x) == -1,
        decreases s.len() - i,
    {
        assert(s@.take(i + 1).drop_last() =~= s@.take(i as int));
        if s[i] == x {
            proof {
                lemma_index_of_prefix(s@, x, i as int);
            }
            return Some(i);
        }
        i = i + 1;
    }
    assert(s@.take(s.len() as int) == s@);
    None
}

proof fn lemma_index_of_prefix(s: Seq<u32>, x: u32, j: int)
    requires
        0 <= j < s.len(),
        index_of(s.take(j + 1), x) == j,
    ensures
        index_of(s, x) == j,
    decreases s.len(),
{
    if s.len() > j + 1 {
        assert(s.drop_last().take(j + 1) == s.take(j + 1));
        lemma_index_of_prefix(s.drop_last(), x, j);
    } else {
        assert(s.take(j + 1) == s);
    }
}


/// The entries of tuple `t` (over `vars`) at the variables `keys`, in that order.
pub fn key_part(t: &Vec<Value>, vars: &Vec<u32>, keys: &Vec<u32>) -> (r: Vec<Value>)
    requires
        t.len() == vars.len(),
    ensures
        tuple_model(r@) == key_spec(tuple_model(t@), vars@, keys@),
{
    let mut r: Vec<Value> = Vec::new();
    let mut i: usize = 0;
    while i < keys.len()
        invariant
            i <= keys.len(),
            t.len() == vars.len(),
            tuple_model(r@) == key_spec(tuple_model(t@), vars@, keys@.take(i as int)),
        decreases keys.len() - i,
    {
        let ghost before = tuple_model(r@);
        assert(keys@.take(i + 1).drop_last() =~= keys@.take(i as int));
        assert(keys@.take(i + 1).last() == keys@[i as int]);
        match position(vars, keys[i]) {
            Some(p) => {
                proof {
                    lemma_index_of(vars@, keys@[i as int]);
                }
                let v = t[p].duplicate();
                r.push(v);
                assert(tuple_model(r@) =~= before.push(v@));
            },
            None => {},
        }
        i = i + 1;
    }
    assert(keys@.take(keys.len() as int) == keys@);
    r
}

/// The tuple `src` (over the variables `from`) read at the variables `to`.
pub fn pick(src: &Vec<Value>, from: &Vec<u32>, to: &Vec<u32>) -> (r: Vec<Value>)
    requires
        src.len() == from.len(),
        forall|i: int| 0 <= i < to.len() ==> from@.contains(#[trigger] to@[i]),
    ensures
        tuple_model(r@) == pick_spec(tuple_model(src@), from@, to@),
{
    let mut r: Vec<Value> = Vec::new();
    let mut i: usize = 0;
    while i < to.len()
        invariant
            i <= to.len(),
            src.len() == from.len(),
            forall|i: int| 0 <= i < to.len() ==> from@.contains(#[trigger] to@[i]),
            r@.len() == i,
            forall|m: int| 0 <= m < i ==> #[trigger] r@[m]@ == tuple_model(src@)[index_of(from@, to@[m])],
        decreases to.len() - i,
    {
        proof {
            lemma_index_of(from@, to@[i as int]);
        }
        let p = match position(from, to[i]) {
            Some(p) => p,
            None => {
                assert(false);
                0
            },
        };
        let v = src[p].duplicate();
        r.push(v);
        i = i + 1;
    }
    assert(tuple_model(r@) =~= pick_spec(tuple_model(src@), from@, to@));
    r
}


/// A tuple over `vars` (which may repeat a variable) that gives every
/// occurrence of a variable the same value.
pub open spec fn consistent(t: Seq<ValueModel>, vars: Seq<u32>) -> bool {
    forall|i: int| 0 <= i < vars.len() ==> #[trigger] t[i] == t[index_of(vars, vars[i])]
}

/// The keyed rows whose values (over `vars`) are consistent.
pub fn keep_consistent<W: Semiring>(rows: Vec<KeyedRow<W>>, vars: &Vec<u32>) -> (r: Vec<KeyedRow<W>>)
    requires
        forall|i: int| 0 <= i < rows.len() ==> (#[trigger] rows@[i]).1.len() == vars.len(),
    ensures
        keyed_model(r@) == keyed_model(rows@).filter(|r: KeyedModel<W>| consistent(r.1, vars@)),
{
    let ghost pred = |r: KeyedModel<W>| consistent(r.1, vars@);
    let ghost km = keyed_model(rows@);
    let mut out: Vec<KeyedRow<W>> = Vec::new();
    let mut i: usize = 0;
    while i < rows.len()
        invariant
            i <= rows.len(),
            km == keyed_model(rows@),
            forall|i: int| 0 <= i < rows.len() ==> (#[trigger] rows@[i]).1.len() == vars.len(),
            pred == (|r: KeyedModel<W>| consistent(r.1, vars@)),
            keyed_model(out@) == km.take(i as int).filter(pred),
        decreases rows.len() - i,
    {
        let ghost before = keyed_model(out@);
        proof {
            assert(km.take(i + 1) =~= km.take(i as int).push(km[i as int]));
            km.take(i as int).lemma_filter_push(km[i as int], pred);
        }
        let row = &rows[i];
        let mut ok = true;
        let mut j: usize = 0;
        while j < vars.len()
            invariant
                j <= vars.len(),
                row.1.len() == vars.len(),
                ok == (forall|m: int| 0 <= m < j ==> #[trigger] tuple_model(row.1@)[m] == tuple_model(row.1@)[index_of(vars@, vars@[m])]),
            decreases vars.len() - j,
        {
            proof {
                lemma_index_of(vars@, vars@[j as int]);
            }
            let p = match position(vars, vars[j]) {
                Some(p) => p,
                None => {
                    assert(false);
                    0
                },
            };
            let here = row.1[j].same(&row.1[p]);
            let ghost tm = tuple_model(row.1@);
            assert(here == (tm[j as int] == tm[index_of(vars@, vars@[j as int])]));
            let ghost was = ok;
            ok = ok && here;
            proof {
                if !here {
                    assert(!(tm[j as int] == tm[index_of(vars@, vars@[j as int])]));
                }
                if was && here {
                    assert forall|m: int| 0 <= m < j + 1 implies #[trigger] tm[m] == tm[index_of(vars@, vars@[m])] by {
                        if m < j {
                        }
                    }
                }
            }
            j = j + 1;
        }
        assert(ok == pred(km[i as int]));
        if ok {
            let k = copy_tuple(&row.0);
            let v = copy_tuple(&row.1);
            out.push((k, v, row.2));
            assert(keyed_model(out@) =~= before.push(km[i as int]));
        }
        i = i + 1;
    }
    assert(km.take(rows.len() as int) == km);
    out
}

} // verus!
