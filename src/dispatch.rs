use vstd::prelude::*;
use crate::error::EcsError;
use crate::store::ComponentStore;

verus! {

/// A contiguous run of positions `start..end` of a matched row list, handed to one worker.
#[derive(Debug, Clone, Copy, PartialEq, Eq, Structural)]
pub struct Batch {
    pub start: usize,
    pub end: usize,
}

/// `plan` splits `0..n` into consecutive, non-empty batches that follow each other
/// without gap or overlap.
pub open spec fn covers(plan: Seq<Batch>, n: nat) -> bool {
    &&& plan.len() == 0 <==> n == 0
    &&& plan.len() > 0 ==> plan[0].start == 0 && plan.last().end == n
    &&& forall|i: int| 0 <= i < plan.len() ==> (#[trigger] plan[i]).start < plan[i].end
    &&& forall|i: int| 0 <= i < plan.len() - 1 ==> (#[trigger] plan[i]).end == plan[i + 1].start
}

/// Every batch holds `b` rows, but the last, which holds between one and `b`.
pub open spec fn sized(plan: Seq<Batch>, b: nat) -> bool {
    &&& forall|i: int| 0 <= i < plan.len() ==> (#[trigger] plan[i]).end - plan[i].start <= b
    &&& forall|i: int| 0 <= i < plan.len() - 1 ==> (#[trigger] plan[i]).end - plan[i].start == b
}

/// Splits `n` matched rows into consecutive batches of `batch_size` rows, the last one
/// possibly shorter. No rows give no batch; a batch size of at least `n` gives one.
/// Fails with `InvalidBatchSize` exactly when `batch_size` is zero.
pub fn plan_batches(n: usize, batch_size: usize) -> (r: Result<Vec<Batch>, EcsError>)
    ensures
        r is Err <==> batch_size == 0,
        r matches Err(e) ==> e == EcsError::InvalidBatchSize,
        r matches Ok(plan) ==> covers(plan@, n as nat) && sized(plan@, batch_size as nat),
{
    if batch_size == 0 {
        return Err(EcsError::InvalidBatchSize);
    }
    let mut plan: Vec<Batch> = Vec::new();
    let mut start: usize = 0;
    while start < n
        invariant
            start <= n,
            batch_size > 0,
            plan@.len() == 0 <==> start == 0,
            plan@.len() > 0 ==> plan@[0].start == 0 && plan@.last().end == start,
            forall|i: int| 0 <= i < plan@.len() ==> (#[trigger] plan@[i]).start < plan@[i].end,
            forall|i: int| 0 <= i < plan@.len() - 1 ==> (#[trigger] plan@[i]).end == plan@[i + 1].start,
            forall|i: int| 0 <= i < plan@.len() ==> (#[trigger] plan@[i]).end - plan@[i].start <= batch_size,
            forall|i: int| 0 <= i < plan@.len() ==> (#[trigger] plan@[i]).end <= start,
            forall|i: int| 0 <= i < plan@.len() ==> (#[trigger] plan@[i]).end - plan@[i].start == batch_size
                || plan@[i].end == n,
        decreases n - start,
    {
        let end = if n - start > batch_size { start + batch_size } else { n };
        plan.push(Batch { start, end });
        start = end;
    }
    proof {
        assert forall|i: int| 0 <= i < plan@.len() - 1 implies (#[trigger] plan@[i]).end - plan@[i].start == batch_size by {
            assert(plan@[i].end == plan@[i + 1].start);
            assert(plan@[i + 1].end <= n);
        }
    }
    Ok(plan)
}

/// Runs the per-row update `f` over the rows `rows` of column `t`, batch by batch, with
/// batches planned by `plan_batches`. Each listed row gets `f` of its old value, once;
/// every other row and every other column stays as it was. No rows means no call of
/// `f`. Fails with `InvalidBatchSize`, and changes nothing, exactly when `batch_size`
/// is zero.
/// Applies `f` to the rows `rows[start..end]` of column `t`: one batch of work.
fn run_batch<V: Copy, F: Fn(V) -> V>(
    store: &mut ComponentStore<V>,
    t: usize,
    rows: &Vec<usize>,
    start: usize,
    end: usize,
    f: &F,
)
    requires
        old(store).wf(),
        (t as nat) < old(store).num_types(),
        start <= end <= rows@.len(),
        rows@.no_duplicates(),
        forall|k: int| 0 <= k < rows@.len() ==> (#[trigger] rows@[k] as int) < old(store).columns()[t as int].len(),
        forall|v: V| f.requires((v,)),
    ensures
        final(store).wf(),
        final(store).columns() == old(store).columns(),
        final(store).values().len() == old(store).values().len(),
        forall|u: int| 0 <= u < old(store).num_types() && u != t ==> #[trigger] final(store).values()[u] == old(store).values()[u],
        final(store).values()[t as int].len() == old(store).values()[t as int].len(),
        forall|j: int| start <= j < end ==> f.ensures(
            (old(store).values()[t as int][#[trigger] rows@[j] as int],),
            final(store).values()[t as int][rows@[j] as int],
        ),
        forall|i: int| 0 <= i < old(store).values()[t as int].len() && !rows@.subrange(start as int, end as int).contains(i as usize)
            ==> #[trigger] final(store).values()[t as int][i] == old(store).values()[t as int][i],
{
    proof { store.lemma_shape(); }
    let ghost old_vals = store.values();
    let ghost old_cols = store.columns();
    let mut k: usize = start;
    while k < end
        invariant
            start <= k <= end,
            end <= rows@.len(),
            store.wf(),
            (t as nat) < store.num_types(),
            rows@.no_duplicates(),
            forall|v: V| f.requires((v,)),
            store.columns() == old_cols,
            old_vals.len() == old_cols.len(),
            store.values().len() == old_vals.len(),
            forall|k: int| 0 <= k < rows@.len() ==> (#[trigger] rows@[k] as int) < old_cols[t as int].len(),
            forall|u: int| 0 <= u < old_vals.len() && u != t ==> #[trigger] store.values()[u] == old_vals[u],
            store.values()[t as int].len() == old_vals[t as int].len(),
            forall|j: int| start <= j < k ==> f.ensures((old_vals[t as int][#[trigger] rows@[j] as int],), store.values()[t as int][rows@[j] as int]),
            forall|i: int| 0 <= i < old_vals[t as int].len() && !rows@.subrange(start as int, k as int).contains(i as usize)
                ==> #[trigger] store.values()[t as int][i] == old_vals[t as int][i],
        decreases end - k,
    {
        let row = rows[k];
        proof {
            store.lemma_shape();
            assert(!rows@.subrange(start as int, k as int).contains(row)) by {
                if rows@.subrange(start as int, k as int).contains(row) {
                    let j = choose|j: int| 0 <= j < k - start && rows@.subrange(start as int, k as int)[j] == row;
                    assert(rows@[j + start] == rows@[k as int]);
                }
            }
        }
        let v = *store.value(t, row);
        let nv = f(v);
        let ghost before = store.values();
        store.set_value(t, row, nv);
        proof {
            assert(v == old_vals[t as int][row as int]);
            assert(store.values()[t as int] == before[t as int].update(row as int, nv));
            assert forall|j: int| start <= j < k + 1 implies f.ensures((old_vals[t as int][#[trigger] rows@[j] as int],), store.values()[t as int][rows@[j] as int]) by {
                if j < k {
                    assert(rows@[j] != row);
                    assert(store.values()[t as int][rows@[j] as int] == before[t as int][rows@[j] as int]);
                }
            }
            assert forall|i: int| 0 <= i < old_vals[t as int].len() && !rows@.subrange(start as int, k + 1).contains(i as usize)
                implies #[trigger] store.values()[t as int][i] == old_vals[t as int][i] by {
                assert(rows@.subrange(start as int, k + 1)[k - start] == row);
                if rows@.subrange(start as int, k as int).contains(i as usize) {
                    let j = choose|j: int| 0 <= j < k - start && rows@.subrange(start as int, k as int)[j] == i as usize;
                    assert(rows@.subrange(start as int, k + 1)[j] == i as usize);
                }
                assert(i != row as int);
            }
        }
        k = k + 1;
    }
}

/// Runs the per-row update `f` over the rows `rows` of column `t`, batch by batch, with
/// batches planned by `plan_batches`. Each listed row gets `f` of its old value, once;
/// every other row and every other column stays as it was. No rows means no call of
/// `f`. Fails with `InvalidBatchSize`, and changes nothing, exactly when `batch_size`
/// is zero.
pub fn dispatch<V: Copy, F: Fn(V) -> V>(
    store: &mut ComponentStore<V>,
    t: usize,
    rows: &Vec<usize>,
    batch_size: usize,
    f: &F,
) -> (r: Result<(), EcsError>)
    requires
        old(store).wf(),
        (t as nat) < old(store).num_types(),
        rows@.no_duplicates(),
        forall|k: int| 0 <= k < rows@.len() ==> (#[trigger] rows@[k] as int) < old(store).columns()[t as int].len(),
        forall|v: V| f.requires((v,)),
    ensures
        final(store).wf(),
        r is Err <==> batch_size == 0,
        r matches Err(e) ==> e == EcsError::InvalidBatchSize,
        r is Err ==> *final(store) == *old(store),
        rows@.len() == 0 ==> *final(store) == *old(store),
        final(store).columns() == old(store).columns(),
        final(store).values().len() == old(store).values().len(),
        forall|u: int| 0 <= u < old(store).num_types() && u != t ==> #[trigger] final(store).values()[u] == old(store).values()[u],
        final(store).values()[t as int].len() == old(store).values()[t as int].len(),
        r is Ok ==> forall|k: int| 0 <= k < rows@.len() ==> f.ensures(
            (old(store).values()[t as int][#[trigger] rows@[k] as int],),
            final(store).values()[t as int][rows@[k] as int],
        ),
        forall|i: int| 0 <= i < old(store).values()[t as int].len() && !rows@.contains(i as usize)
            ==> #[trigger] final(store).values()[t as int][i] == old(store).values()[t as int][i],
{
    proof { store.lemma_shape(); }
    let plan = match plan_batches(rows.len(), batch_size) {
        Ok(p) => p,
        Err(e) => return Err(e),
    };
    let ghost old_vals = store.values();
    let ghost old_cols = store.columns();
    let mut bi: usize = 0;
    let mut k: usize = 0;
    while bi < plan.len()
        invariant
            covers(plan@, rows@.len() as nat),
            bi <= plan@.len(),
            bi == 0 ==> *store == *old(store),
            bi < plan@.len() ==> k == plan@[bi as int].start,
            bi == plan@.len() ==> k == rows@.len(),
            k <= rows@.len(),
            old_vals[t as int].len() == old_cols[t as int].len(),
            store.wf(),
            (t as nat) < store.num_types(),
            rows@.no_duplicates(),
            forall|v: V| f.requires((v,)),
            store.columns() == old_cols,
            old_vals.len() == old_cols.len(),
            store.values().len() == old_vals.len(),
            forall|k: int| 0 <= k < rows@.len() ==> (#[trigger] rows@[k] as int) < old_cols[t as int].len(),
            forall|u: int| 0 <= u < old_vals.len() && u != t ==> #[trigger] store.values()[u] == old_vals[u],
            store.values()[t as int].len() == old_vals[t as int].len(),
            forall|j: int| 0 <= j < k ==> f.ensures((old_vals[t as int][#[trigger] rows@[j] as int],), store.values()[t as int][rows@[j] as int]),
            forall|i: int| 0 <= i < old_vals[t as int].len() && !rows@.take(k as int).contains(i as usize)
                ==> #[trigger] store.values()[t as int][i] == old_vals[t as int][i],
        decreases plan@.len() - bi,
    {
        let b = plan[bi];
        proof {
            if bi + 1 < plan@.len() {
                assert(plan@[bi as int].end == plan@[bi + 1].start);
            }
            assert(plan@[bi as int].end <= rows@.len()) by {
                if bi + 1 < plan@.len() {
                    assert(plan@[bi + 1].start < plan@[bi + 1].end);
                }
                lemma_ends_bounded(plan@, rows@.len() as nat, bi as int);
            }
        }
        let ghost mid = store.values();
        run_batch(store, t, rows, k, b.end, f);
        proof {
            let e = b.end as int;
            assert forall|j: int| 0 <= j < e implies f.ensures((old_vals[t as int][#[trigger] rows@[j] as int],), store.values()[t as int][rows@[j] as int]) by {
                if j < k {
                    assert(!rows@.subrange(k as int, e).contains(rows@[j])) by {
                        if rows@.subrange(k as int, e).contains(rows@[j]) {
                            let x = choose|x: int| 0 <= x < e - k && rows@.subrange(k as int, e)[x] == rows@[j];
                            assert(rows@[x + k] == rows@[j]);
                        }
                    }
                    assert((rows@[j] as int) < old_vals[t as int].len());
                    assert(store.values()[t as int][rows@[j] as int] == mid[t as int][rows@[j] as int]);
                } else {
                    assert(!rows@.take(k as int).contains(rows@[j])) by {
                        if rows@.take(k as int).contains(rows@[j]) {
                            let x = choose|x: int| 0 <= x < k && rows@.take(k as int)[x] == rows@[j];
                            assert(rows@[x] == rows@[j]);
                        }
                    }
                    assert((rows@[j] as int) < old_vals[t as int].len());
                    assert(mid[t as int][rows@[j] as int] == old_vals[t as int][rows@[j] as int]);
                }
            }
            assert forall|i: int| 0 <= i < old_vals[t as int].len() && !rows@.take(e).contains(i as usize)
                implies #[trigger] store.values()[t as int][i] == old_vals[t as int][i] by {
                if rows@.take(k as int).contains(i as usize) {
                    let x = choose|x: int| 0 <= x < k && rows@.take(k as int)[x] == i as usize;
                    assert(rows@.take(e)[x] == i as usize);
                }
                if rows@.subrange(k as int, e).contains(i as usize) {
                    let x = choose|x: int| 0 <= x < e - k && rows@.subrange(k as int, e)[x] == i as usize;
                    assert(rows@.take(e)[x + k] == i as usize);
                }
            }
        }
        k = b.end;
        bi = bi + 1;
    }
    proof {
        assert(rows@.take(rows@.len() as int) =~= rows@);
    }
    Ok(())
}

proof fn lemma_ends_bounded(plan: Seq<Batch>, n: nat, i: int)
    requires
        covers(plan, n),
        0 <= i < plan.len(),
    ensures
        plan[i].end <= n,
    decreases plan.len() - i,
{
    if i + 1 < plan.len() {
        lemma_ends_bounded(plan, n, i + 1);
        assert(plan[i].end == plan[i + 1].start);
    }
}

/// The column after `f` is applied to rows `start..end`.
pub open spec fn apply_range<V>(col: Seq<V>, start: int, end: int, f: spec_fn(V) -> V) -> Seq<V> {
    Seq::new(col.len(), |i: int| if start <= i < end { f(col[i]) } else { col[i] })
}

/// The column after each batch of `plan`, one after another, applies `f` to its rows.
pub open spec fn apply_batches<V>(col: Seq<V>, plan: Seq<Batch>, f: spec_fn(V) -> V) -> Seq<V>
    decreases plan.len(),
{
    if plan.len() == 0 {
        col
    } else {
        let b = plan.last();
        apply_range(apply_batches(col, plan.drop_last(), f), b.start as int, b.end as int, f)
    }
}

proof fn lemma_apply_prefix<V>(col: Seq<V>, plan: Seq<Batch>, f: spec_fn(V) -> V, k: int)
    requires
        0 < k <= plan.len(),
        plan[0].start == 0,
        forall|i: int| 0 <= i < plan.len() ==> (#[trigger] plan[i]).start < plan[i].end,
        forall|i: int| 0 <= i < plan.len() - 1 ==> (#[trigger] plan[i]).end == plan[i + 1].start,
    ensures
        apply_batches(col, plan.take(k), f) == apply_range(col, 0, plan[k - 1].end as int, f),
    decreases k,
{
    let p = plan.take(k);
    assert(p.drop_last() =~= plan.take(k - 1));
    if k == 1 {
        assert(apply_batches(col, plan.take(0), f) == col);
        assert(apply_batches(col, p, f) =~= apply_range(col, 0, plan[0].end as int, f));
    } else {
        lemma_apply_prefix(col, plan, f, k - 1);
        assert(plan[k - 2].end == plan[k - 1].start);
        assert(apply_batches(col, p, f) =~= apply_range(col, 0, plan[k - 1].end as int, f));
    }
}

/// Running a per-row update batch by batch gives the same column as applying it to
/// every row, whatever the batches are, as long as they cover the rows once.
pub proof fn law_batching_is_transparent<V>(col: Seq<V>, plan: Seq<Batch>, f: spec_fn(V) -> V)
    requires
        covers(plan, col.len()),
    ensures
        apply_batches(col, plan, f) == col.map_values(f),
{
    if plan.len() == 0 {
        assert(col.map_values(f) =~= col);
    } else {
        lemma_apply_prefix(col, plan, f, plan.len() as int);
        assert(plan.take(plan.len() as int) =~= plan);
        assert(apply_range(col, 0, col.len() as int, f) =~= col.map_values(f));
    }
}

/// Two batch plans over the same rows give the same column, so the batch size and the
/// number of workers cannot change the outcome of a per-row update.
pub proof fn law_batch_size_invariant<V>(col: Seq<V>, p1: Seq<Batch>, p2: Seq<Batch>, f: spec_fn(V) -> V)
    requires
        covers(p1, col.len()),
        covers(p2, col.len()),
    ensures
        apply_batches(col, p1, f) == apply_batches(col, p2, f),
{
    law_batching_is_transparent(col, p1, f);
    law_batching_is_transparent(col, p2, f);
}

} // verus!
