use vstd::prelude::*;
use vstd::set_lib::*;
use crate::error::EcsError;
use crate::access::SystemAccess;

verus! {

/// Every edge `(after, before)` names two of the `n` registered systems.
pub open spec fn edges_valid(n: nat, edges: Seq<(usize, usize)>) -> bool {
    forall|k: int| 0 <= k < edges.len() ==> (#[trigger] edges[k]).0 < n && edges[k].1 < n
}

/// System `s` may run once every system it runs after is in `done`.
pub open spec fn ready(done: Seq<usize>, s: usize, edges: Seq<(usize, usize)>) -> bool {
    forall|k: int| 0 <= k < edges.len() && (#[trigger] edges[k]).0 == s ==> done.contains(edges[k].1)
}

/// `order` lists each of the `n` systems once, and every system comes after all the
/// systems it runs after.
pub open spec fn is_topo_order(order: Seq<usize>, n: nat, edges: Seq<(usize, usize)>) -> bool {
    &&& order.len() == n
    &&& order.no_duplicates()
    &&& forall|i: int| 0 <= i < order.len() ==> (#[trigger] order[i] as nat) < n
    &&& forall|i: int| 0 <= i < order.len() ==> ready(order.take(i), #[trigger] order[i], edges)
}

/// Ties are broken by declaration order: at each step, no system with a smaller label
/// that is not yet placed was ready.
pub open spec fn lowest_ready_first(order: Seq<usize>, edges: Seq<(usize, usize)>) -> bool {
    forall|m: int, s: usize|
        0 <= m < order.len() && s < #[trigger] order[m] && !order.take(m).contains(s)
            ==> !#[trigger] ready(order.take(m), s, edges)
}

/// Some order of the `n` systems respects every dependency edge.
pub open spec fn acyclic(n: nat, edges: Seq<(usize, usize)>) -> bool {
    exists|o: Seq<usize>| is_topo_order(o, n, edges)
}

proof fn lemma_distinct_bound(o: Seq<usize>, n: nat)
    requires
        n <= usize::MAX,
        o.no_duplicates(),
        forall|i: int| 0 <= i < o.len() ==> (#[trigger] o[i] as nat) < n,
    ensures
        o.len() <= n,
        o.len() == n ==> forall|s: usize| (s as nat) < n ==> o.contains(s),
        (forall|s: usize| (s as nat) < n ==> o.contains(s)) ==> o.len() == n,
{
    let oi = o.map_values(|x: usize| x as int);
    assert(oi.no_duplicates()) by {
        assert forall|a: int, b: int| 0 <= a < oi.len() && 0 <= b < oi.len() && a != b implies oi[a] != oi[b] by {
            assert(o[a] != o[b]);
        }
    }
    oi.unique_seq_to_set();
    let r = set_int_range(0, n as int);
    lemma_int_range(0, n as int);
    assert(oi.to_set().subset_of(r)) by {
        assert forall|x: int| oi.to_set().contains(x) implies r.contains(x) by {
            let i = choose|i: int| 0 <= i < oi.len() && oi[i] == x;
            assert(o[i] < n);
        }
    }
    lemma_len_subset(oi.to_set(), r);
    if o.len() == n {
        lemma_subset_equality(oi.to_set(), r);
        assert forall|s: usize| (s as nat) < n implies o.contains(s) by {
            assert(r.contains(s as int));
            assert(oi.to_set().contains(s as int));
            let i = choose|i: int| 0 <= i < oi.len() && oi[i] == s as int;
            assert(o[i] == s);
        }
    }
    if forall|s: usize| (s as nat) < n ==> o.contains(s) {
        assert(r.subset_of(oi.to_set())) by {
            assert forall|x: int| r.contains(x) implies oi.to_set().contains(x) by {
                assert(0 <= x < n);
                assert((x as usize) as int == x);
                assert(o.contains(x as usize));
                let i = choose|i: int| 0 <= i < o.len() && o[i] == x as usize;
                assert(oi[i] == x);
            }
        }
        lemma_len_subset(r, oi.to_set());
    }
}

proof fn lemma_first_missing(o: Seq<usize>, done: Seq<usize>, i: int) -> (i0: int)
    requires
        0 <= i < o.len(),
        !done.contains(o[i]),
    ensures
        0 <= i0 <= i,
        !done.contains(o[i0]),
        forall|j: int| 0 <= j < i0 ==> done.contains(#[trigger] o[j]),
    decreases i,
{
    if exists|j: int| 0 <= j < i && !done.contains(#[trigger] o[j]) {
        let j = choose|j: int| 0 <= j < i && !done.contains(#[trigger] o[j]);
        lemma_first_missing(o, done, j)
    } else {
        i
    }
}

/// When fewer than `n` systems are placed and none of the others is ready, no order
/// of the systems respects the edges.
proof fn lemma_stuck_is_cyclic(done: Seq<usize>, n: nat, edges: Seq<(usize, usize)>)
    requires
        done.len() < n,
        done.no_duplicates(),
        forall|i: int| 0 <= i < done.len() ==> (#[trigger] done[i] as nat) < n,
        forall|s: usize| (s as nat) < n && !done.contains(s) ==> !#[trigger] ready(done, s, edges),
        n <= usize::MAX,
    ensures
        !acyclic(n, edges),
{
    lemma_distinct_bound(done, n);
    let s = choose|s: usize| (s as nat) < n && !done.contains(s);
    if exists|o: Seq<usize>| is_topo_order(o, n, edges) {
        let o = choose|o: Seq<usize>| is_topo_order(o, n, edges);
        lemma_distinct_bound(o, n);
        assert(o.contains(s));
        let i = choose|i: int| 0 <= i < o.len() && o[i] == s;
        let i0 = lemma_first_missing(o, done, i);
        let x = o[i0];
        assert(!ready(done, x, edges));
        let k = choose|k: int| 0 <= k < edges.len() && (#[trigger] edges[k]).0 == x && !done.contains(edges[k].1);
        assert(ready(o.take(i0), o[i0], edges));
        assert(o.take(i0).contains(edges[k].1));
        let j = choose|j: int| 0 <= j < i0 && o.take(i0)[j] == edges[k].1;
        assert(o[j] == edges[k].1);
        assert(done.contains(o[j]));
    }
}

/// Orders systems `0..n` so that each runs after every system it depends on; edge
/// `(a, b)` says that `a` runs after `b`. Among the systems that may go next, the one
/// declared first goes. Fails with `CyclicDependency` exactly when no such order exists.
pub fn build_order(n: usize, edges: &Vec<(usize, usize)>) -> (r: Result<Vec<usize>, EcsError>)
    requires
        edges_valid(n as nat, edges@),
    ensures
        r is Ok <==> acyclic(n as nat, edges@),
        r matches Err(e) ==> e == EcsError::CyclicDependency,
        r matches Ok(order) ==> is_topo_order(order@, n as nat, edges@) && lowest_ready_first(order@, edges@),
{
    let mut order: Vec<usize> = Vec::new();
    let mut placed: Vec<bool> = Vec::new();
    let mut z: usize = 0;
    while z < n
        invariant
            z <= n,
            placed@.len() == z,
            forall|s: int| 0 <= s < z ==> !#[trigger] placed@[s],
        decreases n - z,
    {
        placed.push(false);
        z = z + 1;
    }
    while order.len() < n
        invariant
            placed@.len() == n,
            order@.len() <= n,
            order@.no_duplicates(),
            forall|i: int| 0 <= i < order@.len() ==> (#[trigger] order@[i] as nat) < n,
            forall|s: int| 0 <= s < n ==> (#[trigger] placed@[s] <==> order@.contains(s as usize)),
            forall|i: int| 0 <= i < order@.len() ==> ready(order@.take(i), #[trigger] order@[i], edges@),
            lowest_ready_first(order@, edges@),
            edges_valid(n as nat, edges@),
        decreases n - order@.len(),
    {
        let mut s: usize = 0;
        let mut found = false;
        while s < n && !found
            invariant
                s <= n,
                placed@.len() == n,
                edges_valid(n as nat, edges@),
                forall|s: int| 0 <= s < n ==> (#[trigger] placed@[s] <==> order@.contains(s as usize)),
                found ==> s < n && !placed@[s as int] && ready(order@, s, edges@),
                forall|x: usize| x < s && !found && !order@.contains(x) ==> !#[trigger] ready(order@, x, edges@),
                forall|x: usize| x < s && found && !order@.contains(x) ==> !#[trigger] ready(order@, x, edges@),
            decreases n - s + (if found { 0int } else { 1int }),
        {
            if !placed[s] {
                let mut k: usize = 0;
                let mut ok = true;
                while k < edges.len() && ok
                    invariant
                        k <= edges@.len(),
                        s < n,
                        placed@.len() == n,
                        edges_valid(n as nat, edges@),
                        forall|s: int| 0 <= s < n ==> (#[trigger] placed@[s] <==> order@.contains(s as usize)),
                        ok ==> forall|j: int| 0 <= j < k && (#[trigger] edges@[j]).0 == s ==> order@.contains(edges@[j].1),
                        !ok ==> !ready(order@, s, edges@),
                    decreases edges@.len() - k + (if ok { 1int } else { 0int }),
                {
                    let (a, b) = edges[k];
                    if a == s && !placed[b] {
                        ok = false;
                    } else {
                        k = k + 1;
                    }
                }
                if ok {
                    found = true;
                } else {
                    s = s + 1;
                }
            } else {
                s = s + 1;
            }
        }
        if !found {
            proof {
                assert forall|x: usize| (x as nat) < n && !order@.contains(x) implies !#[trigger] ready(order@, x, edges@) by {}
                lemma_stuck_is_cyclic(order@, n as nat, edges@);
            }
            return Err(EcsError::CyclicDependency);
        }
        let ghost before = order@;
        order.push(s);
        placed.set(s, true);
        proof {
            assert(order@.take(before.len() as int) =~= before);
            assert forall|i: int| 0 <= i < before.len() implies order@.take(i) == before.take(i) by {
                assert(order@.take(i) =~= before.take(i));
            }
            assert forall|x: int| 0 <= x < n implies (#[trigger] placed@[x] <==> order@.contains(x as usize)) by {
                if x == s {
                    assert(order@[before.len() as int] == s);
                } else if before.contains(x as usize) {
                    let i = choose|i: int| 0 <= i < before.len() && before[i] == x as usize;
                    assert(order@[i] == x as usize);
                } else if order@.contains(x as usize) {
                    let i = choose|i: int| 0 <= i < order@.len() && order@[i] == x as usize;
                    assert(i < before.len());
                }
            }
            assert forall|i: int| 0 <= i < order@.len() implies ready(order@.take(i), #[trigger] order@[i], edges@) by {
                if i < before.len() {
                    assert(order@[i] == before[i]);
                }
            }
            assert forall|m: int, x: usize|
                0 <= m < order@.len() && x < #[trigger] order@[m] && !order@.take(m).contains(x)
                implies !#[trigger] ready(order@.take(m), x, edges@) by {
                if m < before.len() {
                    assert(order@[m] == before[m]);
                }
            }
        }
    }
    proof {
        assert(is_topo_order(order@, n as nat, edges@));
    }
    Ok(order)
}

/// One unit of work in a tick: batch `batch` of the system at position `pos` of the
/// order.
#[derive(Debug, Clone, Copy, PartialEq, Eq, Structural)]
pub struct Step {
    pub pos: usize,
    pub batch: usize,
}

/// `a` comes before `b`: an earlier system, or an earlier batch of the same system.
pub open spec fn step_before(a: Step, b: Step) -> bool {
    a.pos < b.pos || (a.pos == b.pos && a.batch < b.batch)
}

/// The steps of one tick, where the system at position `p` of the order has
/// `batch_counts[p]` batches: every batch of every system once, system by system in
/// order, and within a system batch by batch. A system with no batch adds no step.
pub fn tick_steps(batch_counts: &Vec<usize>) -> (r: Vec<Step>)
    ensures
        forall|x: int, y: int| 0 <= x < y < r@.len() ==> step_before(#[trigger] r@[x], #[trigger] r@[y]),
        forall|x: int| 0 <= x < r@.len() ==> (#[trigger] r@[x]).pos < batch_counts@.len() && r@[x].batch < batch_counts@[r@[x].pos as int],
        forall|p: usize, b: usize| p < batch_counts@.len() && b < batch_counts@[p as int]
            ==> #[trigger] r@.contains(Step { pos: p, batch: b }),
{
    let mut r: Vec<Step> = Vec::new();
    let mut p: usize = 0;
    while p < batch_counts.len()
        invariant
            p <= batch_counts@.len(),
            forall|x: int, y: int| 0 <= x < y < r@.len() ==> step_before(#[trigger] r@[x], #[trigger] r@[y]),
            forall|x: int| 0 <= x < r@.len() ==> (#[trigger] r@[x]).pos < p && r@[x].batch < batch_counts@[r@[x].pos as int],
            forall|q: usize, b: usize| q < p && b < batch_counts@[q as int] ==> #[trigger] r@.contains(Step { pos: q, batch: b }),
        decreases batch_counts@.len() - p,
    {
        let mut b: usize = 0;
        while b < batch_counts[p]
            invariant
                p < batch_counts@.len(),
                b <= batch_counts@[p as int],
                forall|x: int, y: int| 0 <= x < y < r@.len() ==> step_before(#[trigger] r@[x], #[trigger] r@[y]),
                forall|x: int| 0 <= x < r@.len() ==> (#[trigger] r@[x]).pos <= p && r@[x].batch < batch_counts@[r@[x].pos as int],
                forall|x: int| 0 <= x < r@.len() && (#[trigger] r@[x]).pos == p ==> r@[x].batch < b,
                forall|q: usize, c: usize| q < p && c < batch_counts@[q as int] ==> #[trigger] r@.contains(Step { pos: q, batch: c }),
                forall|c: usize| c < b ==> #[trigger] r@.contains(Step { pos: p, batch: c }),
            decreases batch_counts@[p as int] - b,
        {
            let ghost before = r@;
            r.push(Step { pos: p, batch: b });
            proof {
                assert forall|q: usize, c: usize| q < p && c < batch_counts@[q as int] implies #[trigger] r@.contains(Step { pos: q, batch: c }) by {
                    assert(before.contains(Step { pos: q, batch: c }));
                    let x = choose|x: int| 0 <= x < before.len() && before[x] == Step { pos: q, batch: c };
                    assert(r@[x] == before[x]);
                }
                assert forall|c: usize| c < b + 1 implies #[trigger] r@.contains(Step { pos: p, batch: c }) by {
                    if c < b {
                        assert(before.contains(Step { pos: p, batch: c }));
                        let x = choose|x: int| 0 <= x < before.len() && before[x] == Step { pos: p, batch: c };
                        assert(r@[x] == before[x]);
                    } else {
                        assert(r@[before.len() as int] == Step { pos: p, batch: c });
                    }
                }
            }
            b = b + 1;
        }
        p = p + 1;
    }
    r
}

/// When system `a` runs after system `b`, every batch of `b` in a tick comes before
/// any batch of `a`.
pub proof fn law_dependency_runs_first(
    order: Seq<usize>,
    n: nat,
    edges: Seq<(usize, usize)>,
    k: int,
    steps: Seq<Step>,
    x: int,
    y: int,
)
    requires
        is_topo_order(order, n, edges),
        0 <= k < edges.len(),
        forall|i: int, j: int| 0 <= i < j < steps.len() ==> step_before(#[trigger] steps[i], #[trigger] steps[j]),
        forall|i: int| 0 <= i < steps.len() ==> (#[trigger] steps[i]).pos < order.len(),
        0 <= x < steps.len(),
        0 <= y < steps.len(),
        order[steps[x].pos as int] == edges[k].1,
        order[steps[y].pos as int] == edges[k].0,
    ensures
        x < y,
        steps[x].pos < steps[y].pos,
{
    let px = steps[x].pos as int;
    let py = steps[y].pos as int;
    assert(ready(order.take(py), order[py], edges));
    assert(edges[k].0 == order[py]);
    assert(order.take(py).contains(edges[k].1));
    let j = choose|j: int| 0 <= j < py && order.take(py)[j] == edges[k].1;
    assert(order[j] == order[px]);
    assert(j == px);
    if y < x {
        assert(step_before(steps[y], steps[x]));
    }
    if y == x {
        assert(px == py);
    }
}

/// `a` depends on `b` through a chain of at most `fuel` edges.
pub open spec fn reaches(edges: Seq<(usize, usize)>, a: usize, b: usize, fuel: nat) -> bool
    decreases fuel,
{
    if fuel == 0 {
        false
    } else {
        exists|k: int|
            0 <= k < edges.len() && (#[trigger] edges[k]).0 == a && (edges[k].1 == b || reaches(
                edges,
                edges[k].1,
                b,
                (fuel - 1) as nat,
            ))
    }
}

/// `a` runs after `b`, directly or through a chain of edges.
pub open spec fn depends(edges: Seq<(usize, usize)>, a: usize, b: usize) -> bool {
    exists|fuel: nat| reaches(edges, a, b, fuel)
}

/// Some edge out of `s` among the first `kk` reaches `q` in one step or through a
/// system whose row in `anc` marks `q`.
spec fn via(edges: Seq<(usize, usize)>, anc: Seq<Seq<bool>>, s: usize, q: usize, kk: int) -> bool {
    exists|k: int|
        0 <= k < kk && (#[trigger] edges[k]).0 == s && (edges[k].1 == q || anc[edges[k].1 as int][q as int])
}

proof fn lemma_depends_step(edges: Seq<(usize, usize)>, s: usize, q: usize)
    ensures
        depends(edges, s, q) <==> exists|k: int|
            0 <= k < edges.len() && (#[trigger] edges[k]).0 == s && (edges[k].1 == q || depends(edges, edges[k].1, q)),
{
    if depends(edges, s, q) {
        let f = choose|f: nat| reaches(edges, s, q, f);
        let k = choose|k: int|
            0 <= k < edges.len() && (#[trigger] edges[k]).0 == s && (edges[k].1 == q || reaches(edges, edges[k].1, q, (f - 1) as nat));
        if edges[k].1 != q {
            assert(reaches(edges, edges[k].1, q, (f - 1) as nat));
        }
    }
    if exists|k: int| 0 <= k < edges.len() && (#[trigger] edges[k]).0 == s && (edges[k].1 == q || depends(edges, edges[k].1, q)) {
        let k = choose|k: int| 0 <= k < edges.len() && (#[trigger] edges[k]).0 == s && (edges[k].1 == q || depends(edges, edges[k].1, q));
        if edges[k].1 == q {
            assert(reaches(edges, s, q, 1));
        } else {
            let f = choose|f: nat| reaches(edges, edges[k].1, q, f);
            assert(reaches(edges, s, q, f + 1));
        }
    }
}

/// Row `s` of the result marks each system that `s` depends on.
fn dependency_closure(n: usize, edges: &Vec<(usize, usize)>, order: &Vec<usize>) -> (r: Vec<Vec<bool>>)
    requires
        edges_valid(n as nat, edges@),
        is_topo_order(order@, n as nat, edges@),
    ensures
        r@.len() == n,
        forall|s: int| 0 <= s < n ==> (#[trigger] r@[s])@.len() == n,
        forall|s: usize, q: usize| s < n && q < n ==> (#[trigger] r@[s as int]@[q as int] <==> depends(edges@, s, q)),
{
    let mut anc: Vec<Vec<bool>> = Vec::new();
    let mut z: usize = 0;
    while z < n
        invariant
            z <= n,
            anc@.len() == z,
            forall|s: int| 0 <= s < z ==> (#[trigger] anc@[s])@.len() == n,
        decreases n - z,
    {
        anc.push(falses(n));
        z = z + 1;
    }
    let mut i: usize = 0;
    while i < n
        invariant
            i <= n,
            edges_valid(n as nat, edges@),
            is_topo_order(order@, n as nat, edges@),
            anc@.len() == n,
            forall|s: int| 0 <= s < n ==> (#[trigger] anc@[s])@.len() == n,
            forall|j: int, q: usize| 0 <= j < i && q < n ==> (#[trigger] anc@[order@[j] as int]@[q as int] <==> depends(edges@, order@[j], q)),
        decreases n - i,
    {
        let s = order[i];
        let ghost a = anc@.map_values(|r: Vec<bool>| r@);
        let mut row = falses(n);
        let mut k: usize = 0;
        while k < edges.len()
            invariant
                k <= edges@.len(),
                i < n,
                s == order@[i as int],
                edges_valid(n as nat, edges@),
                anc@.len() == n,
                a == anc@.map_values(|r: Vec<bool>| r@),
                forall|x: int| 0 <= x < n ==> (#[trigger] anc@[x])@.len() == n,
                row@.len() == n,
                forall|q: usize| q < n ==> (#[trigger] row@[q as int] <==> via(edges@, a, s, q, k as int)),
            decreases edges@.len() - k,
        {
            let (src, p) = edges[k];
            let ghost before = row@;
            if src == s {
                row.set(p, true);
                let mut q: usize = 0;
                while q < n
                    invariant
                        q <= n,
                        k < edges@.len(),
                        edges@[k as int] == (src, p),
                        (p as int) < n,
                        anc@.len() == n,
                        a == anc@.map_values(|r: Vec<bool>| r@),
                        forall|x: int| 0 <= x < n ==> (#[trigger] anc@[x])@.len() == n,
                        row@.len() == n,
                        before.len() == n,
                        forall|x: usize| x < n ==> (#[trigger] row@[x as int] <==> (before[x as int] || x == p || (x < q && a[p as int][x as int]))),
                    decreases n - q,
                {
                    if anc[p][q] {
                        row.set(q, true);
                    }
                    q = q + 1;
                }
            }
            proof {
                assert forall|q: usize| q < n implies (#[trigger] row@[q as int] <==> via(edges@, a, s, q, k + 1)) by {
                    if via(edges@, a, s, q, k + 1) && !via(edges@, a, s, q, k as int) {
                        let w = choose|w: int| 0 <= w < k + 1 && (#[trigger] edges@[w]).0 == s && (edges@[w].1 == q || a[edges@[w].1 as int][q as int]);
                        assert(w == k);
                    }
                    if row@[q as int] && !before[q as int] {
                        assert(edges@[k as int].0 == s);
                    }
                }
            }
            k = k + 1;
        }
        proof {
            assert forall|q: usize| q < n implies (#[trigger] row@[q as int] <==> depends(edges@, s, q)) by {
                lemma_depends_step(edges@, s, q);
                assert(ready(order@.take(i as int), order@[i as int], edges@));
                if via(edges@, a, s, q, edges@.len() as int) {
                    let w = choose|w: int| 0 <= w < edges@.len() && (#[trigger] edges@[w]).0 == s && (edges@[w].1 == q || a[edges@[w].1 as int][q as int]);
                    let p = edges@[w].1;
                    assert(order@.take(i as int).contains(p));
                    let j = choose|j: int| 0 <= j < i && order@.take(i as int)[j] == p;
                    assert(order@[j] == p);
                    assert(a[p as int] == anc@[order@[j] as int]@);
                }
                if depends(edges@, s, q) {
                    let w = choose|w: int| 0 <= w < edges@.len() && (#[trigger] edges@[w]).0 == s && (edges@[w].1 == q || depends(edges@, edges@[w].1, q));
                    let p = edges@[w].1;
                    assert(order@.take(i as int).contains(p));
                    let j = choose|j: int| 0 <= j < i && order@.take(i as int)[j] == p;
                    assert(order@[j] == p);
                    assert(a[p as int] == anc@[order@[j] as int]@);
                    assert(via(edges@, a, s, q, edges@.len() as int));
                }
            }
        }
        let ghost prev = anc@;
        anc.set(s, row);
        proof {
            assert forall|j: int, q: usize| 0 <= j < i + 1 && q < n implies (#[trigger] anc@[order@[j] as int]@[q as int] <==> depends(edges@, order@[j], q)) by {
                if j < i {
                    assert(order@[j] != order@[i as int]);
                    assert(anc@[order@[j] as int] == prev[order@[j] as int]);
                }
            }
        }
        i = i + 1;
    }
    proof {
        lemma_distinct_bound(order@, n as nat);
        assert forall|s: usize, q: usize| s < n && q < n implies (#[trigger] anc@[s as int]@[q as int] <==> depends(edges@, s, q)) by {
            assert(order@.contains(s));
            let j = choose|j: int| 0 <= j < order@.len() && order@[j] == s;
        }
    }
    anc
}

fn falses(n: usize) -> (r: Vec<bool>)
    ensures
        r@.len() == n,
        forall|q: int| 0 <= q < n ==> !#[trigger] r@[q],
{
    let mut r: Vec<bool> = Vec::new();
    let mut z: usize = 0;
    while z < n
        invariant
            z <= n,
            r@.len() == z,
            forall|q: int| 0 <= q < z ==> !#[trigger] r@[q],
        decreases n - z,
    {
        r.push(false);
        z = z + 1;
    }
    r
}

/// Two distinct systems, neither of which depends on the other, declare access that
/// could race.
pub open spec fn has_access_conflict(systems: Seq<SystemAccess>, edges: Seq<(usize, usize)>) -> bool {
    exists|a: usize, b: usize|
        a < systems.len() && b < systems.len() && a != b && !depends(edges, a, b) && !depends(edges, b, a)
            && #[trigger] systems[a as int].conflicts_with(#[trigger] &systems[b as int])
}

/// Builds the run order of the systems `0..systems.len()`, as `build_order` does, and
/// checks their declared access. Fails with `CyclicDependency` when the edges have no
/// order; otherwise with `AccessConflict` exactly when two systems that no chain of
/// edges orders could race on a component or a resource.
pub fn build_schedule(systems: &Vec<SystemAccess>, edges: &Vec<(usize, usize)>) -> (r: Result<Vec<usize>, EcsError>)
    requires
        edges_valid(systems@.len(), edges@),
    ensures
        !acyclic(systems@.len(), edges@) ==> r == Err::<Vec<usize>, EcsError>(EcsError::CyclicDependency),
        acyclic(systems@.len(), edges@) && has_access_conflict(systems@, edges@) ==> r == Err::<Vec<usize>, EcsError>(
            EcsError::AccessConflict,
        ),
        r is Ok <==> acyclic(systems@.len(), edges@) && !has_access_conflict(systems@, edges@),
        r matches Ok(order) ==> is_topo_order(order@, systems@.len(), edges@) && lowest_ready_first(order@, edges@),
{
    let n = systems.len();
    let order = match build_order(n, edges) {
        Ok(o) => o,
        Err(e) => return Err(e),
    };
    proof {
        assert(is_topo_order(order@, n as nat, edges@));
        assert(acyclic(n as nat, edges@));
    }
    let anc = dependency_closure(n, edges, &order);
    let mut a: usize = 0;
    while a < n
        invariant
            a <= n,
            n == systems@.len(),
            acyclic(n as nat, edges@),
            is_topo_order(order@, n as nat, edges@) && lowest_ready_first(order@, edges@),
            anc@.len() == n,
            forall|s: int| 0 <= s < n ==> (#[trigger] anc@[s])@.len() == n,
            forall|s: usize, q: usize| s < n && q < n ==> (#[trigger] anc@[s as int]@[q as int] <==> depends(edges@, s, q)),
            forall|x: usize, y: usize| x < a && y < n && x != y && !depends(edges@, x, y) && !depends(edges@, y, x)
                ==> !(#[trigger] systems@[x as int].conflicts_with(#[trigger] &systems@[y as int])),
        decreases n - a,
    {
        let mut b: usize = 0;
        while b < n
            invariant
                a < n,
                b <= n,
                n == systems@.len(),
                acyclic(n as nat, edges@),
                anc@.len() == n,
                forall|s: int| 0 <= s < n ==> (#[trigger] anc@[s])@.len() == n,
                forall|s: usize, q: usize| s < n && q < n ==> (#[trigger] anc@[s as int]@[q as int] <==> depends(edges@, s, q)),
                forall|x: usize, y: usize| x < a && y < n && x != y && !depends(edges@, x, y) && !depends(edges@, y, x)
                    ==> !(#[trigger] systems@[x as int].conflicts_with(#[trigger] &systems@[y as int])),
                forall|y: usize| y < b && a != y && !depends(edges@, a, y) && !depends(edges@, y, a)
                    ==> !(#[trigger] systems@[a as int].conflicts_with(&systems@[y as int])),
            decreases n - b,
        {
            if a != b && !anc[a][b] && !anc[b][a] && systems[a].conflicts(&systems[b]) {
                proof {
                    assert(anc@[a as int]@[b as int] == depends(edges@, a, b));
                    assert(anc@[b as int]@[a as int] == depends(edges@, b, a));
                }
                return Err(EcsError::AccessConflict);
            }
            proof {
                assert(anc@[a as int]@[b as int] == depends(edges@, a, b));
                assert(anc@[b as int]@[a as int] == depends(edges@, b, a));
            }
            b = b + 1;
        }
        a = a + 1;
    }
    Ok(order)
}

} // verus!
