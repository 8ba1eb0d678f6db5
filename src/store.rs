use vstd::prelude::*;
use crate::error::EcsError;
use std::collections::HashMap;

verus! {

broadcast use vstd::std_specs::hash::group_hash_axioms;

/// `m` gives the row of each entity of `col`, and nothing else.
pub open spec fn index_ok(m: Map<u64, usize>, col: Seq<u64>) -> bool {
    &&& forall|e: u64| #[trigger] m.contains_key(e) ==> (m[e] as int) < col.len() && col[m[e] as int] == e
    &&& forall|i: int| 0 <= i < col.len() ==> #[trigger] m.contains_key(col[i]) && m[col[i]] == i
}

/// True when every component type listed in `types` is registered among `n` types.
pub open spec fn all_registered(n: nat, types: Seq<usize>) -> bool {
    forall|j: int| 0 <= j < types.len() ==> (#[trigger] types[j] as nat) < n
}

/// True when entity `e` has a row in every column named by `types`.
pub open spec fn has_all(cols: Seq<Seq<u64>>, e: u64, types: Seq<usize>) -> bool {
    forall|j: int| 0 <= j < types.len() ==> cols[#[trigger] types[j] as int].contains(e)
}

/// The entities that hold every component type of `types`, in the insertion order
/// of the first named column. An empty access set matches nothing.
pub open spec fn matching(cols: Seq<Seq<u64>>, types: Seq<usize>) -> Seq<u64> {
    if types.len() == 0 {
        Seq::empty()
    } else {
        cols[types[0] as int].filter(|e: u64| has_all(cols, e, types))
    }
}

/// The component types named by an insertion.
pub open spec fn types_of<V>(comps: Seq<(usize, V)>) -> Seq<usize> {
    comps.map_values(|p: (usize, V)| p.0)
}

/// The entity columns after `e` gets a new row in each column of `types`.
pub open spec fn inserted(cols: Seq<Seq<u64>>, e: u64, types: Seq<usize>) -> Seq<Seq<u64>> {
    Seq::new(
        cols.len(),
        |t: int| if types.contains(t as usize) { cols[t].push(e) } else { cols[t] },
    )
}

/// One column without the row of `e`.
pub open spec fn without(col: Seq<u64>, e: u64) -> Seq<u64> {
    if col.contains(e) {
        col.remove(col.index_of(e))
    } else {
        col
    }
}

/// The entity columns after every row of `e` is retracted.
pub open spec fn removed(cols: Seq<Seq<u64>>, e: u64) -> Seq<Seq<u64>> {
    Seq::new(cols.len(), |t: int| without(cols[t], e))
}

proof fn lemma_filter_no_duplicates(s: Seq<u64>, pred: spec_fn(u64) -> bool)
    requires
        s.no_duplicates(),
    ensures
        s.filter(pred).no_duplicates(),
    decreases s.len(),
{
    reveal(Seq::filter);
    if s.len() > 0 {
        let rest = s.drop_last();
        assert(rest.no_duplicates());
        lemma_filter_no_duplicates(rest, pred);
        if pred(s.last()) {
            let f = rest.filter(pred);
            if f.contains(s.last()) {
                rest.lemma_filter_contains_rev(pred, s.last());
                let i = choose|i: int| 0 <= i < rest.len() && rest[i] == s.last();
                assert(s[i] == s[s.len() - 1]);
            }
            let g = f.push(s.last());
            assert forall|a: int, b: int| 0 <= a < g.len() && 0 <= b < g.len() && a != b implies g[a] != g[b] by {
                if a == g.len() - 1 {
                    assert(f.contains(g[b]) ==> false || g[b] != s.last());
                } else if b == g.len() - 1 {
                    assert(f[a] == g[a]);
                }
            }
        }
    }
}

/// Columnar storage: one column per registered component type. Column `t` lists the
/// entities that have a `t` in insertion order, and beside it their values, row by row;
/// a hash index per column finds an entity's row without a scan.
pub struct ComponentStore<V> {
    ents: Vec<Vec<u64>>,
    vals: Vec<Vec<V>>,
    index: Vec<HashMap<u64, usize>>,
}

impl<V> ComponentStore<V> {
    /// The entity list of each column.
    pub closed spec fn columns(&self) -> Seq<Seq<u64>> {
        self.ents@.map_values(|c: Vec<u64>| c@)
    }

    /// The value list of each column, aligned row by row with `columns`.
    pub closed spec fn values(&self) -> Seq<Seq<V>> {
        self.vals@.map_values(|c: Vec<V>| c@)
    }

    /// Every column has one value per row, lists each entity at most once, and has an
    /// index that gives each entity's row.
    pub closed spec fn wf(&self) -> bool {
        &&& self.ents.len() == self.vals.len()
        &&& self.index.len() == self.ents.len()
        &&& forall|t: int|
            0 <= t < self.ents.len() ==> {
                &&& (#[trigger] self.ents@[t])@.len() == self.vals@[t]@.len()
                &&& self.ents@[t]@.no_duplicates()
                &&& index_ok(self.index@[t]@, self.ents@[t]@)
            }
    }

    /// The number of registered component types.
    pub open spec fn num_types(&self) -> nat {
        self.columns().len()
    }

    /// Whether entity `e` has a row in column `t`.
    pub open spec fn has(&self, e: u64, t: int) -> bool {
        self.columns()[t].contains(e)
    }

    /// A well-formed store has one value column per entity column, each as long as its
    /// entity column, and no column lists an entity twice.
    pub proof fn lemma_shape(&self)
        requires
            self.wf(),
        ensures
            self.values().len() == self.num_types(),
            forall|t: int| 0 <= t < self.num_types() ==> (#[trigger] self.values()[t]).len() == self.columns()[t].len(),
            forall|t: int| 0 <= t < self.num_types() ==> (#[trigger] self.columns()[t]).no_duplicates(),
    {
        self.lemma_views();
    }

    proof fn lemma_views(&self)
        ensures
            self.columns().len() == self.ents.len(),
            self.values().len() == self.vals.len(),
            forall|t: int| 0 <= t < self.ents.len() ==> #[trigger] self.columns()[t] == self.ents@[t]@,
            forall|t: int| 0 <= t < self.vals.len() ==> #[trigger] self.values()[t] == self.vals@[t]@,
    {
    }

    /// An empty store with no component type registered.
    pub fn new() -> (r: Self)
        ensures
            r.wf(),
            r.num_types() == 0,
    {
        let r = ComponentStore { ents: Vec::new(), vals: Vec::new(), index: Vec::new() };
        proof { r.lemma_views(); }
        r
    }

    /// Registers a new component type and returns its tag; its column starts empty.
    pub fn register_component(&mut self) -> (t: usize)
        requires
            old(self).wf(),
        ensures
            final(self).wf(),
            t as nat == old(self).num_types(),
            final(self).columns() == old(self).columns().push(Seq::<u64>::empty()),
            final(self).values() == old(self).values().push(Seq::<V>::empty()),
    {
        proof { self.lemma_views(); }
        let t = self.ents.len();
        self.ents.push(Vec::new());
        self.vals.push(Vec::new());
        let m: HashMap<u64, usize> = HashMap::new();
        proof {
            assert(index_ok(m@, Seq::<u64>::empty()));
        }
        self.index.push(m);
        proof {
            self.lemma_views();
            assert(self.columns() =~= old(self).columns().push(Seq::<u64>::empty()));
            assert(self.values() =~= old(self).values().push(Seq::<V>::empty()));
        }
        t
    }

    /// The number of registered component types.
    pub fn num_component_types(&self) -> (n: usize)
        ensures
            n as nat == self.num_types(),
    {
        proof { self.lemma_views(); }
        self.ents.len()
    }

    /// Whether `entity` has a row in column `t`.
    pub fn contains(&self, entity: u64, t: usize) -> (r: bool)
        requires
            self.wf(),
            (t as nat) < self.num_types(),
        ensures
            r == self.has(entity, t as int),
    {
        self.row_of(entity, t).is_some()
    }
    /// Adds one row per supplied `(component type, value)` pair for `entity`.
    /// Fails with `UnknownComponentType` when a supplied type is not registered, and
    /// otherwise with `DuplicateComponent` when a type is supplied twice or the entity
    /// already has a row of a supplied type. On failure the store is unchanged.
    pub fn insert(&mut self, entity: u64, comps: Vec<(usize, V)>) -> (r: Result<(), EcsError>)
        requires
            old(self).wf(),
        ensures
            final(self).wf(),
            !all_registered(old(self).num_types(), types_of(comps@)) ==> r == Err::<(), EcsError>(
                EcsError::UnknownComponentType,
            ),
            all_registered(old(self).num_types(), types_of(comps@)) && (!types_of(
                comps@,
            ).no_duplicates() || exists|k: int|
                0 <= k < comps@.len() && old(self).has(entity, #[trigger] comps@[k].0 as int))
                ==> r == Err::<(), EcsError>(EcsError::DuplicateComponent),
            r is Ok <==> all_registered(old(self).num_types(), types_of(comps@)) && types_of(comps@).no_duplicates()
                && forall|k: int| 0 <= k < comps@.len() ==> !old(self).has(entity, #[trigger] comps@[k].0 as int),
            r is Err ==> *final(self) == *old(self),
            r is Ok ==> {
                &&& final(self).columns() == inserted(old(self).columns(), entity, types_of(comps@))
                &&& forall|k: int|
                    0 <= k < comps@.len() ==> final(self).values()[#[trigger] comps@[k].0 as int]
                        == old(self).values()[comps@[k].0 as int].push(comps@[k].1)
                &&& forall|t: int|
                    0 <= t < old(self).num_types() && !types_of(comps@).contains(t as usize)
                        ==> #[trigger] final(self).values()[t] == old(self).values()[t]
            },
    {
        proof { self.lemma_views(); }
        let n = self.ents.len();
        let ghost orig = comps@;
        let mut k: usize = 0;
        while k < comps.len()
            invariant
                k <= comps@.len(),
                comps@ == orig,
                n == self.ents.len(),
                forall|j: int| 0 <= j < k ==> (#[trigger] orig[j].0) < n,
                *self == *old(self),
                self.wf(),
            decreases comps@.len() - k,
        {
            if comps[k].0 >= n {
                proof {
                    assert(types_of(orig)[k as int] == orig[k as int].0);
                }
                return Err(EcsError::UnknownComponentType);
            }
            k = k + 1;
        }
        proof {
            assert forall|j: int| 0 <= j < types_of(orig).len() implies (#[trigger] types_of(orig)[j] as nat)
                < self.num_types() by {
                assert(orig[j].0 < n);
            }
        }
        k = 0;
        while k < comps.len()
            invariant
                k <= comps@.len(),
                comps@ == orig,
                n == self.ents.len(),
                self.wf(),
                *self == *old(self),
                all_registered(old(self).num_types(), types_of(orig)),
                forall|j: int| 0 <= j < orig.len() ==> (#[trigger] orig[j].0) < n,
                forall|a: int, b: int| 0 <= a < b < k ==> orig[a].0 != orig[b].0,
                forall|j: int| 0 <= j < k ==> !self.has(entity, #[trigger] orig[j].0 as int),
            decreases comps@.len() - k,
        {
            let t = comps[k].0;
            let mut j: usize = 0;
            while j < k
                invariant
                    j <= k < comps@.len(),
                    comps@ == orig,
                    t == orig[k as int].0,
                    forall|a: int| 0 <= a < j ==> orig[a].0 != t,
                    *self == *old(self),
                    self.wf(),
                    all_registered(old(self).num_types(), types_of(orig)),
                decreases k - j,
            {
                if comps[j].0 == t {
                    proof {
                        assert(types_of(orig)[j as int] == types_of(orig)[k as int]);
                    }
                    return Err(EcsError::DuplicateComponent);
                }
                j = j + 1;
            }
            if self.contains(entity, t) {
                return Err(EcsError::DuplicateComponent);
            }
            k = k + 1;
        }
        proof {
            assert forall|a: int, b: int| 0 <= a < types_of(orig).len() && 0 <= b < types_of(orig).len()
                && a != b implies types_of(orig)[a] != types_of(orig)[b] by {
                if a < b {
                    assert(orig[a].0 != orig[b].0);
                } else {
                    assert(orig[b].0 != orig[a].0);
                }
            }
            assert(!(exists|k: int| 0 <= k < orig.len() && old(self).has(entity, #[trigger] orig[k].0 as int)));
        }
        let ghost old_cols = self.columns();
        let ghost old_vals = self.values();
        let mut comps = comps;
        while comps.len() > 0
            invariant
                comps@ == orig.subrange(0, comps@.len() as int),
                comps@.len() <= orig.len(),
                n == self.ents.len(),
                self.wf(),
                old_cols.len() == n,
                old_vals.len() == n,
                forall|j: int| 0 <= j < orig.len() ==> (#[trigger] orig[j].0) < n,
                forall|a: int, b: int| 0 <= a < b < orig.len() ==> orig[a].0 != orig[b].0,
                forall|j: int| 0 <= j < orig.len() ==> !old_cols[#[trigger] orig[j].0 as int].contains(entity),
                forall|j: int| comps@.len() <= j < orig.len() ==> {
                    &&& self.columns()[#[trigger] orig[j].0 as int] == old_cols[orig[j].0 as int].push(entity)
                    &&& self.values()[orig[j].0 as int] == old_vals[orig[j].0 as int].push(orig[j].1)
                },
                forall|t: int| 0 <= t < n && (forall|j: int| comps@.len() <= j < orig.len() ==> (#[trigger] orig[j].0) as int != t)
                    ==> #[trigger] self.columns()[t] == old_cols[t],
                forall|t: int| 0 <= t < n && (forall|j: int| comps@.len() <= j < orig.len() ==> (#[trigger] orig[j].0) as int != t)
                    ==> #[trigger] self.values()[t] == old_vals[t],
            decreases comps@.len(),
        {
            let ghost m = comps@.len() as int - 1;
            let (t, v) = comps.pop().unwrap();
            proof {
                self.lemma_views();
                assert(orig[m].0 == t);
                assert forall|j: int| m < j < orig.len() implies (#[trigger] orig[j].0) as int != t as int by {
                    assert(orig[m].0 != orig[j].0);
                }
                assert(comps@ =~= orig.subrange(0, m));
                assert(self.columns()[t as int] == old_cols[t as int]);
                assert(self.values()[t as int] == old_vals[t as int]);
            }
            let ghost before_cols = self.columns();
            let ghost before_vals = self.values();
            let row = self.ents[t].len();
            let ghost before_idx = self.index@;
            proof {
                assert(index_ok(before_idx[t as int]@, before_cols[t as int]));
            }
            self.index[t].insert(entity, row);
            proof {
                assert(self.index@ == before_idx.update(t as int, self.index@[t as int]));
                assert(self.index@[t as int]@ == before_idx[t as int]@.insert(entity, row));
            }
            self.ents[t].push(entity);
            self.vals[t].push(v);
            proof {
                self.lemma_views();
                assert forall|j: int| 0 <= j < orig.len() && j != m implies (#[trigger] orig[j].0) != t by {
                    if j < m { assert(orig[j].0 != orig[m].0); } else { assert(orig[m].0 != orig[j].0); }
                }
                assert(self.columns() =~= before_cols.update(t as int, before_cols[t as int].push(entity)));
                assert(self.values() =~= before_vals.update(t as int, before_vals[t as int].push(v)));
                let ne = self.ents@[t as int]@;
                assert(ne == old_cols[t as int].push(entity));
                let nm = self.index@[t as int]@;
                let om = before_idx[t as int]@;
                let oc = before_cols[t as int];
                assert(nm == om.insert(entity, row));
                assert(!oc.contains(entity)) by {
                    assert(!old_cols[orig[m].0 as int].contains(entity));
                }
                assert forall|i: int| 0 <= i < ne.len() implies #[trigger] nm.contains_key(ne[i]) && nm[ne[i]] == i by {
                    if i < ne.len() - 1 {
                        assert(ne[i] == oc[i]);
                        assert(ne[i] != entity);
                        assert(om.contains_key(oc[i]) && om[oc[i]] == i);
                    } else {
                        assert(ne[i] == entity);
                    }
                }
                assert(index_ok(nm, ne));
                assert forall|a: int, b: int| 0 <= a < ne.len() && 0 <= b < ne.len() && a != b
                    implies ne[a] != ne[b] by {
                    if a == ne.len() - 1 || b == ne.len() - 1 {
                        assert(!old_cols[orig[m].0 as int].contains(entity));
                    }
                }
            }
        }
        proof {
            self.lemma_views();
            assert forall|t: int| 0 <= t < n implies #[trigger] self.columns()[t] == inserted(old_cols, entity, types_of(orig))[t] by {
                if types_of(orig).contains(t as usize) {
                    let j = choose|j: int| 0 <= j < types_of(orig).len() && types_of(orig)[j] == t as usize;
                    assert(orig[j].0 as int == t);
                } else {
                    assert forall|j: int| 0 <= j < orig.len() implies (#[trigger] orig[j].0) as int != t by {
                        assert(types_of(orig)[j] == orig[j].0);
                    }
                }
            }
            assert(self.columns() =~= inserted(old_cols, entity, types_of(orig)));
            assert forall|t: int| 0 <= t < n && !types_of(orig).contains(t as usize)
                implies #[trigger] self.values()[t] == old_vals[t] by {
                assert forall|j: int| 0 <= j < orig.len() implies (#[trigger] orig[j].0) as int != t by {
                    assert(types_of(orig)[j] == orig[j].0);
                }
            }
        }
        Ok(())
    }
    /// The row of `entity` in column `t`, if it has one.
    pub fn row_of(&self, entity: u64, t: usize) -> (r: Option<usize>)
        requires
            self.wf(),
            (t as nat) < self.num_types(),
        ensures
            r is None <==> !self.has(entity, t as int),
            r matches Some(i) ==> i < self.columns()[t as int].len() && self.columns()[t as int][i as int] == entity
                && i as int == self.columns()[t as int].index_of(entity),
    {
        proof { self.lemma_views(); }
        match self.index[t].get(&entity) {
            Some(i) => {
                proof {
                    let col = self.ents@[t as int]@;
                    assert(col.no_duplicates());
                    let c = col.index_of(entity);
                    assert(col[*i as int] == entity);
                    assert(col[c] == entity);
                }
                Some(*i)
            },
            None => {
                proof {
                    let col = self.ents@[t as int]@;
                    if col.contains(entity) {
                        let k = choose|k: int| 0 <= k < col.len() && col[k] == entity;
                        assert(self.index@[t as int]@.contains_key(col[k]));
                    }
                }
                None
            },
        }
    }

    /// Retracts every row of `entity`; an entity without rows leaves the store unchanged.
    /// The remaining rows of each column keep their order.
    pub fn remove(&mut self, entity: u64)
        requires
            old(self).wf(),
        ensures
            final(self).wf(),
            final(self).columns() == removed(old(self).columns(), entity),
            forall|t: int|
                0 <= t < old(self).num_types() ==> #[trigger] final(self).values()[t] == if old(self).has(entity, t) {
                    old(self).values()[t].remove(old(self).columns()[t].index_of(entity))
                } else {
                    old(self).values()[t]
                },
    {
        proof { self.lemma_views(); }
        let ghost old_cols = self.columns();
        let ghost old_vals = self.values();
        let n = self.ents.len();
        let mut t: usize = 0;
        while t < n
            invariant
                t <= n,
                n == self.ents.len(),
                self.wf(),
                old_cols.len() == n,
                old_vals.len() == n,
                forall|u: int| 0 <= u < n ==> old_cols[u].len() == old_vals[u].len() && (#[trigger] old_cols[u]).no_duplicates(),
                forall|u: int| 0 <= u < t ==> #[trigger] self.columns()[u] == without(old_cols[u], entity),
                forall|u: int| t <= u < n ==> #[trigger] self.columns()[u] == old_cols[u],
                forall|u: int| 0 <= u < t ==> #[trigger] self.values()[u] == if old_cols[u].contains(entity) {
                    old_vals[u].remove(old_cols[u].index_of(entity))
                } else {
                    old_vals[u]
                },
                forall|u: int| t <= u < n ==> #[trigger] self.values()[u] == old_vals[u],
            decreases n - t,
        {
            proof {
                self.lemma_views();
                assert(self.columns()[t as int] == old_cols[t as int]);
                assert(self.values()[t as int] == old_vals[t as int]);
            }
            let found = self.row_of(entity, t);
            match found {
                Some(i) => {
                    let ghost before_cols = self.columns();
                    let ghost before_vals = self.values();
                    let ghost om = self.index@[t as int]@;
                    proof {
                        assert(index_ok(om, old_cols[t as int]));
                    }
                    self.ents[t].remove(i);
                    self.vals[t].remove(i);
                    self.index[t].remove(&entity);
                    proof {
                        self.lemma_views();
                        assert(self.columns() =~= before_cols.update(t as int, before_cols[t as int].remove(i as int)));
                        assert(self.values() =~= before_vals.update(t as int, before_vals[t as int].remove(i as int)));
                        let oc = old_cols[t as int];
                        let nc = self.columns()[t as int];
                        assert(nc =~= oc.subrange(0, i as int) + oc.subrange(i as int + 1, oc.len() as int));
                        assert forall|a: int, b: int| 0 <= a < nc.len() && 0 <= b < nc.len() && a != b
                            implies nc[a] != nc[b] by {
                            let a2 = if a < i { a } else { a + 1 };
                            let b2 = if b < i { b } else { b + 1 };
                            assert(nc[a] == oc[a2]);
                            assert(nc[b] == oc[b2]);
                        }
                        let m = self.index@[t as int]@;
                        assert(m == om.remove(entity));
                        assert forall|k: u64| #[trigger] m.contains_key(k) implies nc.contains(k) by {
                            let x = om[k] as int;
                            assert(oc[x] == k);
                            assert(x != i);
                            if x < i {
                                assert(nc[x] == k);
                            } else {
                                assert(nc[x - 1] == k);
                            }
                        }
                        assert forall|x: int| 0 <= x < nc.len() implies #[trigger] m.contains_key(nc[x]) && m[nc[x]] == (if x < i { x } else { x + 1 }) by {
                            if x < i {
                                assert(nc[x] == oc[x]);
                                assert(om.contains_key(oc[x]) && om[oc[x]] == x);
                            } else {
                                assert(nc[x] == oc[x + 1]);
                                assert(om.contains_key(oc[x + 1]) && om[oc[x + 1]] == x + 1);
                            }
                        }
                    }
                    let ghost ents_snap = self.ents@;
                    let ghost idx_snap = self.index@;
                    let ghost vals_snap = self.vals@;
                    let len = self.ents[t].len();
                    let mut j: usize = i;
                    while j < len
                        invariant
                            i <= j <= len,
                            t < n,
                            n == self.ents.len(),
                            self.index.len() == n,
                            self.ents@ == ents_snap,
                            self.vals@ == vals_snap,
                            len == ents_snap[t as int]@.len(),
                            forall|u: int| 0 <= u < n && u != t ==> #[trigger] self.index@[u] == idx_snap[u],
                            forall|k: u64| #[trigger] self.index@[t as int]@.contains_key(k) ==> ents_snap[t as int]@.contains(k),
                            forall|x: int| 0 <= x < len ==> #[trigger] self.index@[t as int]@.contains_key(ents_snap[t as int]@[x])
                                && self.index@[t as int]@[ents_snap[t as int]@[x]] == (if x < j { x } else { x + 1 }),
                            ents_snap[t as int]@.no_duplicates(),
                        decreases len - j,
                    {
                        let k = self.ents[t][j];
                        let ghost before_m = self.index@[t as int]@;
                        let ghost before_idx = self.index@;
                        self.index[t].insert(k, j);
                        proof {
                            assert(self.index@ == before_idx.update(t as int, self.index@[t as int]));
                            assert(self.index@[t as int]@ == before_m.insert(k, j));
                            let c = ents_snap[t as int]@;
                            assert(k == c[j as int]);
                            assert forall|u: int| 0 <= u < n && u != t implies #[trigger] self.index@[u] == idx_snap[u] by {
                                assert(self.index@[u] == before_idx[u]);
                            }
                        }
                        j = j + 1;
                        proof {
                            let c = ents_snap[t as int]@;
                            assert forall|x: int| 0 <= x < len implies #[trigger] self.index@[t as int]@.contains_key(ents_snap[t as int]@[x])
                                && self.index@[t as int]@[ents_snap[t as int]@[x]] == (if x < j { x } else { x + 1 }) by {
                                if x != j - 1 {
                                    assert(c[x] != c[j - 1]);
                                    assert(before_m.contains_key(c[x]));
                                } else {
                                    assert(self.index@[t as int]@[k] == j - 1);
                                }
                            }
                        }
                    }
                    proof {
                        let c = ents_snap[t as int]@;
                        let m = self.index@[t as int]@;
                        assert forall|e: u64| #[trigger] m.contains_key(e) implies (m[e] as int) < c.len() && c[m[e] as int] == e by {
                            let x = choose|x: int| 0 <= x < c.len() && c[x] == e;
                            assert(m.contains_key(c[x]));
                        }
                        assert(index_ok(m, c));
                        self.lemma_views();
                        assert forall|u: int| 0 <= u < self.ents.len() implies {
                            &&& (#[trigger] self.ents@[u])@.len() == self.vals@[u]@.len()
                            &&& self.ents@[u]@.no_duplicates()
                            &&& index_ok(self.index@[u]@, self.ents@[u]@)
                        } by {
                            if u != t {
                                assert(self.index@[u] == idx_snap[u]);
                            }
                        }
                        assert(self.wf());
                    }
                },
                None => {},
            }
            t = t + 1;
        }
        proof {
            self.lemma_views();
            assert(self.columns() =~= removed(old_cols, entity));
        }
    }
    /// Whether `entity` has a row in every column named by `types`.
    pub fn has_all_of(&self, entity: u64, types: &Vec<usize>) -> (r: bool)
        requires
            self.wf(),
            all_registered(self.num_types(), types@),
        ensures
            r == has_all(self.columns(), entity, types@),
    {
        let mut j: usize = 0;
        while j < types.len()
            invariant
                j <= types@.len(),
                self.wf(),
                all_registered(self.num_types(), types@),
                forall|a: int| 0 <= a < j ==> self.columns()[#[trigger] types@[a] as int].contains(entity),
            decreases types@.len() - j,
        {
            if !self.contains(entity, types[j]) {
                return false;
            }
            j = j + 1;
        }
        true
    }

    /// Checks that every type in `types` is registered.
    pub fn check_registered(&self, types: &Vec<usize>) -> (r: bool)
        ensures
            r == all_registered(self.num_types(), types@),
    {
        proof { self.lemma_views(); }
        let n = self.ents.len();
        let mut j: usize = 0;
        while j < types.len()
            invariant
                j <= types@.len(),
                n as nat == self.num_types(),
                forall|a: int| 0 <= a < j ==> (#[trigger] types@[a] as nat) < n,
            decreases types@.len() - j,
        {
            if types[j] >= n {
                return false;
            }
            j = j + 1;
        }
        true
    }

    /// The entities that hold every component type of `types`, in the insertion order of
    /// the first named column. Fails with `UnknownComponentType` exactly when a named type
    /// is not registered.
    pub fn entities_matching(&self, types: &Vec<usize>) -> (r: Result<Vec<u64>, EcsError>)
        requires
            self.wf(),
        ensures
            r is Err <==> !all_registered(self.num_types(), types@),
            r matches Err(e) ==> e == EcsError::UnknownComponentType,
            r matches Ok(v) ==> v@ == matching(self.columns(), types@),
    {
        if !self.check_registered(types) {
            return Err(EcsError::UnknownComponentType);
        }
        let mut out: Vec<u64> = Vec::new();
        if types.len() == 0 {
            return Ok(out);
        }
        proof { self.lemma_views(); }
        let first = &self.ents[types[0]];
        let ghost pred = |e: u64| has_all(self.columns(), e, types@);
        let mut i: usize = 0;
        while i < first.len()
            invariant
                i <= first@.len(),
                self.wf(),
                all_registered(self.num_types(), types@),
                types@.len() > 0,
                first@ == self.columns()[types@[0] as int],
                pred == (|e: u64| has_all(self.columns(), e, types@)),
                out@ == first@.take(i as int).filter(pred),
            decreases first@.len() - i,
        {
            let e = first[i];
            proof {
                assert(first@.take(i as int + 1) =~= first@.take(i as int).push(e));
                first@.take(i as int).lemma_filter_push(e, pred);
            }
            if self.has_all_of(e, types) {
                out.push(e);
            }
            i = i + 1;
        }
        proof {
            assert(first@.take(first@.len() as int) =~= first@);
        }
        Ok(out)
    }
    /// Resolves an access set into aligned row lists: list `j` gives, for each matched
    /// entity in `entities_matching` order, its row in column `types[j]`, so that
    /// position `k` of every list refers to the same entity.
    pub fn query_rows(&self, types: &Vec<usize>) -> (r: Result<Vec<Vec<usize>>, EcsError>)
        requires
            self.wf(),
        ensures
            r is Err <==> !all_registered(self.num_types(), types@),
            r matches Err(e) ==> e == EcsError::UnknownComponentType,
            r matches Ok(rows) ==> {
                &&& rows@.len() == types@.len()
                &&& forall|j: int| 0 <= j < types@.len() ==> {
                    &&& (#[trigger] rows@[j])@.len() == matching(self.columns(), types@).len()
                    &&& rows@[j]@.no_duplicates()
                    &&& forall|k: int| 0 <= k < rows@[j]@.len() ==> {
                        &&& (#[trigger] rows@[j]@[k] as int) < self.columns()[types@[j] as int].len()
                        &&& self.columns()[types@[j] as int][rows@[j]@[k] as int] == matching(self.columns(), types@)[k]
                    }
                }
            },
    {
        let matched = match self.entities_matching(types) {
            Ok(m) => m,
            Err(e) => return Err(e),
        };
        let ghost m = matching(self.columns(), types@);
        proof {
            self.lemma_views();
            if types@.len() > 0 {
                let pred = |e: u64| has_all(self.columns(), e, types@);
                lemma_filter_no_duplicates(self.columns()[types@[0] as int], pred);
                assert forall|k: int| 0 <= k < m.len() implies has_all(self.columns(), #[trigger] m[k], types@) by {
                    self.columns()[types@[0] as int].lemma_filter_pred(pred, k);
                }
            }
        }
        let mut rows: Vec<Vec<usize>> = Vec::new();
        let mut j: usize = 0;
        while j < types.len()
            invariant
                j <= types@.len(),
                self.wf(),
                all_registered(self.num_types(), types@),
                matched@ == m,
                forall|k: int| 0 <= k < m.len() ==> has_all(self.columns(), #[trigger] m[k], types@),
                rows@.len() == j,
                m.no_duplicates(),
                forall|a: int| 0 <= a < j ==> {
                    &&& (#[trigger] rows@[a])@.len() == m.len()
                    &&& rows@[a]@.no_duplicates()
                    &&& forall|k: int| 0 <= k < rows@[a]@.len() ==> {
                        &&& (#[trigger] rows@[a]@[k] as int) < self.columns()[types@[a] as int].len()
                        &&& self.columns()[types@[a] as int][rows@[a]@[k] as int] == m[k]
                    }
                },
            decreases types@.len() - j,
        {
            let t = types[j];
            proof { assert((types@[j as int] as nat) < self.num_types()); }
            let mut col_rows: Vec<usize> = Vec::new();
            let mut k: usize = 0;
            while k < matched.len()
                invariant
                    k <= m.len(),
                    j < types@.len(),
                    t == types@[j as int],
                    (t as nat) < self.num_types(),
                    self.wf(),
                    matched@ == m,
                    forall|k: int| 0 <= k < m.len() ==> has_all(self.columns(), #[trigger] m[k], types@),
                    col_rows@.len() == k,
                    forall|b: int| 0 <= b < k ==> {
                        &&& (#[trigger] col_rows@[b] as int) < self.columns()[t as int].len()
                        &&& self.columns()[t as int][col_rows@[b] as int] == m[b]
                    },
                decreases m.len() - k,
            {
                proof {
                    assert(has_all(self.columns(), m[k as int], types@));
                    assert(self.columns()[types@[j as int] as int].contains(m[k as int]));
                }
                match self.row_of(matched[k], t) {
                    Some(i) => col_rows.push(i),
                    None => {},
                }
                k = k + 1;
            }
            proof {
                assert forall|a: int, b: int| 0 <= a < col_rows@.len() && 0 <= b < col_rows@.len() && a != b
                    implies col_rows@[a] != col_rows@[b] by {
                    assert(m[a] != m[b]);
                }
            }
            rows.push(col_rows);
            j = j + 1;
        }
        Ok(rows)
    }

    /// A read-only view of the values of column `t`, in row order.
    pub fn column_values(&self, t: usize) -> (r: &Vec<V>)
        requires
            self.wf(),
            (t as nat) < self.num_types(),
        ensures
            r@ == self.values()[t as int],
    {
        proof { self.lemma_views(); }
        &self.vals[t]
    }

    /// A read-only view of the entities of column `t`, in row order.
    pub fn column_entities(&self, t: usize) -> (r: &Vec<u64>)
        requires
            self.wf(),
            (t as nat) < self.num_types(),
        ensures
            r@ == self.columns()[t as int],
    {
        proof { self.lemma_views(); }
        &self.ents[t]
    }

    /// The value at `row` of column `t`.
    pub fn value(&self, t: usize, row: usize) -> (r: &V)
        requires
            self.wf(),
            (t as nat) < self.num_types(),
            (row as int) < self.columns()[t as int].len(),
        ensures
            *r == self.values()[t as int][row as int],
    {
        proof { self.lemma_views(); }
        &self.vals[t][row]
    }

    /// Replaces the value at `row` of column `t`; which entity owns each row is unchanged.
    pub fn set_value(&mut self, t: usize, row: usize, v: V)
        requires
            old(self).wf(),
            (t as nat) < old(self).num_types(),
            (row as int) < old(self).columns()[t as int].len(),
        ensures
            final(self).wf(),
            final(self).columns() == old(self).columns(),
            final(self).values() == old(self).values().update(
                t as int,
                old(self).values()[t as int].update(row as int, v),
            ),
    {
        proof { self.lemma_views(); }
        let ghost before = self.values();
        self.vals[t].set(row, v);
        proof {
            self.lemma_views();
            assert(self.columns() =~= old(self).columns());
            assert(self.values() =~= before.update(t as int, before[t as int].update(row as int, v)));
        }
    }
}

} // verus!

verus! {

/// An entity inserted with component types `a` and `b` is matched by the access set
/// `{a, b}`, and is not matched by `{a, b, c}` when it has no `c`.
pub proof fn law_matching_after_insert(cols: Seq<Seq<u64>>, e: u64, a: usize, b: usize, c: usize)
    requires
        (a as int) < cols.len(),
        (b as int) < cols.len(),
        (c as int) < cols.len(),
        c != a,
        c != b,
        !cols[c as int].contains(e),
    ensures
        matching(inserted(cols, e, seq![a, b]), seq![a, b]).contains(e),
        !matching(inserted(cols, e, seq![a, b]), seq![a, b, c]).contains(e),
{
    let ts = seq![a, b];
    let ts3 = seq![a, b, c];
    let nc = inserted(cols, e, ts);
    assert(ts.contains(a) && ts[0] == a);
    assert(ts.contains(b) && ts[1] == b);
    assert(!ts.contains(c));
    assert(nc[a as int] == cols[a as int].push(e));
    assert(nc[b as int] == cols[b as int].push(e));
    assert(nc[c as int] == cols[c as int]);
    let last = cols[a as int].len() as int;
    assert(nc[a as int][last] == e);
    assert(nc[b as int][cols[b as int].len() as int] == e);
    let pred = |x: u64| has_all(nc, x, ts);
    assert(has_all(nc, e, ts));
    nc[a as int].lemma_filter_contains(pred, last);
    let pred3 = |x: u64| has_all(nc, x, ts3);
    let m3 = nc[a as int].filter(pred3);
    if m3.contains(e) {
        let i = choose|i: int| 0 <= i < m3.len() && m3[i] == e;
        nc[a as int].lemma_filter_pred(pred3, i);
        assert(ts3[2] == c);
        assert(nc[c as int].contains(e));
    }
}

/// Inserting an entity that has no rows and then removing it gives back the exact
/// columns, so every access set matches the same entities as before.
pub proof fn law_insert_remove_round_trip(cols: Seq<Seq<u64>>, e: u64, types: Seq<usize>, query: Seq<usize>)
    requires
        forall|t: int| 0 <= t < cols.len() ==> !(#[trigger] cols[t]).contains(e),
    ensures
        removed(inserted(cols, e, types), e) == cols,
        matching(removed(inserted(cols, e, types), e), query) == matching(cols, query),
{
    let ins = inserted(cols, e, types);
    let back = removed(ins, e);
    assert forall|t: int| 0 <= t < cols.len() implies #[trigger] back[t] == cols[t] by {
        assert(!cols[t].contains(e));
        if types.contains(t as usize) {
            let p = cols[t].push(e);
            assert(p[cols[t].len() as int] == e);
            let i = p.index_of(e);
            assert(0 <= i < p.len() && p[i] == e);
            assert(i == cols[t].len());
            assert(p.remove(i) =~= cols[t]);
        }
    }
    assert(back =~= cols);
}

} // verus!
