use vstd::prelude::*;
use crate::error::EcsError;
use crate::store::{all_registered, inserted, removed, types_of, ComponentStore};

verus! {

/// A structural change, held back until the next maintenance point.
pub enum Command<V> {
    /// Give `entity` one row per `(component type, value)` pair.
    Spawn { entity: u64, comps: Vec<(usize, V)> },
    /// Retract every row of `entity`.
    Despawn { entity: u64 },
}

/// An insertion of `e` with `types` into `cols` succeeds: every type is registered,
/// none is named twice, and `e` has none of them yet.
pub open spec fn can_insert(cols: Seq<Seq<u64>>, e: u64, types: Seq<usize>) -> bool {
    &&& all_registered(cols.len(), types)
    &&& types.no_duplicates()
    &&& forall|k: int| 0 <= k < types.len() ==> !cols[#[trigger] types[k] as int].contains(e)
}

/// The entity columns after one command; a spawn that fails changes nothing.
pub open spec fn after_command<V>(cols: Seq<Seq<u64>>, c: Command<V>) -> Seq<Seq<u64>> {
    match c {
        Command::Spawn { entity, comps } => if can_insert(cols, entity, types_of(comps@)) {
            inserted(cols, entity, types_of(comps@))
        } else {
            cols
        },
        Command::Despawn { entity } => removed(cols, entity),
    }
}

/// The entity columns after the commands, one after another.
pub open spec fn after_commands<V>(cols: Seq<Seq<u64>>, cmds: Seq<Command<V>>) -> Seq<Seq<u64>>
    decreases cmds.len(),
{
    if cmds.len() == 0 {
        cols
    } else {
        after_command(after_commands(cols, cmds.drop_last()), cmds.last())
    }
}

/// Spawn and despawn requests made during a tick, in the order they were made.
pub struct CommandBuffer<V> {
    pub commands: Vec<Command<V>>,
}

impl<V> CommandBuffer<V> {
    /// An empty buffer.
    pub fn new() -> (r: Self)
        ensures
            r.commands@.len() == 0,
    {
        CommandBuffer { commands: Vec::new() }
    }

    /// Queues the creation of `entity` with the given components.
    pub fn spawn(&mut self, entity: u64, comps: Vec<(usize, V)>)
        ensures
            final(self).commands@ == old(self).commands@.push(Command::Spawn { entity, comps }),
    {
        self.commands.push(Command::Spawn { entity, comps });
    }

    /// Queues the removal of every row of `entity`.
    pub fn despawn(&mut self, entity: u64)
        ensures
            final(self).commands@ == old(self).commands@.push(Command::Despawn { entity }),
    {
        self.commands.push(Command::Despawn { entity });
    }

    /// Applies the queued commands to `store` in order, at a point where no system runs.
    /// Result `i` belongs to command `i`: a spawn fails as `ComponentStore::insert` does
    /// on the store as the earlier commands left it, and then changes nothing; a
    /// despawn always succeeds.
    pub fn apply(self, store: &mut ComponentStore<V>) -> (r: Vec<Result<(), EcsError>>)
        requires
            old(store).wf(),
        ensures
            final(store).wf(),
            final(store).columns() == after_commands(old(store).columns(), self.commands@),
            r@.len() == self.commands@.len(),
            forall|i: int| 0 <= i < r@.len() ==> (#[trigger] r@[i] is Ok <==> match self.commands@[i] {
                Command::Spawn { entity, comps } => can_insert(
                    after_commands(old(store).columns(), self.commands@.take(i)),
                    entity,
                    types_of(comps@),
                ),
                Command::Despawn { entity } => true,
            }),
    {
        let ghost orig = self.commands@;
        let ghost c0 = store.columns();
        let mut cmds = self.commands;
        let mut results: Vec<Result<(), EcsError>> = Vec::new();
        while cmds.len() > 0
            invariant
                store.wf(),
                results@.len() + cmds@.len() == orig.len(),
                cmds@ == orig.subrange(results@.len() as int, orig.len() as int),
                store.columns() == after_commands(c0, orig.take(results@.len() as int)),
                forall|i: int| 0 <= i < results@.len() ==> (#[trigger] results@[i] is Ok <==> match orig[i] {
                    Command::Spawn { entity, comps } => can_insert(after_commands(c0, orig.take(i)), entity, types_of(comps@)),
                    Command::Despawn { entity } => true,
                }),
            decreases cmds@.len(),
        {
            let ghost i = results@.len() as int;
            let ghost before = store.columns();
            let ghost prev = results@;
            let c = cmds.remove(0);
            proof {
                assert(c == orig[i]);
                assert(cmds@ =~= orig.subrange(i + 1, orig.len() as int));
                assert(orig.take(i + 1).drop_last() =~= orig.take(i));
                assert(orig.take(i + 1).last() == orig[i]);
            }
            match c {
                Command::Spawn { entity, comps } => {
                    let ghost cs = comps@;
                    let res = store.insert(entity, comps);
                    proof {
                        let ts = types_of(cs);
                        assert forall|k: int| 0 <= k < cs.len() implies #[trigger] ts[k] == cs[k].0 by {}
                        if can_insert(before, entity, ts) {
                            assert forall|k: int| 0 <= k < cs.len() implies !before[#[trigger] cs[k].0 as int].contains(entity) by {
                                assert(ts[k] == cs[k].0);
                            }
                        }
                        if res is Ok {
                            assert forall|k: int| 0 <= k < ts.len() implies !before[#[trigger] ts[k] as int].contains(entity) by {
                                assert(ts[k] == cs[k].0);
                            }
                        }
                    }
                    results.push(res);
                },
                Command::Despawn { entity } => {
                    store.remove(entity);
                    results.push(Ok(()));
                },
            }
            proof {
                assert forall|j: int| 0 <= j < results@.len() implies (#[trigger] results@[j] is Ok <==> match orig[j] {
                    Command::Spawn { entity, comps } => can_insert(after_commands(c0, orig.take(j)), entity, types_of(comps@)),
                    Command::Despawn { entity } => true,
                }) by {
                    if j < i {
                        assert(results@[j] == prev[j]);
                    }
                }
            }
        }
        proof {
            assert(orig.take(orig.len() as int) =~= orig);
        }
        results
    }
}

} // verus!
