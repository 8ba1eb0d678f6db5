use vstd::prelude::*;

verus! {

/// How a system touches a component type or a resource.
#[derive(Debug, Clone, Copy, PartialEq, Eq, Structural)]
pub enum Access {
    Read,
    Write,
}

/// What one system touches: `(component type, mode)` pairs and `(resource, mode)` pairs.
pub struct SystemAccess {
    pub components: Vec<(usize, Access)>,
    pub resources: Vec<(usize, Access)>,
}

/// Two declaration lists touch one name, and at least one of them writes it.
pub open spec fn lists_conflict(a: Seq<(usize, Access)>, b: Seq<(usize, Access)>) -> bool {
    exists|i: int, j: int|
        0 <= i < a.len() && 0 <= j < b.len() && (#[trigger] a[i]).0 == (#[trigger] b[j]).0 && (a[i].1
            == Access::Write || b[j].1 == Access::Write)
}

impl SystemAccess {
    /// Running the two systems at the same time could race on a component or a resource.
    pub open spec fn conflicts_with(&self, other: &SystemAccess) -> bool {
        lists_conflict(self.components@, other.components@) || lists_conflict(
            self.resources@,
            other.resources@,
        )
    }

    /// Whether running the two systems at the same time could race.
    pub fn conflicts(&self, other: &SystemAccess) -> (r: bool)
        ensures
            r == self.conflicts_with(other),
    {
        lists_overlap(&self.components, &other.components) || lists_overlap(
            &self.resources,
            &other.resources,
        )
    }
}

fn lists_overlap(a: &Vec<(usize, Access)>, b: &Vec<(usize, Access)>) -> (r: bool)
    ensures
        r == lists_conflict(a@, b@),
{
    let mut i: usize = 0;
    while i < a.len()
        invariant
            i <= a@.len(),
            forall|x: int, y: int|
                0 <= x < i && 0 <= y < b@.len() && (#[trigger] a@[x]).0 == (#[trigger] b@[y]).0
                    ==> a@[x].1 != Access::Write && b@[y].1 != Access::Write,
        decreases a@.len() - i,
    {
        let mut j: usize = 0;
        while j < b.len()
            invariant
                i < a@.len(),
                j <= b@.len(),
                forall|x: int, y: int|
                    0 <= x < i && 0 <= y < b@.len() && (#[trigger] a@[x]).0 == (#[trigger] b@[y]).0
                        ==> a@[x].1 != Access::Write && b@[y].1 != Access::Write,
                forall|y: int|
                    0 <= y < j && a@[i as int].0 == (#[trigger] b@[y]).0 ==> a@[i as int].1 != Access::Write
                        && b@[y].1 != Access::Write,
            decreases b@.len() - j,
        {
            if a[i].0 == b[j].0 && (a[i].1 == Access::Write || b[j].1 == Access::Write) {
                return true;
            }
            j = j + 1;
        }
        i = i + 1;
    }
    false
}

} // verus!
