//! The branch updater: where each branch points once the history is
//! rebuilt.
use vstd::prelude::*;
use crate::graph::{rebuilt, Nodes};
use crate::object::{branch_views, Branch, BranchView, Oid};
use crate::rewrite::Rewritten;
use crate::store::Store;

verus! {

/// One change to the references of a repository.
#[derive(Debug, PartialEq, Eq)]
pub enum RefUpdate {
    /// The branch `name` is made to point at `target`, whether or not it
    /// exists.
    Branch { name: String, target: Oid },
    /// The working state is reset hard to `target`, which moves the branch
    /// that is checked out.
    Reset { target: Oid },
}

/// The mathematical value of a [`RefUpdate`].
pub enum RefUpdateView {
    Branch { name: Seq<char>, target: Oid },
    Reset { target: Oid },
}

impl View for RefUpdate {
    type V = RefUpdateView;

    open spec fn view(&self) -> RefUpdateView {
        match self {
            RefUpdate::Branch { name, target } => RefUpdateView::Branch {
                name: name@,
                target: *target,
            },
            RefUpdate::Reset { target } => RefUpdateView::Reset { target: *target },
        }
    }
}

/// The values of a list of updates.
pub open spec fn update_views(updates: Seq<RefUpdate>) -> Seq<RefUpdateView> {
    Seq::new(updates.len(), |i: int| updates[i]@)
}

/// The replacement of the commit `id`.
pub open spec fn new_tip(m: Nodes, id: Oid) -> Oid {
    m[id].new_commit.unwrap().id
}

/// The change that moves `branch` to the replacement of its tip: a hard
/// reset for the branch that is checked out, and for any other the branch
/// of the same name pointed at the replacement.
pub open spec fn update_of(m: Nodes, branch: BranchView) -> RefUpdateView {
    if branch.is_head {
        RefUpdateView::Reset { target: new_tip(m, branch.target) }
    } else {
        RefUpdateView::Branch { name: branch.name, target: new_tip(m, branch.target) }
    }
}

/// The changes for `branches`, one for each, in their order.
pub open spec fn plan(m: Nodes, branches: Seq<BranchView>) -> Seq<RefUpdateView> {
    Seq::new(branches.len(), |i: int| update_of(m, branches[i]))
}

/// Every branch points at a commit that has its replacement.
pub open spec fn tips_rebuilt(m: Nodes, branches: Seq<BranchView>) -> bool {
    forall|i: int| 0 <= i < branches.len() ==> rebuilt(m, #[trigger] branches[i].target)
}

/// The changes that move every branch to the replacement of its tip.
pub fn update_branches(store: &Store, branches: &Vec<Branch>) -> (updates: Vec<RefUpdate>)
    requires
        store.wf(),
        tips_rebuilt(store@, branch_views(branches@)),
    ensures
        update_views(updates@) == plan(store@, branch_views(branches@)),
{
    let ghost m = store@;
    let ghost views = branch_views(branches@);
    let mut updates: Vec<RefUpdate> = Vec::new();
    let mut i: usize = 0;
    while i < branches.len()
        invariant
            store.wf(),
            m == store@,
            views == branch_views(branches@),
            tips_rebuilt(m, views),
            i <= branches.len(),
            updates@.len() == i,
            forall|j: int| 0 <= j < i ==> (#[trigger] updates@[j])@ == update_of(m, views[j]),
        decreases branches.len() - i,
    {
        let branch = &branches[i];
        proof {
            assert(rebuilt(m, views[i as int].target));
        }
        let at = store.find(branch.target).unwrap();
        let target = match &store.slot(at).new_commit {
            Some(commit) => commit.id,
            None => unreached(),
        };
        if branch.is_head {
            updates.push(RefUpdate::Reset { target });
        } else {
            updates.push(RefUpdate::Branch { name: branch.name.clone(), target });
        }
        i += 1;
    }
    assert(update_views(updates@) =~= plan(m, views));
    updates
}

impl Rewritten {
    /// The changes that move every branch of the rebuilt history to the
    /// replacement of its tip.
    pub fn branch_updates(&self) -> (updates: Vec<RefUpdate>)
        ensures
            self@.wf(),
            update_views(updates@) == plan(self@.nodes, self@.branches),
    {
        let store = self.store();
        let branches = self.branches();
        update_branches(store, branches)
    }
}

} // verus!
