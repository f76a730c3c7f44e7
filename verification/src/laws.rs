//! What holds of every rebuilt history, whatever the order in which its
//! commits were looked at.
//!
//! Each statement is about a history in which every replacement made so far
//! is the right one ([`all_faithful`]), as it is in the state of a rebuild at
//! any time.
use vstd::prelude::*;
use crate::branches::{new_tip, plan, update_of, RefUpdateView};
use crate::graph::{
    all_faithful, carries_through, closed, faithful, is_parent, keyed, leads, new_parents,
    ordered, parent_of, reached, reaches, ready, rebuilt, rebuilt_well, replacement, tips_in,
    Nodes,
};
use crate::object::{BranchView, Oid, ANONYMOUS_EMAIL, ANONYMOUS_NAME};
use crate::rewrite::RewrittenView;

verus! {

/// Content is preserved: the replacement of a commit has the commit's tree
/// and the commit's message.
pub proof fn lemma_content_preserved(m: Nodes, id: Oid)
    requires
        all_faithful(m),
        rebuilt(m, id),
    ensures
        m[id].new_commit.unwrap().tree == m[id].commit.tree,
        m[id].new_commit.unwrap().message == m[id].commit.message,
{
    assert(faithful(m, id));
}

/// Topology is preserved: the replacement of a commit has as many parents
/// as the commit, and its parent at each place is the replacement of the
/// commit's parent at that place.
pub proof fn lemma_topology_preserved(m: Nodes, id: Oid)
    requires
        all_faithful(m),
        rebuilt(m, id),
    ensures
        m[id].new_commit.unwrap().parents.len() == m[id].commit.parents.len(),
        forall|i: int|
            0 <= i < m[id].commit.parents.len() ==> {
                &&& rebuilt(m, #[trigger] m[id].commit.parents[i])
                &&& m[id].new_commit.unwrap().parents[i] == new_tip(m, m[id].commit.parents[i])
            },
{
    assert(faithful(m, id));
    assert forall|i: int| 0 <= i < m[id].commit.parents.len() implies {
        &&& rebuilt(m, #[trigger] m[id].commit.parents[i])
        &&& m[id].new_commit.unwrap().parents[i] == new_tip(m, m[id].commit.parents[i])
    } by {
        assert(rebuilt(m, parent_of(m, id, i)));
    }
}

/// Every replacement is anonymous: author and committer carry the anonymous
/// name and address, at the times and offsets of the commit it replaces.
pub proof fn lemma_anonymized(m: Nodes, id: Oid)
    requires
        all_faithful(m),
        rebuilt(m, id),
    ensures
        m[id].new_commit.unwrap().author.name == ANONYMOUS_NAME@,
        m[id].new_commit.unwrap().author.email == ANONYMOUS_EMAIL@,
        m[id].new_commit.unwrap().author.when == m[id].commit.author.when,
        m[id].new_commit.unwrap().committer.name == ANONYMOUS_NAME@,
        m[id].new_commit.unwrap().committer.email == ANONYMOUS_EMAIL@,
        m[id].new_commit.unwrap().committer.when == m[id].commit.committer.when,
{
    assert(faithful(m, id));
}

/// A root does not wait: a commit without parents is ready from the start,
/// and its replacement has no parents either.
pub proof fn lemma_root_is_ready(m: Nodes, id: Oid)
    requires
        all_faithful(m),
        m.dom().contains(id),
        m[id].commit.parents.len() == 0,
    ensures
        ready(m, id),
        rebuilt(m, id) ==> m[id].new_commit.unwrap().parents.len() == 0,
{
    assert(faithful(m, id));
}

/// Parents come first: a commit has its replacement only when every one of
/// its parents has, and the replacement names as many parents as the commit.
pub proof fn lemma_parents_first(m: Nodes, id: Oid)
    requires
        all_faithful(m),
        rebuilt(m, id),
    ensures
        ready(m, id),
        m[id].new_commit.unwrap().parents.len() == m[id].commit.parents.len(),
{
    assert(faithful(m, id));
}

/// Nothing is missing from a discovered history: where every branch points
/// at a stored commit and every parent of a stored commit is stored, every
/// commit that a branch reaches is stored.
pub proof fn lemma_reached_is_stored(m: Nodes, branches: Seq<BranchView>, id: Oid)
    requires
        closed(m),
        tips_in(m, branches),
        reached(m, branches, id),
    ensures
        m.dom().contains(id),
{
    let (b, path) = choose|b: int, path: Seq<Oid>| reaches(m, branches, b, path, id);
    assert(m.dom().contains(branches[b].target));
    lemma_path_is_stored(m, path, path.len() - 1);
}

/// In a history that holds all parents, a path that starts at a stored
/// commit stays among the stored commits.
proof fn lemma_path_is_stored(m: Nodes, path: Seq<Oid>, n: int)
    requires
        closed(m),
        leads(m, path),
        m.dom().contains(path[0]),
        0 <= n < path.len(),
    ensures
        m.dom().contains(path[n]),
    decreases n,
{
    if n > 0 {
        lemma_path_is_stored(m, path, n - 1);
        let c = path[n - 1];
        assert(is_parent(m, path[n - 1 + 1], c));
        let k = m[c].commit.parents.index_of(path[n]);
        assert(parent_of(m, c, k) == path[n]);
    }
}

/// A finished rebuild has replaced every commit, and rightly: each stored
/// commit has a replacement with its tree and message, with the anonymous
/// name and address at its own times, and with the replacements of its
/// parents as parents, in their order.
pub proof fn lemma_rewritten(done: RewrittenView, id: Oid)
    requires
        done.wf(),
        done.nodes.dom().contains(id),
    ensures
        rebuilt(done.nodes, id),
        done.nodes[id].new_commit.unwrap() == replacement(
            done.nodes,
            id,
            new_tip(done.nodes, id),
        ),
        forall|i: int|
            0 <= i < done.nodes[id].commit.parents.len() ==> rebuilt(
                done.nodes,
                #[trigger] done.nodes[id].commit.parents[i],
            ),
{
    assert(faithful(done.nodes, id));
    lemma_topology_preserved(done.nodes, id);
}

/// Every stored commit is anonymous already.
pub open spec fn all_anonymous(m: Nodes) -> bool {
    forall|id: Oid| #[trigger] m.dom().contains(id) ==> m[id].commit.is_anonymous()
}

/// In an anonymous history, every commit of rank `n` or less that has a
/// replacement is its own replacement.
proof fn lemma_kept_below(m: Nodes, rank: spec_fn(Oid) -> nat, n: nat)
    requires
        keyed(m),
        all_faithful(m),
        all_anonymous(m),
        ordered(m, rank),
    ensures
        forall|x: Oid|
            #![trigger rebuilt(m, x)]
            rebuilt(m, x) && rank(x) <= n ==> m[x].new_commit == Some(m[x].commit),
    decreases n,
{
    if n > 0 {
        lemma_kept_below(m, rank, (n - 1) as nat);
    }
    assert forall|x: Oid|
        #![trigger rebuilt(m, x)]
        rebuilt(m, x) && rank(x) <= n implies m[x].new_commit == Some(m[x].commit) by {
        assert(faithful(m, x));
        assert forall|k: int| 0 <= k < m[x].commit.parents.len() implies new_parents(m, x)[k]
            == m[x].commit.parents[k] by {
            let p = parent_of(m, x, k);
            assert(rebuilt(m, p));
            assert(rank(p) < rank(x));
            assert(m[p].new_commit == Some(m[p].commit));
        }
        assert(new_parents(m, x) =~= m[x].commit.parents);
        assert(carries_through(m, x));
    }
}

/// An anonymous history is a fixed point. Where every commit is anonymous
/// already, every commit that has a replacement is its own replacement, and
/// no commit that is ready asks for anything to be created.
pub proof fn lemma_anonymous_history_stays(m: Nodes)
    requires
        keyed(m),
        rebuilt_well(m),
        all_anonymous(m),
    ensures
        forall|id: Oid| #[trigger] rebuilt(m, id) ==> m[id].new_commit == Some(m[id].commit),
        forall|id: Oid| m.dom().contains(id) && #[trigger] ready(m, id) ==> carries_through(m, id),
{
    let rank = choose|rank: spec_fn(Oid) -> nat| ordered(m, rank);
    assert forall|id: Oid| #[trigger] rebuilt(m, id) implies m[id].new_commit == Some(
        m[id].commit,
    ) by {
        lemma_kept_below(m, rank, rank(id));
    }
    assert forall|id: Oid| m.dom().contains(id) && #[trigger] ready(m, id) implies carries_through(
        m,
        id,
    ) by {
        assert forall|k: int| 0 <= k < m[id].commit.parents.len() implies new_parents(m, id)[k]
            == m[id].commit.parents[k] by {
            let p = parent_of(m, id, k);
            assert(rebuilt(m, p));
        }
        assert(new_parents(m, id) =~= m[id].commit.parents);
    }
}

/// Rebuilding an anonymous history moves no branch: every branch is sent
/// to the commit it points at already.
pub proof fn lemma_anonymous_tips_stay(done: RewrittenView, i: int)
    requires
        done.wf(),
        all_anonymous(done.nodes),
        0 <= i < done.branches.len(),
    ensures
        plan(done.nodes, done.branches)[i] == if done.branches[i].is_head {
            RefUpdateView::Reset { target: done.branches[i].target }
        } else {
            RefUpdateView::Branch { name: done.branches[i].name, target: done.branches[i].target }
        },
{
    lemma_anonymous_history_stays(done.nodes);
    assert(rebuilt(done.nodes, done.branches[i].target));
}

/// Branches follow their tips: there is one change for each branch, in the
/// branches' order. It sends the branch to the replacement of its tip: by a
/// hard reset if the branch is checked out, and else by pointing the branch
/// of the same name there.
pub proof fn lemma_branches_follow(m: Nodes, branches: Seq<BranchView>, i: int)
    requires
        0 <= i < branches.len(),
    ensures
        plan(m, branches).len() == branches.len(),
        branches[i].is_head ==> plan(m, branches)[i] == (RefUpdateView::Reset {
            target: new_tip(m, branches[i].target),
        }),
        !branches[i].is_head ==> plan(m, branches)[i] == (RefUpdateView::Branch {
            name: branches[i].name,
            target: new_tip(m, branches[i].target),
        }),
{
    assert(plan(m, branches)[i] == update_of(m, branches[i]));
}

} // verus!
