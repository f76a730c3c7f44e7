//! What is said of a history as a whole: the commits as a map from
//! identifier to record, and the relations between them.
use vstd::prelude::*;
use crate::object::{anonymous, branch_views, Branch, BranchView, CommitView, DraftView, Oid};
use crate::store::{DataView, Store};

verus! {

/// The stored commits, each under its identifier.
pub type Nodes = Map<Oid, DataView>;

/// Each record is stored under the identifier of its own commit.
pub open spec fn keyed(m: Nodes) -> bool {
    forall|id: Oid| #[trigger] m.dom().contains(id) ==> m[id].commit.id == id
}

/// The `k`-th parent of the commit `c`.
pub open spec fn parent_of(m: Nodes, c: Oid, k: int) -> Oid {
    m[c].commit.parents[k]
}

/// Every parent of a stored commit is stored too.
pub open spec fn closed(m: Nodes) -> bool {
    forall|c: Oid, k: int|
        m.dom().contains(c) && 0 <= k < m[c].commit.parents.len() ==> m.dom().contains(
            #[trigger] parent_of(m, c, k),
        )
}

/// The commit `c` is stored and names `p` among its parents.
pub open spec fn is_parent(m: Nodes, p: Oid, c: Oid) -> bool {
    m.dom().contains(c) && m[c].commit.parents.contains(p)
}

/// The record of `p` lists `c` as a child.
pub open spec fn has_child(m: Nodes, p: Oid, c: Oid) -> bool {
    m[p].children.contains(c)
}

/// No record lists children yet.
pub open spec fn unlinked(m: Nodes) -> bool {
    forall|id: Oid| #[trigger] m.dom().contains(id) ==> m[id].children.len() == 0
}

/// The children are the exact inverse of the parents: a record lists a
/// commit as a child, once, if and only if that commit is stored and names
/// the record's commit as a parent.
pub open spec fn linked(m: Nodes) -> bool {
    &&& forall|p: Oid, c: Oid|
        #![trigger has_child(m, p, c)]
        #![trigger is_parent(m, p, c)]
        m.dom().contains(p) ==> (has_child(m, p, c) <==> is_parent(m, p, c))
    &&& forall|p: Oid| #[trigger] m.dom().contains(p) ==> m[p].children.no_duplicates()
}

/// The commit `id` is stored and has its replacement.
pub open spec fn rebuilt(m: Nodes, id: Oid) -> bool {
    m.dom().contains(id) && m[id].new_commit is Some
}

/// No stored commit has a replacement.
pub open spec fn untouched(m: Nodes) -> bool {
    forall|id: Oid| #[trigger] m.dom().contains(id) ==> m[id].new_commit is None
}

/// The readiness guard: every parent of `id` has its replacement.
pub open spec fn ready(m: Nodes, id: Oid) -> bool {
    forall|k: int|
        0 <= k < m[id].commit.parents.len() ==> rebuilt(m, #[trigger] parent_of(m, id, k))
}

/// The replacements of the parents of `id`, in the parents' order.
pub open spec fn new_parents(m: Nodes, id: Oid) -> Seq<Oid> {
    Seq::new(
        m[id].commit.parents.len(),
        |k: int| m[parent_of(m, id, k)].new_commit.unwrap().id,
    )
}

/// What takes the place of `id`: the same tree and message, the parents'
/// replacements in the parents' order, and the anonymous name and address
/// at the times of the commit itself.
pub open spec fn draft(m: Nodes, id: Oid) -> DraftView {
    DraftView {
        tree: m[id].commit.tree,
        parents: new_parents(m, id),
        author: anonymous(m[id].commit.author.when),
        committer: anonymous(m[id].commit.committer.when),
        message: m[id].commit.message,
    }
}

/// The commit that takes the place of `id` when the object store holds it
/// as `new_id`.
pub open spec fn replacement(m: Nodes, id: Oid, new_id: Oid) -> CommitView {
    draft(m, id).stored_as(new_id)
}

/// The record of `id` with `r` as its replacement.
pub open spec fn rebuilt_as(m: Nodes, id: Oid, r: CommitView) -> Nodes {
    m.insert(id, DataView { new_commit: Some(r), ..m[id] })
}

/// Nothing would change: `id` is anonymous already and each of its parents
/// is its own replacement. Such a commit is kept as its own replacement, and
/// nothing is created for it.
pub open spec fn carries_through(m: Nodes, id: Oid) -> bool {
    m[id].commit.is_anonymous() && new_parents(m, id) == m[id].commit.parents
}

/// If `id` has a replacement, it is the right one: it came after the
/// replacements of all parents, it holds what [`replacement`] says, and it
/// is the commit itself where nothing would change.
pub open spec fn faithful(m: Nodes, id: Oid) -> bool {
    m[id].new_commit matches Some(r) ==> {
        &&& ready(m, id)
        &&& r == replacement(m, id, r.id)
        &&& carries_through(m, id) ==> r.id == id
    }
}

/// Every replacement made so far is the right one.
pub open spec fn all_faithful(m: Nodes) -> bool {
    forall|id: Oid| #[trigger] m.dom().contains(id) ==> faithful(m, id)
}

/// The rank of every commit that has its replacement is above the ranks of
/// its parents.
pub open spec fn ordered(m: Nodes, rank: spec_fn(Oid) -> nat) -> bool {
    forall|c: Oid, k: int|
        rebuilt(m, c) && 0 <= k < m[c].commit.parents.len() ==> rank(
            #[trigger] parent_of(m, c, k),
        ) < rank(c)
}

/// The replacements were made one after another, each after those of its
/// parents: the commits that have one can be ranked so that each stands
/// above its parents.
pub open spec fn rebuilt_in_order(m: Nodes) -> bool {
    exists|rank: spec_fn(Oid) -> nat| ordered(m, rank)
}

/// Every replacement made so far is the right one, and they were made in
/// order.
pub open spec fn rebuilt_well(m: Nodes) -> bool {
    all_faithful(m) && rebuilt_in_order(m)
}

/// A rank above the ranks of all of `ids`.
pub open spec fn above(rank: spec_fn(Oid) -> nat, ids: Seq<Oid>) -> nat
    decreases ids.len(),
{
    if ids.len() == 0 {
        0
    } else if above(rank, ids.drop_last()) > rank(ids.last()) {
        above(rank, ids.drop_last())
    } else {
        rank(ids.last()) + 1
    }
}

/// The rank that [`above`] gives is above the rank of each of `ids`.
pub proof fn lemma_above(rank: spec_fn(Oid) -> nat, ids: Seq<Oid>, k: int)
    requires
        0 <= k < ids.len(),
    ensures
        rank(ids[k]) < above(rank, ids),
    decreases ids.len(),
{
    if k < ids.len() - 1 {
        lemma_above(rank, ids.drop_last(), k);
    }
}

/// Every stored commit has its replacement.
pub open spec fn all_rebuilt(m: Nodes) -> bool {
    forall|id: Oid| #[trigger] m.dom().contains(id) ==> rebuilt(m, id)
}

/// The roots are the stored commits without parents, each listed once.
pub open spec fn roots_of(m: Nodes, roots: Seq<Oid>) -> bool {
    &&& roots.no_duplicates()
    &&& forall|id: Oid|
        #[trigger] roots.contains(id) <==> m.dom().contains(id) && m[id].commit.parents.len() == 0
}

/// Every branch points at a stored commit.
pub open spec fn tips_in(m: Nodes, branches: Seq<BranchView>) -> bool {
    forall|i: int| 0 <= i < branches.len() ==> m.dom().contains(#[trigger] branches[i].target)
}

/// Every commit that is ready and has no replacement is waiting in
/// `pending`.
pub open spec fn parked(m: Nodes, pending: Seq<Oid>) -> bool {
    forall|x: Oid|
        #[trigger] m.dom().contains(x) && ready(m, x) && !rebuilt(m, x) ==> pending.contains(x)
}

/// As [`parked`], but for the commit `id`, which is being dealt with.
pub open spec fn parked_but(m: Nodes, pending: Seq<Oid>, id: Oid) -> bool {
    forall|x: Oid|
        #[trigger] m.dom().contains(x) && x != id && ready(m, x) && !rebuilt(m, x)
            ==> pending.contains(x)
}

/// Only stored commits are waiting in `pending`.
pub open spec fn within(m: Nodes, pending: Seq<Oid>) -> bool {
    forall|i: int| 0 <= i < pending.len() ==> m.dom().contains(#[trigger] pending[i])
}

/// A replacement changes nothing for a commit that was ready before it:
/// that commit is still ready, and the replacements of its parents are the
/// same.
pub proof fn lemma_ready_stays(m: Nodes, id: Oid, r: CommitView, x: Oid)
    requires
        m.dom().contains(id),
        !rebuilt(m, id),
        m.dom().contains(x),
        ready(m, x),
    ensures
        ready(rebuilt_as(m, id, r), x),
        new_parents(rebuilt_as(m, id, r), x) == new_parents(m, x),
        carries_through(rebuilt_as(m, id, r), x) == carries_through(m, x),
        draft(rebuilt_as(m, id, r), x) == draft(m, x),
{
    let m2 = rebuilt_as(m, id, r);
    assert(m2[x].commit == m[x].commit);
    assert forall|k: int| 0 <= k < m2[x].commit.parents.len() implies rebuilt(
        m2,
        #[trigger] parent_of(m2, x, k),
    ) && m2[parent_of(m2, x, k)].new_commit == m[parent_of(m, x, k)].new_commit by {
        let p = parent_of(m, x, k);
        assert(parent_of(m2, x, k) == p);
        assert(rebuilt(m, p));
        assert(p != id);
    }
    assert(new_parents(m2, x) =~= new_parents(m, x));
}

/// Giving a ready commit the right replacement keeps the history in order:
/// the same commits with the same parents and children, every replacement
/// still the right one.
pub proof fn lemma_rebuilt_as(m: Nodes, id: Oid, r: CommitView)
    requires
        keyed(m),
        closed(m),
        linked(m),
        rebuilt_well(m),
        m.dom().contains(id),
        !rebuilt(m, id),
        ready(m, id),
        r == replacement(m, id, r.id),
        carries_through(m, id) ==> r.id == id,
    ensures
        rebuilt_as(m, id, r).dom() == m.dom(),
        keyed(rebuilt_as(m, id, r)),
        closed(rebuilt_as(m, id, r)),
        linked(rebuilt_as(m, id, r)),
        rebuilt_well(rebuilt_as(m, id, r)),
        rebuilt(rebuilt_as(m, id, r), id),
        forall|x: Oid| rebuilt(m, x) ==> rebuilt(rebuilt_as(m, id, r), x),
{
    let m2 = rebuilt_as(m, id, r);
    assert(rebuilt_in_order(m2)) by {
        let rank = choose|rank: spec_fn(Oid) -> nat| ordered(m, rank);
        let top = above(rank, m[id].commit.parents);
        let rank2 = |y: Oid|
            if y == id {
                top
            } else {
                rank(y)
            };
        assert forall|c: Oid, k: int|
            rebuilt(m2, c) && 0 <= k < m2[c].commit.parents.len() implies rank2(
            #[trigger] parent_of(m2, c, k),
        ) < rank2(c) by {
            let p = parent_of(m, c, k);
            assert(parent_of(m2, c, k) == p);
            if c == id {
                assert(rebuilt(m, p));
                lemma_above(rank, m[id].commit.parents, k);
            } else {
                assert(faithful(m, c));
                assert(rebuilt(m, p));
            }
        }
        assert(ordered(m2, rank2));
    }
    assert(m2.dom() =~= m.dom());
    assert forall|x: Oid| #[trigger] m2.dom().contains(x) implies m2[x].commit == m[x].commit
        && m2[x].children == m[x].children by {}
    assert(closed(m2)) by {
        assert forall|c: Oid, k: int|
            m2.dom().contains(c) && 0 <= k < m2[c].commit.parents.len() implies m2.dom().contains(
            #[trigger] parent_of(m2, c, k),
        ) by {
            assert(parent_of(m2, c, k) == parent_of(m, c, k));
        }
    }
    assert(linked(m2)) by {
        assert forall|p: Oid, c: Oid| m2.dom().contains(p) implies (has_child(m2, p, c)
            <==> is_parent(m2, p, c)) by {
            assert(has_child(m2, p, c) == has_child(m, p, c));
            assert(is_parent(m2, p, c) == is_parent(m, p, c));
        }
    }
    assert forall|x: Oid| #[trigger] m2.dom().contains(x) implies faithful(m2, x) by {
        if m2[x].new_commit is Some {
            if x != id {
                assert(m2[x] == m[x]);
                assert(faithful(m, x));
            }
            lemma_ready_stays(m, id, r, x);
        }
    }
}

/// After a replacement, the commits that may have become ready are the
/// children of the replaced commit: with them added, every ready commit
/// without a replacement is waiting again.
pub proof fn lemma_parked_again(m: Nodes, id: Oid, r: CommitView, pending: Seq<Oid>)
    requires
        linked(m),
        m.dom().contains(id),
        !rebuilt(m, id),
        parked_but(m, pending, id),
        within(m, pending),
    ensures
        parked(rebuilt_as(m, id, r), pending + m[id].children),
        within(rebuilt_as(m, id, r), pending + m[id].children),
{
    let m2 = rebuilt_as(m, id, r);
    let all = pending + m[id].children;
    assert forall|x: Oid| #[trigger]
        m2.dom().contains(x) && ready(m2, x) && !rebuilt(m2, x) implies all.contains(x) by {
        assert(x != id);
        assert(m2[x] == m[x]);
        if ready(m, x) {
            let i = pending.index_of(x);
            assert(all[i] == x);
        } else {
            let k = choose|k: int|
                0 <= k < m[x].commit.parents.len() && !rebuilt(m, #[trigger] parent_of(m, x, k));
            assert(rebuilt(m2, parent_of(m2, x, k)));
            assert(parent_of(m2, x, k) == parent_of(m, x, k));
            assert(parent_of(m, x, k) == id);
            assert(m[x].commit.parents[k] == id);
            assert(is_parent(m, id, x));
            assert(has_child(m, id, x));
            let i = m[id].children.index_of(x);
            assert(all[pending.len() + i] == x);
        }
    }
    assert forall|i: int| 0 <= i < all.len() implies m2.dom().contains(#[trigger] all[i]) by {
        if i < pending.len() {
            assert(all[i] == pending[i]);
        } else {
            let c = m[id].children[i - pending.len()];
            assert(all[i] == c);
            assert(has_child(m, id, c));
            assert(is_parent(m, id, c));
        }
    }
}

/// The commits of `path` lead from its first to its last through the
/// parents: each but the last is stored and names the next as a parent.
pub open spec fn leads(m: Nodes, path: Seq<Oid>) -> bool {
    &&& path.len() > 0
    &&& forall|i: int| 0 <= i < path.len() - 1 ==> is_parent(m, path[i + 1], #[trigger] path[i])
}

/// The path `path` leads from the tip of the branch `b` to the commit `id`.
pub open spec fn reaches(
    m: Nodes,
    branches: Seq<BranchView>,
    b: int,
    path: Seq<Oid>,
    id: Oid,
) -> bool {
    &&& 0 <= b < branches.len()
    &&& leads(m, path)
    &&& path[0] == branches[b].target
    &&& path.last() == id
}

/// A branch reaches the commit `id`.
pub open spec fn reached(m: Nodes, branches: Seq<BranchView>, id: Oid) -> bool {
    exists|b: int, path: Seq<Oid>| reaches(m, branches, b, path, id)
}

/// Only commits that a branch reaches are stored.
pub open spec fn all_reached(m: Nodes, branches: Seq<BranchView>) -> bool {
    forall|id: Oid| #[trigger] m.dom().contains(id) ==> reached(m, branches, id)
}

/// A path stays a path where the commits keep their parents.
pub proof fn lemma_reached_still(m: Nodes, later: Nodes, branches: Seq<BranchView>, id: Oid)
    requires
        reached(m, branches, id),
        forall|x: Oid| #[trigger]
            m.dom().contains(x) ==> later.dom().contains(x) && later[x].commit == m[x].commit,
    ensures
        reached(later, branches, id),
{
    let (b, path) = choose|b: int, path: Seq<Oid>| reaches(m, branches, b, path, id);
    assert forall|i: int| 0 <= i < path.len() - 1 implies is_parent(
        later,
        path[i + 1],
        #[trigger] path[i],
    ) by {
        assert(is_parent(m, path[i + 1], path[i]));
    }
    assert(reaches(later, branches, b, path, id));
}

/// Whatever a stored commit names as a parent is reached, if the commit is.
pub proof fn lemma_reached_parent(m: Nodes, branches: Seq<BranchView>, c: Oid, k: int)
    requires
        reached(m, branches, c),
        m.dom().contains(c),
        0 <= k < m[c].commit.parents.len(),
    ensures
        reached(m, branches, parent_of(m, c, k)),
{
    let (b, path) = choose|b: int, path: Seq<Oid>| reaches(m, branches, b, path, c);
    let p = parent_of(m, c, k);
    let longer = path.push(p);
    assert forall|i: int| 0 <= i < longer.len() - 1 implies is_parent(
        m,
        longer[i + 1],
        #[trigger] longer[i],
    ) by {
        if i < path.len() - 1 {
            assert(is_parent(m, path[i + 1], path[i]));
        } else {
            assert(longer[i] == c);
            assert(m[c].commit.parents[k] == p);
        }
    }
    assert(reaches(m, branches, b, longer, p));
}

/// The history `later` is `m` with more of its commits rebuilt: the same
/// commits and children, and no replacement taken back or changed.
pub open spec fn grown(m: Nodes, later: Nodes) -> bool {
    &&& later.dom() == m.dom()
    &&& forall|id: Oid| #[trigger]
        m.dom().contains(id) ==> {
            &&& later[id].commit == m[id].commit
            &&& later[id].children == m[id].children
            &&& rebuilt(m, id) ==> later[id].new_commit == m[id].new_commit
        }
}

/// Every commit that has its replacement in `later` and had none in `m`
/// is its own replacement.
pub open spec fn kept_since(m: Nodes, later: Nodes) -> bool {
    forall|id: Oid| #[trigger]
        later.dom().contains(id) && rebuilt(later, id) && !rebuilt(m, id)
            ==> later[id].new_commit == Some(later[id].commit)
}

/// Rebuilding does not touch the parents: a history that has grown out of
/// one without cycles has none.
pub proof fn lemma_grown_acyclic(m: Nodes, later: Nodes)
    requires
        grown(m, later),
    ensures
        acyclic(m) == acyclic(later),
{
    if acyclic(m) {
        let rank = choose|rank: spec_fn(Oid) -> nat| ranked(m, rank);
        assert forall|c: Oid, k: int|
            later.dom().contains(c) && 0 <= k < later[c].commit.parents.len() implies rank(
            #[trigger] parent_of(later, c, k),
        ) < rank(c) by {
            assert(parent_of(later, c, k) == parent_of(m, c, k));
        }
        assert(ranked(later, rank));
    }
    if acyclic(later) {
        let rank = choose|rank: spec_fn(Oid) -> nat| ranked(later, rank);
        assert forall|c: Oid, k: int|
            m.dom().contains(c) && 0 <= k < m[c].commit.parents.len() implies rank(
            #[trigger] parent_of(m, c, k),
        ) < rank(c) by {
            assert(parent_of(later, c, k) == parent_of(m, c, k));
        }
        assert(ranked(m, rank));
    }
}

/// What a history is kept in order by: each record under its own commit's
/// identifier, all parents stored, and the children the inverse of the
/// parents.
pub open spec fn sound(m: Nodes) -> bool {
    keyed(m) && closed(m) && linked(m)
}

/// A discovered history: the commits that the branches reach, the roots
/// among them, and the branches themselves.
pub struct Graph {
    store: Store,
    roots: Vec<Oid>,
    branches: Vec<Branch>,
}

/// The mathematical value of a [`Graph`].
pub struct GraphView {
    pub nodes: Nodes,
    pub roots: Seq<Oid>,
    pub branches: Seq<BranchView>,
}

impl GraphView {
    /// The history is in order, nothing is rebuilt yet, the roots are the
    /// commits without parents, and the stored commits are those that the
    /// branches reach: all of them, and no others.
    pub open spec fn wf(self) -> bool {
        &&& sound(self.nodes)
        &&& untouched(self.nodes)
        &&& roots_of(self.nodes, self.roots)
        &&& tips_in(self.nodes, self.branches)
        &&& all_reached(self.nodes, self.branches)
    }
}

impl View for Graph {
    type V = GraphView;

    closed spec fn view(&self) -> GraphView {
        GraphView {
            nodes: self.store@,
            roots: self.roots@,
            branches: branch_views(self.branches@),
        }
    }
}

impl Graph {
    #[verifier::type_invariant]
    spec fn inv(self) -> bool {
        self.store.wf() && self@.wf()
    }

    /// Puts a discovered history together.
    pub(crate) fn from_parts(store: Store, roots: Vec<Oid>, branches: Vec<Branch>) -> (graph:
        Graph)
        requires
            store.wf(),
            (GraphView {
                nodes: store@,
                roots: roots@,
                branches: branch_views(branches@),
            }).wf(),
        ensures
            graph@ == (GraphView {
                nodes: store@,
                roots: roots@,
                branches: branch_views(branches@),
            }),
    {
        Graph { store, roots, branches }
    }

    /// Takes a discovered history apart.
    pub(crate) fn into_parts(self) -> (parts: (Store, Vec<Oid>, Vec<Branch>))
        ensures
            self@.wf(),
            parts.0.wf(),
            self@ == (GraphView {
                nodes: parts.0@,
                roots: parts.1@,
                branches: branch_views(parts.2@),
            }),
    {
        proof {
            use_type_invariant(&self);
        }
        let Graph { store, roots, branches } = self;
        (store, roots, branches)
    }

    /// The discovered commits.
    pub fn store(&self) -> (store: &Store)
        ensures
            store.wf(),
            store@ == self@.nodes,
            self@.wf(),
    {
        proof {
            use_type_invariant(self);
        }
        &self.store
    }

    /// The commits without parents.
    pub fn roots(&self) -> (roots: &Vec<Oid>)
        ensures
            roots@ == self@.roots,
    {
        &self.roots
    }
}

/// The rank of every stored commit is above the ranks of its parents.
pub open spec fn ranked(m: Nodes, rank: spec_fn(Oid) -> nat) -> bool {
    forall|c: Oid, k: int|
        m.dom().contains(c) && 0 <= k < m[c].commit.parents.len() ==> rank(
            #[trigger] parent_of(m, c, k),
        ) < rank(c)
}

/// No commit is among its own ancestors: the commits can be ranked so that
/// every commit stands above its parents.
pub open spec fn acyclic(m: Nodes) -> bool {
    exists|rank: spec_fn(Oid) -> nat| ranked(m, rank)
}

/// Where no ready commit is left without a replacement, every commit of
/// rank `n` or less has its replacement.
proof fn lemma_settled_below(m: Nodes, rank: spec_fn(Oid) -> nat, n: nat)
    requires
        closed(m),
        parked(m, Seq::empty()),
        ranked(m, rank),
    ensures
        forall|x: Oid| #[trigger] m.dom().contains(x) && rank(x) <= n ==> rebuilt(m, x),
    decreases n,
{
    if n > 0 {
        lemma_settled_below(m, rank, (n - 1) as nat);
    }
    assert forall|x: Oid| #[trigger] m.dom().contains(x) && rank(x) <= n implies rebuilt(m, x) by {
        if !rebuilt(m, x) {
            assert forall|k: int| 0 <= k < m[x].commit.parents.len() implies rebuilt(
                m,
                #[trigger] parent_of(m, x, k),
            ) by {
                let p = parent_of(m, x, k);
                assert(rank(p) < rank(x));
                assert(m.dom().contains(p));
            }
            assert(ready(m, x));
            assert(Seq::<Oid>::empty().contains(x));
        }
    }
}

/// In a history without cycles the rebuild cannot come to rest early: where
/// no ready commit is left without a replacement, every commit has one.
pub proof fn lemma_settled(m: Nodes)
    requires
        closed(m),
        parked(m, Seq::empty()),
        acyclic(m),
    ensures
        all_rebuilt(m),
{
    let rank = choose|rank: spec_fn(Oid) -> nat| ranked(m, rank);
    assert forall|x: Oid| #[trigger] m.dom().contains(x) implies rebuilt(m, x) by {
        lemma_settled_below(m, rank, rank(x));
    }
}

} // verus!
