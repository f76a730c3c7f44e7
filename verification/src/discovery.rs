//! Graph discovery: from the branch tips backwards through the parents,
//! each commit stored once, and the children linked when all are known.
use vstd::prelude::*;
use crate::graph::{
    closed, has_child, is_parent, keyed, lemma_reached_parent, lemma_reached_still, linked,
    parent_of, reached, reaches, roots_of, unlinked, untouched, Graph, Nodes,
};
use crate::object::{append_oids, branch_views, Branch, BranchView, Commit, CommitView, Oid};
use crate::store::{Data, DataView, Store};

verus! {

/// The record of a commit that was just found: no children known, no
/// replacement.
pub open spec fn found(commit: CommitView) -> DataView {
    DataView { commit, children: Seq::empty(), new_commit: None }
}

/// Stores `commit` unless it is stored already. A commit that is new is
/// added to the roots if it has no parents; else its parents are added to
/// the commits still to be visited.
pub fn populate(commit: Commit, store: &mut Store, roots: &mut Vec<Oid>, pending: &mut Vec<Oid>)
    requires
        old(store).wf(),
    ensures
        final(store).wf(),
        old(store)@.dom().contains(commit@.id) ==> {
            &&& final(store)@ == old(store)@
            &&& final(roots)@ == old(roots)@
            &&& final(pending)@ == old(pending)@
        },
        !old(store)@.dom().contains(commit@.id) ==> {
            &&& final(store)@ == old(store)@.insert(commit@.id, found(commit@))
            &&& final(roots)@ == if commit@.parents.len() == 0 {
                old(roots)@.push(commit@.id)
            } else {
                old(roots)@
            }
            &&& final(pending)@ == old(pending)@ + commit@.parents
        },
{
    let oid = commit.id;
    if !store.contains_key(oid) {
        if commit.parents.len() == 0 {
            roots.push(oid);
        }
        append_oids(pending, &commit.parents);
        store.insert(Data::new(commit));
    }
}

/// Whether the identifier at `k` occurs before `k` in `ids` as well.
pub fn seen_before(ids: &Vec<Oid>, k: usize) -> (seen: bool)
    requires
        k < ids.len(),
    ensures
        seen == ids@.take(k as int).contains(ids@[k as int]),
{
    let mut j: usize = 0;
    while j < k
        invariant
            j <= k < ids.len(),
            forall|t: int| 0 <= t < j ==> ids@[t] != ids@[k as int],
        decreases k - j,
    {
        if ids[j] == ids[k] {
            assert(ids@.take(k as int)[j as int] == ids@[k as int]);
            return true;
        }
        j += 1;
    }
    false
}

/// The `k2`-th parent of the commit in slot `j` is `p`, that commit is
/// `c`, and linking has passed it: linking stands at parent `k` of slot `i`.
spec fn entered(
    m: Nodes,
    keys: Seq<Oid>,
    i: int,
    k: int,
    j: int,
    k2: int,
    p: Oid,
    c: Oid,
) -> bool {
    &&& 0 <= j < keys.len()
    &&& keys[j] == c
    &&& 0 <= k2 < m[c].commit.parents.len()
    &&& m[c].commit.parents[k2] == p
    &&& (j < i || (j == i && k2 < k))
}

/// Linking has passed a place where `c` names `p` as a parent.
spec fn passed(m: Nodes, keys: Seq<Oid>, i: int, k: int, p: Oid, c: Oid) -> bool {
    exists|j: int, k2: int| entered(m, keys, i, k, j, k2, p, c)
}

/// The state of linking at parent `k` of slot `i`: against the unlinked
/// history `m0`, the records of `m` differ in their children alone, and these
/// are the children that linking has passed, each once.
spec fn linked_upto(m0: Nodes, m: Nodes, keys: Seq<Oid>, i: int, k: int) -> bool {
    &&& m.dom() == m0.dom()
    &&& forall|id: Oid| #[trigger]
        m.dom().contains(id) ==> m[id].commit == m0[id].commit && m[id].new_commit
            == m0[id].new_commit
    &&& forall|p: Oid| #[trigger] m.dom().contains(p) ==> m[p].children.no_duplicates()
    &&& forall|p: Oid, c: Oid|
        #![trigger has_child(m, p, c)]
        #![trigger passed(m0, keys, i, k, p, c)]
        m.dom().contains(p) ==> (has_child(m, p, c) <==> passed(m0, keys, i, k, p, c))
}

/// A parent that the commit names a second time adds nothing.
proof fn lemma_link_seen(m0: Nodes, m: Nodes, keys: Seq<Oid>, i: int, k: int)
    requires
        linked_upto(m0, m, keys, i, k),
        0 <= i < keys.len(),
        0 <= k < m0[keys[i]].commit.parents.len(),
        m0[keys[i]].commit.parents.take(k).contains(m0[keys[i]].commit.parents[k]),
    ensures
        linked_upto(m0, m, keys, i, k + 1),
{
    let kn = k + 1;
    let parents = m0[keys[i]].commit.parents;
    let k1 = parents.take(k).index_of(parents[k]);
    assert(parents[k1] == parents[k]);
    assert forall|p: Oid, c: Oid| m.dom().contains(p) implies (has_child(m, p, c) <==> passed(
        m0,
        keys,
        i,
        kn,
        p,
        c,
    )) by {
        if passed(m0, keys, i, k, p, c) {
            let (j, k2) = choose|j: int, k2: int| entered(m0, keys, i, k, j, k2, p, c);
            assert(entered(m0, keys, i, kn, j, k2, p, c));
        }
        if passed(m0, keys, i, k + 1, p, c) {
            let (j, k2) = choose|j: int, k2: int| entered(m0, keys, i, kn, j, k2, p, c);
            if j == i && k2 == k {
                assert(entered(m0, keys, i, k, i, k1, p, c));
            } else {
                assert(entered(m0, keys, i, k, j, k2, p, c));
            }
        }
    }
}

/// A parent that the commit names for the first time gets it as a child.
proof fn lemma_link_added(m0: Nodes, m: Nodes, keys: Seq<Oid>, i: int, k: int)
    requires
        linked_upto(m0, m, keys, i, k),
        keys.no_duplicates(),
        0 <= i < keys.len(),
        0 <= k < m0[keys[i]].commit.parents.len(),
        m.dom().contains(m0[keys[i]].commit.parents[k]),
        !m0[keys[i]].commit.parents.take(k).contains(m0[keys[i]].commit.parents[k]),
    ensures
        linked_upto(
            m0,
            m.insert(
                m0[keys[i]].commit.parents[k],
                DataView {
                    children: m[m0[keys[i]].commit.parents[k]].children.push(keys[i]),
                    ..m[m0[keys[i]].commit.parents[k]]
                },
            ),
            keys,
            i,
            k + 1,
        ),
{
    let kn = k + 1;
    let child = keys[i];
    let parents = m0[child].commit.parents;
    let parent = parents[k];
    let before = m[parent].children;
    let after = before.push(child);
    let m2 = m.insert(parent, DataView { children: after, ..m[parent] });
    assert(m2.dom() =~= m0.dom());
    assert(!has_child(m, parent, child)) by {
        if passed(m0, keys, i, k, parent, child) {
            let (j, k2) = choose|j: int, k2: int| entered(m0, keys, i, k, j, k2, parent, child);
            assert(j == i);
            assert(parents.take(k)[k2] == parent);
        }
    }
    assert(after.no_duplicates());
    assert forall|p: Oid, c: Oid| m2.dom().contains(p) implies (has_child(m2, p, c) <==> passed(
        m0,
        keys,
        i,
        kn,
        p,
        c,
    )) by {
        if has_child(m2, p, c) {
            if p == parent && !has_child(m, p, c) {
                let t = after.index_of(c);
                assert(t == before.len());
                assert(entered(m0, keys, i, kn, i, k, p, c));
            } else {
                assert(has_child(m, p, c));
                let (j, k2) = choose|j: int, k2: int| entered(m0, keys, i, k, j, k2, p, c);
                assert(entered(m0, keys, i, kn, j, k2, p, c));
            }
        }
        if passed(m0, keys, i, k + 1, p, c) {
            let (j, k2) = choose|j: int, k2: int| entered(m0, keys, i, kn, j, k2, p, c);
            if j == i && k2 == k {
                assert(after[before.len() as int] == c);
            } else {
                assert(entered(m0, keys, i, k, j, k2, p, c));
                assert(has_child(m, p, c));
                if p == parent {
                    let t = before.index_of(c);
                    assert(after[t] == c);
                }
            }
        }
    }
}

/// A parent that is not stored has no record to enter the commit in.
proof fn lemma_link_passed_by(m0: Nodes, m: Nodes, keys: Seq<Oid>, i: int, k: int)
    requires
        linked_upto(m0, m, keys, i, k),
        0 <= i < keys.len(),
        0 <= k < m0[keys[i]].commit.parents.len(),
        !m.dom().contains(m0[keys[i]].commit.parents[k]),
    ensures
        linked_upto(m0, m, keys, i, k + 1),
{
    let kn = k + 1;
    assert forall|p: Oid, c: Oid| m.dom().contains(p) implies (has_child(m, p, c) <==> passed(
        m0,
        keys,
        i,
        kn,
        p,
        c,
    )) by {
        if passed(m0, keys, i, k, p, c) {
            let (j, k2) = choose|j: int, k2: int| entered(m0, keys, i, k, j, k2, p, c);
            assert(entered(m0, keys, i, kn, j, k2, p, c));
        }
        if passed(m0, keys, i, kn, p, c) {
            let (j, k2) = choose|j: int, k2: int| entered(m0, keys, i, kn, j, k2, p, c);
            assert(entered(m0, keys, i, k, j, k2, p, c));
        }
    }
}

/// After the last parent of one slot comes the first parent of the next.
proof fn lemma_link_next(m0: Nodes, m: Nodes, keys: Seq<Oid>, i: int)
    requires
        0 <= i < keys.len(),
        linked_upto(m0, m, keys, i, m0[keys[i]].commit.parents.len() as int),
    ensures
        linked_upto(m0, m, keys, i + 1, 0),
{
    let n = m0[keys[i]].commit.parents.len() as int;
    let ni = i + 1;
    assert forall|p: Oid, c: Oid| m.dom().contains(p) implies (has_child(m, p, c) <==> passed(
        m0,
        keys,
        ni,
        0,
        p,
        c,
    )) by {
        if passed(m0, keys, i, n, p, c) {
            let (j, k2) = choose|j: int, k2: int| entered(m0, keys, i, n, j, k2, p, c);
            assert(entered(m0, keys, ni, 0, j, k2, p, c));
        }
        if passed(m0, keys, ni, 0, p, c) {
            let (j, k2) = choose|j: int, k2: int| entered(m0, keys, ni, 0, j, k2, p, c);
            assert(entered(m0, keys, i, n, j, k2, p, c));
        }
    }
}

/// Before linking, nothing has been passed and no record lists a child.
proof fn lemma_link_start(m0: Nodes, keys: Seq<Oid>)
    requires
        unlinked(m0),
    ensures
        linked_upto(m0, m0, keys, 0, 0),
{
    assert forall|p: Oid, c: Oid| m0.dom().contains(p) implies (has_child(m0, p, c) <==> passed(
        m0,
        keys,
        0,
        0,
        p,
        c,
    )) by {
        assert(m0[p].children.len() == 0);
    }
}

/// When linking has passed every slot, the children are the inverse of the
/// parents.
proof fn lemma_link_done(m0: Nodes, m: Nodes, keys: Seq<Oid>)
    requires
        linked_upto(m0, m, keys, keys.len() as int, 0),
        forall|id: Oid| #[trigger] m0.dom().contains(id) <==> keys.contains(id),
    ensures
        linked(m),
{
    let n = keys.len() as int;
    assert forall|p: Oid, c: Oid| m.dom().contains(p) implies (has_child(m, p, c) <==> is_parent(
        m,
        p,
        c,
    )) by {
        if passed(m0, keys, n, 0, p, c) {
            let (j, k2) = choose|j: int, k2: int| entered(m0, keys, n, 0, j, k2, p, c);
            assert(keys.contains(c));
            assert(m.dom().contains(c));
            assert(m[c].commit.parents[k2] == p);
        }
        if is_parent(m, p, c) {
            assert(m0.dom().contains(c));
            let j = keys.index_of(c);
            let k2 = m[c].commit.parents.index_of(p);
            assert(entered(m0, keys, n, 0, j, k2, p, c));
        }
    }
}

/// Enters every stored commit among the children of each of its parents
/// that is stored, once.
pub fn link(store: &mut Store)
    requires
        old(store).wf(),
        unlinked(old(store)@),
    ensures
        final(store).wf(),
        final(store).keys() == old(store).keys(),
        final(store)@.dom() == old(store)@.dom(),
        forall|id: Oid| #[trigger]
            final(store)@.dom().contains(id) ==> final(store)@[id].commit == old(store)@[id].commit
                && final(store)@[id].new_commit == old(store)@[id].new_commit,
        linked(final(store)@),
{
    let ghost m0 = store@;
    let ghost keys = store.keys();
    proof {
        store.lemma_keys();
        lemma_link_start(m0, keys);
    }
    let n = store.len();
    let mut i: usize = 0;
    while i < n
        invariant
            store.wf(),
            store.keys() == keys,
            keys.no_duplicates(),
            n == keys.len(),
            i <= n,
            forall|id: Oid| #[trigger] m0.dom().contains(id) <==> keys.contains(id),
            linked_upto(m0, store@, keys, i as int, 0),
        decreases n - i,
    {
        let child = store.slot(i).commit.id;
        let count = store.slot(i).commit.parents.len();
        let mut k: usize = 0;
        while k < count
            invariant
                store.wf(),
                store.keys() == keys,
                keys.no_duplicates(),
                n == keys.len(),
                i < n,
                forall|id: Oid| #[trigger] m0.dom().contains(id) <==> keys.contains(id),
                child == keys[i as int],
                count == m0[child].commit.parents.len(),
                k <= count,
                linked_upto(m0, store@, keys, i as int, k as int),
            decreases count - k,
        {
            let data = store.slot(i);
            let parent = data.commit.parents[k];
            let seen = seen_before(&data.commit.parents, k);
            proof {
                assert(m0.dom().contains(child));
                assert(parent == parent_of(m0, child, k as int));
            }
            if seen {
                proof {
                    lemma_link_seen(m0, store@, keys, i as int, k as int);
                }
            } else {
                let ghost m = store@;
                match store.find(parent) {
                    Some(j) => {
                        proof {
                            lemma_link_added(m0, m, keys, i as int, k as int);
                        }
                        store.add_child(j, child);
                    },
                    None => {
                        proof {
                            lemma_link_passed_by(m0, m, keys, i as int, k as int);
                        }
                    },
                }
            }
            k += 1;
        }
        proof {
            lemma_link_next(m0, store@, keys, i as int);
        }
        i += 1;
    }
    proof {
        lemma_link_done(m0, store@, keys);
    }
}

/// Every parent of a stored commit is stored or still to be visited.
pub open spec fn frontier(m: Nodes, pending: Seq<Oid>) -> bool {
    forall|c: Oid, k: int|
        m.dom().contains(c) && 0 <= k < m[c].commit.parents.len() ==> m.dom().contains(
            #[trigger] parent_of(m, c, k),
        ) || pending.contains(parent_of(m, c, k))
}

/// Every branch points at a commit that is stored or still to be visited.
pub open spec fn tips_due(m: Nodes, pending: Seq<Oid>, branches: Seq<BranchView>) -> bool {
    forall|i: int|
        0 <= i < branches.len() ==> m.dom().contains(#[trigger] branches[i].target)
            || pending.contains(branches[i].target)
}

/// A branch reaches whatever is stored or still to be visited.
pub open spec fn traced(m: Nodes, pending: Seq<Oid>, branches: Seq<BranchView>) -> bool {
    forall|x: Oid|
        #![trigger reached(m, branches, x)]
        m.dom().contains(x) || pending.contains(x) ==> reached(m, branches, x)
}

/// A discovery under way: the commits found so far, the roots among them,
/// and the commits still to be visited, the next one last.
pub struct Discovery {
    store: Store,
    roots: Vec<Oid>,
    pending: Vec<Oid>,
    branches: Vec<Branch>,
}

/// The mathematical value of a [`Discovery`].
pub struct DiscoveryView {
    pub nodes: Nodes,
    pub roots: Seq<Oid>,
    pub pending: Seq<Oid>,
    pub branches: Seq<BranchView>,
}

impl DiscoveryView {
    /// The commits found so far are untouched, the roots are those among
    /// them without parents, whatever they and the branches refer to is
    /// found or will be visited, and nothing else is.
    pub open spec fn wf(self) -> bool {
        &&& keyed(self.nodes)
        &&& unlinked(self.nodes)
        &&& untouched(self.nodes)
        &&& roots_of(self.nodes, self.roots)
        &&& frontier(self.nodes, self.pending)
        &&& tips_due(self.nodes, self.pending, self.branches)
        &&& traced(self.nodes, self.pending, self.branches)
    }

    /// The commit that is visited next.
    pub open spec fn top(self) -> Oid {
        self.pending.last()
    }

    /// The state after the next commit was passed over.
    pub open spec fn skipped(self) -> DiscoveryView {
        DiscoveryView { pending: self.pending.drop_last(), ..self }
    }

    /// The state in which the next commit is to be fetched.
    pub open spec fn fetching(self) -> AwaitingView {
        AwaitingView {
            nodes: self.nodes,
            roots: self.roots,
            pending: self.pending.drop_last(),
            branches: self.branches,
            wanted: self.top(),
        }
    }
}

impl View for Discovery {
    type V = DiscoveryView;

    closed spec fn view(&self) -> DiscoveryView {
        DiscoveryView {
            nodes: self.store@,
            roots: self.roots@,
            pending: self.pending@,
            branches: branch_views(self.branches@),
        }
    }
}

/// A discovery that waits for one commit to be fetched.
pub struct Awaiting {
    store: Store,
    roots: Vec<Oid>,
    pending: Vec<Oid>,
    branches: Vec<Branch>,
    wanted: Oid,
}

/// The mathematical value of an [`Awaiting`].
pub struct AwaitingView {
    pub nodes: Nodes,
    pub roots: Seq<Oid>,
    pub pending: Seq<Oid>,
    pub branches: Seq<BranchView>,
    /// The commit that is to be fetched.
    pub wanted: Oid,
}

impl AwaitingView {
    /// As for a [`Discovery`] in which the wanted commit is the next to be
    /// visited, and that commit is not stored.
    pub open spec fn wf(self) -> bool {
        &&& !self.nodes.dom().contains(self.wanted)
        &&& (DiscoveryView {
            nodes: self.nodes,
            roots: self.roots,
            pending: self.pending.push(self.wanted),
            branches: self.branches,
        }).wf()
    }

    /// The state after `commit` was supplied as the wanted commit.
    pub open spec fn supplied(self, commit: CommitView) -> DiscoveryView {
        DiscoveryView {
            nodes: self.nodes.insert(self.wanted, found(commit)),
            roots: if commit.parents.len() == 0 {
                self.roots.push(self.wanted)
            } else {
                self.roots
            },
            pending: self.pending + commit.parents,
            branches: self.branches,
        }
    }
}

impl View for Awaiting {
    type V = AwaitingView;

    closed spec fn view(&self) -> AwaitingView {
        AwaitingView {
            nodes: self.store@,
            roots: self.roots@,
            pending: self.pending@,
            branches: branch_views(self.branches@),
            wanted: self.wanted,
        }
    }
}

/// What a discovery does next.
pub enum Visit {
    /// A commit that is stored already was passed over.
    Skip(Discovery),
    /// A commit is to be fetched.
    Fetch(Awaiting),
    /// Every commit that the branches reach is stored.
    Done(Graph),
}

/// The targets of `branches`, in their order.
pub open spec fn targets(branches: Seq<BranchView>) -> Seq<Oid> {
    Seq::new(branches.len(), |i: int| branches[i].target)
}

impl Discovery {
    #[verifier::type_invariant]
    spec fn inv(self) -> bool {
        self.store.wf() && self@.wf()
    }

    /// Starts a discovery at the tips of `branches`.
    pub fn new(branches: Vec<Branch>) -> (discovery: Discovery)
        ensures
            discovery@.wf(),
            discovery@ == (DiscoveryView {
                nodes: Map::empty(),
                roots: Seq::empty(),
                pending: targets(branch_views(branches@)),
                branches: branch_views(branches@),
            }),
    {
        let mut pending: Vec<Oid> = Vec::new();
        let mut i: usize = 0;
        while i < branches.len()
            invariant
                i <= branches.len(),
                pending@.len() == i,
                forall|j: int| 0 <= j < i ==> pending@[j] == branches@[j].target,
            decreases branches.len() - i,
        {
            pending.push(branches[i].target);
            i += 1;
        }
        let store = Store::new();
        proof {
            let views = branch_views(branches@);
            assert(pending@ =~= targets(views));
            assert forall|j: int| 0 <= j < views.len() implies pending@.contains(
                #[trigger] views[j].target,
            ) by {
                assert(pending@[j] == views[j].target);
            }
            assert forall|x: Oid| #![trigger reached(store@, views, x)]
                pending@.contains(x) implies reached(store@, views, x) by {
                let j = pending@.index_of(x);
                assert(reaches(store@, views, j, seq![x], x));
            }
        }
        Discovery { store, roots: Vec::new(), pending, branches }
    }

    /// Visits the next commit: passes it over if it is stored, and asks for
    /// it to be fetched if it is not. With nothing left to visit, the
    /// children are linked and the discovery is done.
    pub fn step(self) -> (next: Visit)
        ensures
            self@.wf(),
            match next {
                Visit::Skip(d) => {
                    &&& self@.pending.len() > 0
                    &&& self@.nodes.dom().contains(self@.top())
                    &&& d@ == self@.skipped()
                    &&& d@.wf()
                },
                Visit::Fetch(a) => {
                    &&& self@.pending.len() > 0
                    &&& !self@.nodes.dom().contains(self@.top())
                    &&& a@ == self@.fetching()
                    &&& a@.wf()
                },
                Visit::Done(graph) => {
                    &&& self@.pending.len() == 0
                    &&& graph@.wf()
                    &&& graph@.roots == self@.roots
                    &&& graph@.branches == self@.branches
                    &&& graph@.nodes.dom() == self@.nodes.dom()
                    &&& forall|id: Oid| #[trigger]
                        graph@.nodes.dom().contains(id) ==> graph@.nodes[id].commit
                            == self@.nodes[id].commit
                },
            },
    {
        proof {
            use_type_invariant(&self);
        }
        let ghost before = self@;
        let ghost m = self@.nodes;
        let Discovery { mut store, roots, mut pending, branches } = self;
        match pending.pop() {
            None => {
                proof {
                    assert(closed(m)) by {
                        assert forall|c: Oid, k: int|
                            m.dom().contains(c) && 0 <= k
                                < m[c].commit.parents.len() implies m.dom().contains(
                            #[trigger] parent_of(m, c, k),
                        ) by {
                            assert(!before.pending.contains(parent_of(m, c, k)));
                        }
                    }
                }
                link(&mut store);
                proof {
                    let m2 = store@;
                    store.lemma_keys();
                    assert forall|c: Oid, k: int|
                        m2.dom().contains(c) && 0 <= k
                            < m2[c].commit.parents.len() implies m2.dom().contains(
                        #[trigger] parent_of(m2, c, k),
                    ) by {
                        assert(parent_of(m2, c, k) == parent_of(m, c, k));
                    }
                    assert forall|i: int| 0 <= i < before.branches.len() implies m2.dom().contains(
                        #[trigger] before.branches[i].target,
                    ) by {
                        assert(!before.pending.contains(before.branches[i].target));
                    }
                    assert forall|id: Oid| #[trigger] roots@.contains(id) <==> m2.dom().contains(id)
                        && m2[id].commit.parents.len() == 0 by {
                        if m2.dom().contains(id) {
                            assert(m2[id].commit == m[id].commit);
                        }
                    }
                    assert forall|id: Oid| #[trigger] m2.dom().contains(id) implies reached(
                        m2,
                        before.branches,
                        id,
                    ) by {
                        assert(reached(m, before.branches, id));
                        lemma_reached_still(m, m2, before.branches, id);
                    }
                }
                Visit::Done(Graph::from_parts(store, roots, branches))
            },
            Some(oid) => {
                let ghost rest = before.pending.drop_last();
                proof {
                    assert(oid == before.pending[before.pending.len() - 1]);
                    assert(before.pending =~= rest.push(oid));
                }
                if store.contains_key(oid) {
                    proof {
                        assert forall|x: Oid| before.pending.contains(x) implies m.dom().contains(x)
                            || rest.contains(x) by {
                            let i = before.pending.index_of(x);
                            if i < rest.len() {
                                assert(rest[i] == x);
                            }
                        }
                        assert forall|x: Oid| rest.contains(x) implies before.pending.contains(
                            x,
                        ) by {
                            let i = rest.index_of(x);
                            assert(before.pending[i] == x);
                        }
                    }
                    Visit::Skip(Discovery { store, roots, pending, branches })
                } else {
                    Visit::Fetch(Awaiting { store, roots, pending, branches, wanted: oid })
                }
            },
        }
    }
}

impl Discovery {
    /// Visits commit after commit until one is to be fetched or the
    /// discovery is done. The commits found so far stay as they are.
    pub fn advance(self) -> (next: Visit)
        ensures
            self@.wf(),
            match next {
                Visit::Skip(_) => false,
                Visit::Fetch(a) => {
                    &&& a@.wf()
                    &&& a@.nodes == self@.nodes
                    &&& a@.roots == self@.roots
                    &&& a@.branches == self@.branches
                    &&& a@.pending.len() < self@.pending.len()
                    &&& a@.pending == self@.pending.take(a@.pending.len() as int)
                    &&& a@.wanted == self@.pending[a@.pending.len() as int]
                    &&& forall|j: int|
                        a@.pending.len() < j < self@.pending.len() ==> self@.nodes.dom().contains(
                            #[trigger] self@.pending[j],
                        )
                },
                Visit::Done(graph) => {
                    &&& forall|j: int|
                        0 <= j < self@.pending.len() ==> self@.nodes.dom().contains(
                            #[trigger] self@.pending[j],
                        )
                    &&& graph@.wf()
                    &&& graph@.roots == self@.roots
                    &&& graph@.branches == self@.branches
                    &&& graph@.nodes.dom() == self@.nodes.dom()
                    &&& forall|id: Oid| #[trigger]
                        graph@.nodes.dom().contains(id) ==> graph@.nodes[id].commit
                            == self@.nodes[id].commit
                },
            },
    {
        proof {
            use_type_invariant(&self);
        }
        let ghost start = self@;
        let mut current = self;
        loop
            invariant
                start == self@,
                start.wf(),
                current@.wf(),
                current@.nodes == start.nodes,
                current@.roots == start.roots,
                current@.branches == start.branches,
                current@.pending == start.pending.take(current@.pending.len() as int),
                current@.pending.len() <= start.pending.len(),
                forall|j: int|
                    current@.pending.len() <= j < start.pending.len()
                        ==> start.nodes.dom().contains(#[trigger] start.pending[j]),
            decreases current@.pending.len(),
        {
            let ghost stood = current@;
            match current.step() {
                Visit::Skip(d) => {
                    proof {
                        assert(d@.pending =~= start.pending.take(d@.pending.len() as int));
                        assert(start.pending[stood.pending.len() - 1] == stood.top());
                    }
                    current = d;
                },
                Visit::Fetch(a) => {
                    proof {
                        assert(start.pending[stood.pending.len() - 1] == a@.wanted);
                        assert(a@.pending =~= start.pending.take(a@.pending.len() as int));
                    }
                    return Visit::Fetch(a);
                },
                Visit::Done(graph) => {
                    return Visit::Done(graph);
                },
            }
        }
    }
}

impl Awaiting {
    #[verifier::type_invariant]
    spec fn inv(self) -> bool {
        self.store.wf() && self@.wf()
    }

    /// The commit that is to be fetched.
    pub fn wanted(&self) -> (wanted: Oid)
        ensures
            wanted == self@.wanted,
            self@.wf(),
    {
        proof {
            use_type_invariant(self);
        }
        self.wanted
    }

    /// Takes in the commit that was fetched. It is stored, and its parents
    /// are visited next. A commit other than the wanted one is refused, and
    /// the discovery waits as before.
    pub fn supply(self, commit: Commit) -> (next: Result<Discovery, Awaiting>)
        ensures
            self@.wf(),
            match next {
                Ok(d) => commit@.id == self@.wanted && d@ == self@.supplied(commit@) && d@.wf(),
                Err(a) => commit@.id != self@.wanted && a@ == self@,
            },
    {
        proof {
            use_type_invariant(&self);
        }
        if commit.id != self.wanted {
            return Err(self);
        }
        let ghost before = self@;
        let ghost m = self@.nodes;
        let ghost c = commit@;
        let Awaiting { mut store, mut roots, mut pending, branches, wanted } = self;
        populate(commit, &mut store, &mut roots, &mut pending);
        proof {
            let was = before.pending.push(wanted);
            let m2 = store@;
            assert(m2.dom() =~= m.dom().insert(wanted));
            assert forall|x: Oid| was.contains(x) implies m2.dom().contains(x)
                || pending@.contains(x) by {
                let i = was.index_of(x);
                if i < before.pending.len() {
                    assert(pending@[i] == x);
                }
            }
            assert forall|x: Oid, k: int|
                m2.dom().contains(x) && 0 <= k < m2[x].commit.parents.len()
                implies m2.dom().contains(#[trigger] parent_of(m2, x, k)) || pending@.contains(
                parent_of(m2, x, k),
            ) by {
                if x == wanted {
                    assert(pending@[before.pending.len() + k] == c.parents[k]);
                } else {
                    assert(parent_of(m2, x, k) == parent_of(m, x, k));
                    assert(was.contains(parent_of(m, x, k)) || m.dom().contains(
                        parent_of(m, x, k),
                    ));
                }
            }
            assert forall|i: int| 0 <= i < before.branches.len() implies m2.dom().contains(
                #[trigger] before.branches[i].target,
            ) || pending@.contains(before.branches[i].target) by {
                assert(was.contains(before.branches[i].target) || m.dom().contains(
                    before.branches[i].target,
                ));
            }
            assert(was.contains(wanted)) by {
                assert(was[before.pending.len() as int] == wanted);
            }
            assert forall|x: Oid| #![trigger reached(m2, before.branches, x)]
                m2.dom().contains(x) || pending@.contains(x) implies reached(
                m2,
                before.branches,
                x,
            ) by {
                assert(reached(m, before.branches, wanted));
                lemma_reached_still(m, m2, before.branches, wanted);
                if m.dom().contains(x) || was.contains(x) {
                    assert(reached(m, before.branches, x));
                    lemma_reached_still(m, m2, before.branches, x);
                } else {
                    let i = pending@.index_of(x);
                    if i < before.pending.len() {
                        assert(was[i] == x);
                    } else {
                        let k = i - before.pending.len();
                        assert(x == parent_of(m2, wanted, k));
                        lemma_reached_parent(m2, before.branches, wanted, k);
                    }
                }
            }
            assert(!before.roots.contains(wanted));
            assert forall|id: Oid| #[trigger] roots@.contains(id) <==> m2.dom().contains(id)
                && m2[id].commit.parents.len() == 0 by {
                if c.parents.len() == 0 {
                    assert(roots@[before.roots.len() as int] == wanted);
                    if roots@.contains(id) && id != wanted {
                        let i = roots@.index_of(id);
                        assert(before.roots[i] == id);
                    }
                    if before.roots.contains(id) {
                        let i = before.roots.index_of(id);
                        assert(roots@[i] == id);
                    }
                }
            }
        }
        Ok(Discovery { store, roots, pending, branches })
    }
}

} // verus!
