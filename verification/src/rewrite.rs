//! The dependency-ordered rebuild: a commit is rebuilt once all its parents
//! have been, and its children are looked at again after it.
use vstd::prelude::*;
use crate::graph::{
    acyclic, all_rebuilt, carries_through, draft, grown, kept_since,
    lemma_grown_acyclic, lemma_parked_again,
    lemma_rebuilt_as, lemma_settled, new_parents, ordered, parent_of, parked, parked_but, ready,
    rebuilt,
    rebuilt_as, rebuilt_well, replacement, sound, tips_in, within, Graph, Nodes,
};
use crate::object::{
    append_oids, branch_views, Branch, BranchView, CommitView, Draft, DraftView, Oid, Signature,
};
use crate::store::{Data, Store};

verus! {

/// The replacements of the parents of `oid`, in the parents' order, if
/// `oid` is stored and all of them have one: the readiness guard and its
/// yield in one pass.
pub fn get_parents(oid: Oid, store: &Store) -> (parents: Option<Vec<Oid>>)
    requires
        store.wf(),
    ensures
        parents is Some <==> store@.dom().contains(oid) && ready(store@, oid),
        parents matches Some(v) ==> v@ == new_parents(store@, oid),
{
    let ghost m = store@;
    let data = match store.get(oid) {
        Some(data) => data,
        None => {
            return None;
        },
    };
    let mut found: Vec<Oid> = Vec::new();
    let mut k: usize = 0;
    while k < data.commit.parents.len()
        invariant
            store.wf(),
            m == store@,
            data@ == m[oid],
            k <= data.commit.parents.len(),
            found@.len() == k,
            forall|j: int| 0 <= j < k ==> rebuilt(m, #[trigger] parent_of(m, oid, j)),
            forall|j: int|
                0 <= j < k ==> found@[j] == m[parent_of(m, oid, j)].new_commit.unwrap().id,
        decreases data.commit.parents.len() - k,
    {
        let parent = data.commit.parents[k];
        assert(parent == parent_of(m, oid, k as int));
        match store.get(parent) {
            Some(Data { new_commit: Some(c), .. }) => {
                found.push(c.id);
            },
            _ => {
                return None;
            },
        }
        k += 1;
    }
    assert(found@ =~= new_parents(m, oid));
    Some(found)
}

/// What is to be done about one commit.
#[derive(Debug)]
pub enum Rebuild {
    /// Nothing now: the commit has its replacement already, or a parent of
    /// it has none yet.
    Wait,
    /// The commit is its own replacement: nothing would change.
    Keep,
    /// This commit is to be created and takes the place of the commit.
    Create(Draft),
}

/// Decides what is to be done about the commit `oid`: nothing while it has
/// its replacement or is not ready, and else whether it is kept as it is or
/// which commit takes its place. Nothing is done about a commit that is not
/// stored.
pub fn rebuild(oid: Oid, store: &Store) -> (what: Rebuild)
    requires
        store.wf(),
    ensures
        match what {
            Rebuild::Wait => !store@.dom().contains(oid) || rebuilt(store@, oid) || !ready(
                store@,
                oid,
            ),
            Rebuild::Keep => {
                &&& store@.dom().contains(oid)
                &&& !rebuilt(store@, oid)
                &&& ready(store@, oid)
                &&& carries_through(store@, oid)
            },
            Rebuild::Create(d) => {
                &&& store@.dom().contains(oid)
                &&& !rebuilt(store@, oid)
                &&& ready(store@, oid)
                &&& !carries_through(store@, oid)
                &&& d@ == draft(store@, oid)
            },
        },
{
    let data = match store.get(oid) {
        Some(data) => data,
        None => {
            return Rebuild::Wait;
        },
    };
    if data.new_commit.is_some() {
        return Rebuild::Wait;
    }
    match get_parents(oid, store) {
        None => Rebuild::Wait,
        Some(parents) => {
            if data.commit.is_anonymous() && same_oids(&parents, &data.commit.parents) {
                Rebuild::Keep
            } else {
                Rebuild::Create(
                    Draft {
                        tree: data.commit.tree,
                        parents,
                        author: Signature::anonymous(data.commit.author.when),
                        committer: Signature::anonymous(data.commit.committer.when),
                        message: data.commit.message.clone(),
                    },
                )
            }
        },
    }
}

/// Whether two lists hold the same identifiers in the same order.
pub fn same_oids(a: &Vec<Oid>, b: &Vec<Oid>) -> (same: bool)
    ensures
        same == (a@ == b@),
{
    if a.len() != b.len() {
        return false;
    }
    let mut i: usize = 0;
    while i < a.len()
        invariant
            a.len() == b.len(),
            i <= a.len(),
            forall|j: int| 0 <= j < i ==> a@[j] == b@[j],
        decreases a.len() - i,
    {
        if a[i] != b[i] {
            return false;
        }
        i += 1;
    }
    assert(a@ =~= b@);
    true
}

/// The looks still owed to the commits `keys`: one for each commit without
/// a replacement, and one for each child of such a commit.
spec fn debt(m: Nodes, keys: Seq<Oid>) -> nat
    decreases keys.len(),
{
    if keys.len() == 0 {
        0
    } else {
        debt(m, keys.drop_last()) + if rebuilt(m, keys.last()) {
            0
        } else {
            m[keys.last()].children.len() + 1
        }
    }
}

/// A replacement of a commit that is not among `keys` leaves their debt.
proof fn lemma_debt_same(m: Nodes, keys: Seq<Oid>, id: Oid, r: CommitView)
    requires
        !keys.contains(id),
    ensures
        debt(rebuilt_as(m, id, r), keys) == debt(m, keys),
    decreases keys.len(),
{
    if keys.len() > 0 {
        let front = keys.drop_last();
        assert(keys.last() == keys[keys.len() - 1]);
        assert forall|x: Oid| front.contains(x) implies keys.contains(x) by {
            let i = front.index_of(x);
            assert(keys[i] == x);
        }
        lemma_debt_same(m, front, id, r);
    }
}

/// A replacement pays the debt of its commit: one look for the commit and
/// one for each of its children.
proof fn lemma_debt_paid(m: Nodes, keys: Seq<Oid>, id: Oid, r: CommitView)
    requires
        keys.no_duplicates(),
        keys.contains(id),
        m.dom().contains(id),
        !rebuilt(m, id),
    ensures
        debt(rebuilt_as(m, id, r), keys) + m[id].children.len() + 1 == debt(m, keys),
    decreases keys.len(),
{
    let front = keys.drop_last();
    let at = keys.index_of(id);
    if keys.last() == id {
        assert forall|x: Oid| front.contains(x) implies x != id by {
            let i = front.index_of(x);
            assert(keys[i] == x);
        }
        lemma_debt_same(m, front, id, r);
    } else {
        assert(front[at] == id);
        lemma_debt_paid(m, front, id, r);
    }
}

/// A rebuild under way: the history with the replacements made so far, and
/// the commits that are to be looked at, the next one last.
pub struct Rewriter {
    store: Store,
    pending: Vec<Oid>,
    branches: Vec<Branch>,
}

/// The mathematical value of a [`Rewriter`].
pub struct RewriterView {
    pub nodes: Nodes,
    pub pending: Seq<Oid>,
    pub branches: Seq<BranchView>,
}

impl RewriterView {
    /// The history is in order, every replacement made so far is the right
    /// one, and no commit that could be rebuilt now has been lost sight of.
    pub open spec fn wf(self) -> bool {
        &&& sound(self.nodes)
        &&& rebuilt_well(self.nodes)
        &&& tips_in(self.nodes, self.branches)
        &&& parked(self.nodes, self.pending)
        &&& within(self.nodes, self.pending)
    }

    /// The commit that is looked at next.
    pub open spec fn top(self) -> Oid {
        self.pending.last()
    }

    /// Whether the next commit is passed over: it has its replacement, or a
    /// parent of it has none.
    pub open spec fn waits(self) -> bool {
        rebuilt(self.nodes, self.top()) || !ready(self.nodes, self.top())
    }

    /// The state after the next commit was passed over.
    pub open spec fn skipped(self) -> RewriterView {
        RewriterView { pending: self.pending.drop_last(), ..self }
    }

    /// The state after the next commit was kept as its own replacement.
    pub open spec fn kept(self) -> RewriterView {
        RewriterView {
            nodes: rebuilt_as(self.nodes, self.top(), self.nodes[self.top()].commit),
            pending: self.pending.drop_last() + self.nodes[self.top()].children,
            ..self
        }
    }

    /// The state after one look at the next commit that asks nothing of the
    /// caller: the commit is passed over, or kept as its own replacement. A
    /// state with nothing left to look at, or with a commit to be created
    /// next, stays as it is.
    pub open spec fn looked(self) -> RewriterView {
        if self.pending.len() == 0 {
            self
        } else if self.waits() {
            self.skipped()
        } else if carries_through(self.nodes, self.top()) {
            self.kept()
        } else {
            self
        }
    }

    /// The state after `n` such looks.
    pub open spec fn looked_times(self, n: nat) -> RewriterView
        decreases n,
    {
        if n == 0 {
            self
        } else {
            self.looked_times((n - 1) as nat).looked()
        }
    }

    /// Nothing is left to look at, or a commit is to be created next.
    pub open spec fn rests(self) -> bool {
        self.pending.len() == 0 || (!self.waits() && !carries_through(self.nodes, self.top()))
    }

    /// The state at which the looks come to rest.
    pub open spec fn settles_at(self, rest: RewriterView) -> bool {
        rest.rests() && exists|n: nat| rest == #[trigger] self.looked_times(n)
    }

    /// Further looks change nothing once the looks have come to rest.
    pub proof fn lemma_rest_stays(self, n: nat, more: nat)
        requires
            self.looked_times(n).rests(),
        ensures
            self.looked_times(n + more) == self.looked_times(n),
        decreases more,
    {
        if more > 0 {
            self.lemma_rest_stays(n, (more - 1) as nat);
            assert(self.looked_times(n + more) == self.looked_times(
                (n + more - 1) as nat,
            ).looked());
        }
    }

    /// The looks come to rest at one state only.
    pub proof fn lemma_settles_once(self, a: RewriterView, b: RewriterView)
        requires
            self.settles_at(a),
            self.settles_at(b),
        ensures
            a == b,
    {
        let n = choose|n: nat| a == #[trigger] self.looked_times(n);
        let k = choose|k: nat| b == #[trigger] self.looked_times(k);
        if n <= k {
            self.lemma_rest_stays(n, (k - n) as nat);
            assert(n + (k - n) as nat == k);
        } else {
            self.lemma_rest_stays(k, (n - k) as nat);
            assert(k + (n - k) as nat == n);
        }
    }

    /// The state in which a commit is to be created for the next commit.
    pub open spec fn creating(self) -> PendingView {
        PendingView {
            nodes: self.nodes,
            pending: self.pending.drop_last(),
            branches: self.branches,
            target: self.top(),
            draft: draft(self.nodes, self.top()),
        }
    }
}

impl View for Rewriter {
    type V = RewriterView;

    closed spec fn view(&self) -> RewriterView {
        RewriterView {
            nodes: self.store@,
            pending: self.pending@,
            branches: branch_views(self.branches@),
        }
    }
}

/// A rebuild that waits for one commit to be created.
pub struct PendingCommit {
    store: Store,
    pending: Vec<Oid>,
    branches: Vec<Branch>,
    target: Oid,
    draft: Draft,
}

/// The mathematical value of a [`PendingCommit`].
pub struct PendingView {
    pub nodes: Nodes,
    pub pending: Seq<Oid>,
    pub branches: Seq<BranchView>,
    /// The commit whose replacement is to be created.
    pub target: Oid,
    /// What is to be created.
    pub draft: DraftView,
}

impl PendingView {
    /// As for a [`Rewriter`], with the target set aside: it is ready, has no
    /// replacement, would change, and the draft is its replacement.
    pub open spec fn wf(self) -> bool {
        &&& sound(self.nodes)
        &&& rebuilt_well(self.nodes)
        &&& tips_in(self.nodes, self.branches)
        &&& parked_but(self.nodes, self.pending, self.target)
        &&& within(self.nodes, self.pending)
        &&& self.nodes.dom().contains(self.target)
        &&& !rebuilt(self.nodes, self.target)
        &&& ready(self.nodes, self.target)
        &&& !carries_through(self.nodes, self.target)
        &&& self.draft == draft(self.nodes, self.target)
    }

    /// The state after the draft was stored as `new_id`.
    pub open spec fn created(self, new_id: Oid) -> RewriterView {
        RewriterView {
            nodes: rebuilt_as(self.nodes, self.target, self.draft.stored_as(new_id)),
            pending: self.pending + self.nodes[self.target].children,
            branches: self.branches,
        }
    }
}

impl View for PendingCommit {
    type V = PendingView;

    closed spec fn view(&self) -> PendingView {
        PendingView {
            nodes: self.store@,
            pending: self.pending@,
            branches: branch_views(self.branches@),
            target: self.target,
            draft: self.draft@,
        }
    }
}

/// A finished rebuild: every commit has its replacement.
pub struct Rewritten {
    store: Store,
    branches: Vec<Branch>,
}

/// The mathematical value of a [`Rewritten`].
pub struct RewrittenView {
    pub nodes: Nodes,
    pub branches: Seq<BranchView>,
}

impl RewrittenView {
    /// The history is in order, and every commit has the right replacement.
    pub open spec fn wf(self) -> bool {
        &&& sound(self.nodes)
        &&& rebuilt_well(self.nodes)
        &&& all_rebuilt(self.nodes)
        &&& tips_in(self.nodes, self.branches)
    }
}

impl View for Rewritten {
    type V = RewrittenView;

    closed spec fn view(&self) -> RewrittenView {
        RewrittenView { nodes: self.store@, branches: branch_views(self.branches@) }
    }
}

impl Rewritten {
    #[verifier::type_invariant]
    spec fn inv(self) -> bool {
        self.store.wf() && self@.wf()
    }

    /// The branches of the history.
    pub fn branches(&self) -> (branches: &Vec<Branch>)
        ensures
            branch_views(branches@) == self@.branches,
    {
        &self.branches
    }

    /// The commits with their replacements.
    pub fn store(&self) -> (store: &Store)
        ensures
            store.wf(),
            store@ == self@.nodes,
            self@.wf(),
    {
        proof {
            use_type_invariant(self);
        }
        &self.store
    }
}

/// What a rebuild does next.
pub enum Step {
    /// One commit was looked at and nothing is asked of the caller.
    Continue(Rewriter),
    /// A commit is to be created.
    Create(PendingCommit),
    /// Every commit has its replacement.
    Done(Rewritten),
    /// Nothing is left to look at, and this commit has no replacement: the
    /// history holds a cycle.
    Stalled(Oid),
}

/// The first stored commit without a replacement, in the order of the
/// slots, if there is one.
pub fn first_unrebuilt(store: &Store) -> (found: Option<Oid>)
    requires
        store.wf(),
    ensures
        match found {
            Some(id) => {
                &&& store@.dom().contains(id)
                &&& !rebuilt(store@, id)
                &&& exists|i: int|
                    0 <= i < store.keys().len() && #[trigger] store.keys()[i] == id
                        && forall|j: int|
                        0 <= j < i ==> rebuilt(store@, #[trigger] store.keys()[j])
            },
            None => all_rebuilt(store@),
        },
{
    let mut i: usize = 0;
    while i < store.len()
        invariant
            store.wf(),
            i <= store.keys().len(),
            forall|j: int| 0 <= j < i ==> rebuilt(store@, #[trigger] store.keys()[j]),
        decreases store.keys().len() - i,
    {
        let data = store.slot(i);
        if data.new_commit.is_none() {
            assert(store.keys()[i as int] == data.commit.id);
            return Some(data.commit.id);
        }
        i += 1;
    }
    proof {
        store.lemma_keys();
        assert forall|id: Oid| #[trigger] store@.dom().contains(id) implies rebuilt(
            store@,
            id,
        ) by {
            let j = store.keys().index_of(id);
            assert(store.keys()[j] == id);
        }
    }
    None
}

impl Rewriter {
    #[verifier::type_invariant]
    spec fn inv(self) -> bool {
        self.store.wf() && self@.wf()
    }

    /// A bound on the steps that are left: it falls with every step.
    pub closed spec fn budget(self) -> nat {
        self.pending@.len() + debt(self.store@, self.store.keys())
    }

    /// Starts the rebuild of a discovered history at its roots.
    pub fn new(graph: Graph) -> (rewriter: Rewriter)
        ensures
            graph@.wf(),
            rewriter@.wf(),
            rewriter@ == (RewriterView {
                nodes: graph@.nodes,
                pending: graph@.roots,
                branches: graph@.branches,
            }),
    {
        let (store, roots, branches) = graph.into_parts();
        proof {
            let m = store@;
            assert forall|x: Oid| #[trigger]
                m.dom().contains(x) && ready(m, x) && !rebuilt(m, x) implies roots@.contains(
                x,
            ) by {
                if m[x].commit.parents.len() > 0 {
                    assert(rebuilt(m, parent_of(m, x, 0)));
                }
            }
            assert forall|i: int| 0 <= i < roots@.len() implies m.dom().contains(
                #[trigger] roots@[i],
            ) by {
                assert(roots@.contains(roots@[i]));
            }
            assert(ordered(m, |y: Oid| 0nat));
        }
        Rewriter { store, pending: roots, branches }
    }

    /// Looks at the next commit: passes it over, keeps it as its own
    /// replacement, or asks for its replacement to be created. With nothing
    /// left to look at the rebuild is done, or it has stalled on a cycle.
    pub fn step(self) -> (next: Step)
        ensures
            self@.wf(),
            match next {
                Step::Continue(r) => {
                    &&& self@.pending.len() > 0
                    &&& !self@.waits() ==> carries_through(self@.nodes, self@.top())
                    &&& r@ == if self@.waits() {
                        self@.skipped()
                    } else {
                        self@.kept()
                    }
                    &&& r@.wf()
                    &&& r.budget() < self.budget()
                },
                Step::Create(p) => {
                    &&& self@.pending.len() > 0
                    &&& !self@.waits()
                    &&& !carries_through(self@.nodes, self@.top())
                    &&& p@ == self@.creating()
                    &&& p@.wf()
                    &&& p.budget() < self.budget()
                },
                Step::Done(done) => {
                    &&& self@.pending.len() == 0
                    &&& all_rebuilt(self@.nodes)
                    &&& done@ == (RewrittenView { nodes: self@.nodes, branches: self@.branches })
                    &&& done@.wf()
                },
                Step::Stalled(id) => {
                    &&& self@.pending.len() == 0
                    &&& self@.nodes.dom().contains(id)
                    &&& !rebuilt(self@.nodes, id)
                    &&& !acyclic(self@.nodes)
                },
            },
    {
        proof {
            use_type_invariant(&self);
        }
        let ghost before = self@;
        let ghost m = self@.nodes;
        let Rewriter { mut store, mut pending, branches } = self;
        match pending.pop() {
            None => {
                match first_unrebuilt(&store) {
                    None => Step::Done(Rewritten { store, branches }),
                    Some(id) => {
                        proof {
                            assert(before.pending =~= Seq::<Oid>::empty());
                            if acyclic(m) {
                                lemma_settled(m);
                            }
                        }
                        Step::Stalled(id)
                    },
                }
            },
            Some(oid) => {
                let ghost rest = before.pending.drop_last();
                proof {
                    assert(oid == before.pending[before.pending.len() - 1]);
                    assert(within(m, rest));
                    assert forall|x: Oid| #[trigger]
                        m.dom().contains(x) && x != oid && ready(m, x) && !rebuilt(
                            m,
                            x,
                        ) implies rest.contains(x) by {
                        let i = before.pending.index_of(x);
                        assert(rest[i] == x);
                    }
                    store.lemma_keys();
                }
                match rebuild(oid, &store) {
                    Rebuild::Wait => Step::Continue(Rewriter { store, pending, branches }),
                    Rebuild::Keep => {
                        let at = store.find(oid).unwrap();
                        let data = store.slot(at);
                        let same = data.commit.clone();
                        append_oids(&mut pending, &data.children);
                        store.set_new_commit(at, same);
                        proof {
                            assert(same@ == replacement(m, oid, oid));
                            lemma_rebuilt_as(m, oid, same@);
                            lemma_parked_again(m, oid, same@, rest);
                            lemma_debt_paid(m, store.keys(), oid, same@);
                            assert(tips_in(store@, before.branches));
                        }
                        Step::Continue(Rewriter { store, pending, branches })
                    },
                    Rebuild::Create(draft) => Step::Create(
                        PendingCommit { store, pending, branches, target: oid, draft },
                    ),
                }
            },
        }
    }
}

impl Rewriter {
    /// Looks at commit after commit until one is to be created, the rebuild
    /// is done, or it has stalled: as many single steps as it takes.
    pub fn advance(self) -> (next: Step)
        ensures
            self@.wf(),
            match next {
                Step::Continue(_) => false,
                Step::Create(p) => {
                    &&& exists|rest: RewriterView|
                        #![trigger self@.settles_at(rest)]
                        self@.settles_at(rest) && rest.pending.len() > 0 && p@ == rest.creating()
                    &&& p@.wf()
                    &&& grown(self@.nodes, p@.nodes)
                    &&& kept_since(self@.nodes, p@.nodes)
                    &&& p.budget() < self.budget()
                },
                Step::Done(done) => {
                    &&& self@.settles_at(
                        RewriterView {
                            nodes: done@.nodes,
                            pending: Seq::empty(),
                            branches: done@.branches,
                        },
                    )
                    &&& done@.wf()
                    &&& done@.branches == self@.branches
                    &&& grown(self@.nodes, done@.nodes)
                    &&& kept_since(self@.nodes, done@.nodes)
                },
                Step::Stalled(id) => {
                    &&& exists|rest: RewriterView|
                        #![trigger self@.settles_at(rest)]
                        self@.settles_at(rest) && rest.pending.len() == 0
                            && rest.nodes.dom().contains(id) && !rebuilt(rest.nodes, id)
                    &&& self@.nodes.dom().contains(id)
                    &&& !acyclic(self@.nodes)
                },
            },
    {
        proof {
            use_type_invariant(&self);
        }
        let ghost start = self@;
        let ghost bound = self.budget();
        let ghost looks: nat = 0;
        let mut current = self;
        loop
            invariant
                start == self@,
                start.wf(),
                current@.wf(),
                current@ == start.looked_times(looks),
                grown(start.nodes, current@.nodes),
                kept_since(start.nodes, current@.nodes),
                current@.branches == start.branches,
                bound == self.budget(),
                current.budget() <= bound,
            decreases current.budget(),
        {
            let ghost m = current@.nodes;
            let ghost stood = current@;
            match current.step() {
                Step::Continue(r) => {
                    proof {
                        if !stood.waits() {
                            lemma_rebuilt_as(m, stood.top(), m[stood.top()].commit);
                        }
                        assert(r@ == stood.looked());
                        looks = looks + 1;
                    }
                    current = r;
                },
                Step::Create(p) => {
                    proof {
                        assert(start.settles_at(stood));
                    }
                    return Step::Create(p);
                },
                Step::Done(done) => {
                    proof {
                        assert(stood.pending =~= Seq::<Oid>::empty());
                        assert(start.settles_at(stood));
                    }
                    return Step::Done(done);
                },
                Step::Stalled(id) => {
                    proof {
                        lemma_grown_acyclic(start.nodes, m);
                        assert(start.settles_at(stood));
                    }
                    return Step::Stalled(id);
                },
            }
        }
    }
}

impl PendingCommit {
    #[verifier::type_invariant]
    spec fn inv(self) -> bool {
        self.store.wf() && self@.wf()
    }

    /// A bound on the steps that are left: it falls with every step.
    pub closed spec fn budget(self) -> nat {
        self.pending@.len() + debt(self.store@, self.store.keys())
    }

    /// The commit whose replacement is to be created.
    pub fn target(&self) -> (target: Oid)
        ensures
            target == self@.target,
    {
        self.target
    }

    /// What is to be created.
    pub fn draft(&self) -> (draft: &Draft)
        ensures
            draft@ == self@.draft,
            self@.wf(),
    {
        proof {
            use_type_invariant(self);
        }
        &self.draft
    }

    /// Takes note that the draft was stored as `new_id`: the target has its
    /// replacement, and its children are looked at next.
    pub fn created(self, new_id: Oid) -> (rewriter: Rewriter)
        ensures
            self@.wf(),
            rewriter@ == self@.created(new_id),
            rewriter@.wf(),
            rewriter.budget() < self.budget(),
    {
        proof {
            use_type_invariant(&self);
        }
        let ghost before = self@;
        let ghost m = self@.nodes;
        let PendingCommit { mut store, mut pending, branches, target, draft } = self;
        proof {
            store.lemma_keys();
        }
        let at = store.find(target).unwrap();
        let commit = draft.stored_as(new_id);
        append_oids(&mut pending, &store.slot(at).children);
        let ghost r = commit@;
        store.set_new_commit(at, commit);
        proof {
            lemma_rebuilt_as(m, target, r);
            lemma_parked_again(m, target, r, before.pending);
            lemma_debt_paid(m, store.keys(), target, r);
            assert(tips_in(store@, before.branches));
        }
        Rewriter { store, pending, branches }
    }
}

} // verus!
