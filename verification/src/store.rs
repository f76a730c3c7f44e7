//! The commit node store: one record per discovered commit, found by the
//! commit's identifier.
use std::collections::HashMap;
use vstd::prelude::*;
use crate::object::{Commit, CommitView, Oid};

verus! {

broadcast use vstd::std_specs::hash::group_hash_axioms;

/// What the store keeps of one discovered commit.
#[derive(Debug, PartialEq, Eq)]
pub struct Data {
    /// The commit as it was found.
    pub commit: Commit,
    /// The commits that name this one as a parent.
    pub children: Vec<Oid>,
    /// The commit that takes this one's place, once there is one.
    pub new_commit: Option<Commit>,
}

/// The mathematical value of a [`Data`].
pub struct DataView {
    pub commit: CommitView,
    pub children: Seq<Oid>,
    pub new_commit: Option<CommitView>,
}

/// The value of an optional commit.
pub open spec fn view_of(commit: Option<Commit>) -> Option<CommitView> {
    match commit {
        Some(c) => Some(c@),
        None => None,
    }
}

impl View for Data {
    type V = DataView;

    open spec fn view(&self) -> DataView {
        DataView {
            commit: self.commit@,
            children: self.children@,
            new_commit: view_of(self.new_commit),
        }
    }
}

impl Data {
    /// A record for `commit` with no children and no replacement yet.
    pub fn new(commit: Commit) -> (data: Data)
        ensures
            data@ == (DataView { commit: commit@, children: Seq::empty(), new_commit: None }),
    {
        Data { commit: commit, children: Vec::new(), new_commit: None }
    }
}

/// The records of the discovered commits. No two records are of the same
/// commit, and each is found by its commit's identifier.
///
/// The records stand in slots, in the order in which they came. An index
/// leads from the first word of an identifier to the slots of the commits
/// whose identifiers begin with it.
pub struct Store {
    nodes: Vec<Data>,
    index: HashMap<u64, Vec<usize>>,
}

/// The index lists every slot under the first word of its identifier, and
/// nothing else.
spec fn indexed(keys: Seq<Oid>, index: Map<u64, Vec<usize>>) -> bool {
    &&& forall|i: int|
        0 <= i < keys.len() ==> index.contains_key((#[trigger] keys[i]).hi)
            && index[keys[i].hi]@.contains(i as usize)
    &&& forall|h: u64, t: int|
        index.contains_key(h) && 0 <= t < index[h]@.len() ==> (#[trigger] index[h]@[t])
            < keys.len() && keys[index[h]@[t] as int].hi == h
}

impl View for Store {
    type V = Map<Oid, DataView>;

    closed spec fn view(&self) -> Map<Oid, DataView> {
        Map::new(
            |id: Oid| self.keys().contains(id),
            |id: Oid| self.nodes@[self.keys().index_of(id)]@,
        )
    }
}

impl Store {
    /// The identifiers of the stored commits, in the order of their slots.
    pub closed spec fn keys(self) -> Seq<Oid> {
        Seq::new(self.nodes@.len(), |i: int| self.nodes@[i].commit.id)
    }

    /// No identifier is stored twice, and the index is that of the slots.
    pub closed spec fn wf(self) -> bool {
        self.keys().no_duplicates() && indexed(self.keys(), self.index@)
    }

    /// The slots and the map say the same: the keys are the map's domain,
    /// without repetition, and each record is stored under its commit's
    /// identifier.
    pub proof fn lemma_keys(self)
        requires
            self.wf(),
        ensures
            self.keys().no_duplicates(),
            self@.dom().finite(),
            self@.dom() == self.keys().to_set(),
            self@.dom().len() == self.keys().len(),
            forall|id: Oid| #[trigger] self@.dom().contains(id) <==> self.keys().contains(id),
            forall|id: Oid| #[trigger] self@.dom().contains(id) ==> self@[id].commit.id == id,
    {
        assert(self@.dom() =~= self.keys().to_set());
        vstd::seq_lib::seq_to_set_is_finite(self.keys());
        self.keys().unique_seq_to_set();
    }

    /// An empty store.
    pub fn new() -> (store: Store)
        ensures
            store.wf(),
            store@ == Map::<Oid, DataView>::empty(),
            store.keys() == Seq::<Oid>::empty(),
    {
        let store = Store { nodes: Vec::new(), index: HashMap::new() };
        assert(store@ =~= Map::<Oid, DataView>::empty());
        assert(store.keys() =~= Seq::<Oid>::empty());
        store
    }

    /// The number of stored commits.
    pub fn len(&self) -> (n: usize)
        ensures
            n == self.keys().len(),
    {
        self.nodes.len()
    }

    /// The slot of the commit `id`, if it is stored.
    pub fn find(&self, id: Oid) -> (slot: Option<usize>)
        requires
            self.wf(),
        ensures
            match slot {
                Some(i) => i < self.keys().len() && self.keys()[i as int] == id
                    && self@.dom().contains(id),
                None => !self@.dom().contains(id),
            },
    {
        let bucket = match self.index.get(&id.hi) {
            Some(bucket) => bucket,
            None => {
                proof {
                    if self.keys().contains(id) {
                        let i = self.keys().index_of(id);
                        assert(self.index@.contains_key(self.keys()[i].hi));
                    }
                }
                return None;
            },
        };
        let mut t: usize = 0;
        while t < bucket.len()
            invariant
                self.wf(),
                self.index@.contains_key(id.hi),
                *bucket == self.index@[id.hi],
                t <= bucket.len(),
                forall|u: int| 0 <= u < t ==> self.keys()[#[trigger] bucket@[u] as int] != id,
            decreases bucket.len() - t,
        {
            let i = bucket[t];
            assert(self.index@[id.hi]@[t as int] < self.keys().len());
            if self.nodes[i].commit.id == id {
                assert(self.keys()[i as int] == id);
                return Some(i);
            }
            t += 1;
        }
        proof {
            if self.keys().contains(id) {
                let i = self.keys().index_of(id);
                assert(i < self.nodes.len());
                assert(bucket@.contains(i as usize));
                let u = bucket@.index_of(i as usize);
                assert(self.keys()[bucket@[u] as int] != id);
            }
        }
        None
    }

    /// Whether the commit `id` is stored.
    pub fn contains_key(&self, id: Oid) -> (b: bool)
        requires
            self.wf(),
        ensures
            b == self@.dom().contains(id),
    {
        self.find(id).is_some()
    }

    /// The record of the commit `id`, if it is stored.
    pub fn get(&self, id: Oid) -> (data: Option<&Data>)
        requires
            self.wf(),
        ensures
            data is Some <==> self@.dom().contains(id),
            data matches Some(d) ==> d@ == self@[id],
    {
        match self.find(id) {
            Some(i) => Some(self.slot(i)),
            None => None,
        }
    }

    /// The record in slot `i`.
    pub fn slot(&self, i: usize) -> (data: &Data)
        requires
            self.wf(),
            i < self.keys().len(),
        ensures
            self@.dom().contains(self.keys()[i as int]),
            data@ == self@[self.keys()[i as int]],
            data@.commit.id == self.keys()[i as int],
    {
        proof {
            assert(self.keys().index_of(self.keys()[i as int]) == i);
        }
        &self.nodes[i]
    }

    /// Stores `data` under its commit's identifier, in place of what was
    /// stored there, if anything was.
    pub fn insert(&mut self, data: Data)
        requires
            old(self).wf(),
        ensures
            final(self).wf(),
            final(self)@ == old(self)@.insert(data@.commit.id, data@),
            old(self)@.dom().contains(data@.commit.id) ==> final(self).keys() == old(self).keys(),
            !old(self)@.dom().contains(data@.commit.id) ==> final(self).keys() == old(
                self,
            ).keys().push(data@.commit.id),
    {
        let id = data.commit.id;
        let ghost value = data@;
        let ghost at: int;
        match self.find(id) {
            Some(i) => {
                self.nodes[i] = data;
                proof {
                    at = i as int;
                    assert(self.keys() =~= old(self).keys());
                }
            },
            None => {
                let slot = self.nodes.len();
                self.nodes.push(data);
                let mut bucket = match self.index.remove(&id.hi) {
                    Some(bucket) => bucket,
                    None => Vec::new(),
                };
                let ghost was = bucket@;
                bucket.push(slot);
                self.index.insert(id.hi, bucket);
                proof {
                    at = old(self).keys().len() as int;
                    assert(self.keys() =~= old(self).keys().push(id));
                    let keys = old(self).keys();
                    let index = old(self).index@;
                    assert(self.index@ =~= index.insert(id.hi, bucket));
                    assert(index.contains_key(id.hi) ==> was == index[id.hi]@);
                    assert(!index.contains_key(id.hi) ==> was.len() == 0);
                    assert forall|i: int|
                        0 <= i < self.keys().len() implies self.index@.contains_key(
                        (#[trigger] self.keys()[i]).hi,
                    ) && self.index@[self.keys()[i].hi]@.contains(i as usize) by {
                        if i == at {
                            assert(bucket@[was.len() as int] == slot);
                        } else {
                            assert(self.keys()[i] == keys[i]);
                            if keys[i].hi == id.hi {
                                let u = was.index_of(i as usize);
                                assert(bucket@[u] == i as usize);
                            }
                        }
                    }
                    assert forall|h: u64, t: int|
                        self.index@.contains_key(h) && 0 <= t
                            < self.index@[h]@.len() implies (#[trigger] self.index@[h]@[t])
                        < self.keys().len() && self.keys()[self.index@[h]@[t] as int].hi == h by {
                        if h == id.hi {
                            if t < was.len() {
                                assert(bucket@[t] == was[t]);
                                assert(index[h]@[t] < keys.len());
                            }
                        } else {
                            assert(index[h]@[t] < keys.len());
                        }
                    }
                }
            },
        }
        proof {
            let before = *old(self);
            let after = *self;
            assert(after.keys()[at] == id);
            assert forall|x: Oid| after.keys().contains(x) implies before.keys().contains(x) || x
                == id by {
                let j = after.keys().index_of(x);
                if j < before.keys().len() && x != id {
                    assert(before.keys()[j] == x);
                }
            }
            assert forall|x: Oid| before.keys().contains(x) implies after.keys().contains(x) by {
                let j = before.keys().index_of(x);
                assert(after.keys()[j] == x);
            }
            assert forall|x: Oid| after@.dom().contains(x) implies #[trigger] after@[x]
                == before@.insert(id, value)[x] by {
                let j = after.keys().index_of(x);
                if x != id {
                    assert(before.keys()[j] == x);
                    assert(before.keys().index_of(x) == j);
                } else {
                    assert(j == at);
                }
            }
            assert(after@.dom() =~= before@.insert(id, value).dom());
            assert(after@ =~= before@.insert(id, value));
        }
    }

    /// Replacing the record in one slot by another of the same commit
    /// changes the map at that commit's identifier and nowhere else.
    proof fn lemma_update(before: Store, after: Store, i: int)
        requires
            before.wf(),
            0 <= i < before.nodes@.len(),
            after.index@ == before.index@,
            after.nodes@.len() == before.nodes@.len(),
            after.nodes@[i].commit.id == before.nodes@[i].commit.id,
            forall|j: int| 0 <= j < before.nodes@.len() && j != i ==> after.nodes@[j]
                == before.nodes@[j],
        ensures
            after.wf(),
            after.keys() == before.keys(),
            after@ == before@.insert(before.keys()[i], after.nodes@[i]@),
    {
        assert(after.keys() =~= before.keys());
        assert(before.keys().index_of(before.keys()[i]) == i);
        assert forall|x: Oid| after@.dom().contains(x) implies #[trigger] after@[x]
            == before@.insert(before.keys()[i], after.nodes@[i]@)[x] by {
            let j = after.keys().index_of(x);
            assert(before.keys()[j] == x);
        }
        assert(after@ =~= before@.insert(before.keys()[i], after.nodes@[i]@));
    }

    /// Adds `child` to the children of the commit in slot `i`.
    pub fn add_child(&mut self, i: usize, child: Oid)
        requires
            old(self).wf(),
            i < old(self).keys().len(),
        ensures
            final(self).wf(),
            final(self).keys() == old(self).keys(),
            final(self)@ == old(self)@.insert(
                old(self).keys()[i as int],
                (DataView {
                    children: old(self)@[old(self).keys()[i as int]].children.push(child),
                    ..old(self)@[old(self).keys()[i as int]]
                }),
            ),
    {
        self.nodes[i].children.push(child);
        proof {
            assert(old(self).keys().index_of(old(self).keys()[i as int]) == i);
            Self::lemma_update(*old(self), *self, i as int);
        }
    }

    /// Records `commit` as the replacement of the commit in slot `i`.
    pub fn set_new_commit(&mut self, i: usize, commit: Commit)
        requires
            old(self).wf(),
            i < old(self).keys().len(),
        ensures
            final(self).wf(),
            final(self).keys() == old(self).keys(),
            final(self)@ == old(self)@.insert(
                old(self).keys()[i as int],
                (DataView {
                    new_commit: Some(commit@),
                    ..old(self)@[old(self).keys()[i as int]]
                }),
            ),
    {
        self.nodes[i].new_commit = Some(commit);
        proof {
            assert(old(self).keys().index_of(old(self).keys()[i as int]) == i);
            Self::lemma_update(*old(self), *self, i as int);
        }
    }
}

} // verus!
