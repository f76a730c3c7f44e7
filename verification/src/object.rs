//! The plain values a history is made of: identifiers, signatures, commits
//! and branches.
use vstd::bytes::{
    lemma_auto_spec_u32_to_from_le_bytes, lemma_auto_spec_u64_to_from_le_bytes,
    spec_u32_from_le_bytes, spec_u32_to_le_bytes, spec_u64_from_le_bytes, spec_u64_to_le_bytes,
    u32_from_le_bytes, u32_to_le_bytes, u64_from_le_bytes, u64_to_le_bytes,
};
use vstd::prelude::*;
use vstd::slice::slice_subrange;

verus! {

/// A 160-bit object identifier. Its twenty bytes are held as three
/// little-endian words: the first eight, the next eight and the last four.
#[derive(Clone, Copy, PartialEq, Eq, Structural, Debug, Hash)]
pub struct Oid {
    pub hi: u64,
    pub mid: u64,
    pub lo: u32,
}

impl Oid {
    /// The twenty bytes of the identifier.
    pub open spec fn bytes(self) -> Seq<u8> {
        spec_u64_to_le_bytes(self.hi) + spec_u64_to_le_bytes(self.mid) + spec_u32_to_le_bytes(
            self.lo,
        )
    }

    /// The identifier with these bytes, if they are twenty.
    pub fn from_bytes(bytes: &[u8]) -> (id: Option<Oid>)
        ensures
            id is Some <==> bytes@.len() == 20,
            id matches Some(o) ==> o.bytes() == bytes@,
    {
        if bytes.len() != 20 {
            return None;
        }
        let hi = u64_from_le_bytes(slice_subrange(bytes, 0, 8));
        let mid = u64_from_le_bytes(slice_subrange(bytes, 8, 16));
        let lo = u32_from_le_bytes(slice_subrange(bytes, 16, 20));
        let id = Oid { hi, mid, lo };
        proof {
            lemma_auto_spec_u64_to_from_le_bytes();
            lemma_auto_spec_u32_to_from_le_bytes();
            assert(spec_u64_to_le_bytes(hi) == bytes@.subrange(0, 8));
            assert(spec_u64_to_le_bytes(mid) == bytes@.subrange(8, 16));
            assert(spec_u32_to_le_bytes(lo) == bytes@.subrange(16, 20));
            assert(id.bytes() =~= bytes@);
        }
        Some(id)
    }

    /// The twenty bytes of the identifier.
    pub fn to_bytes(self) -> (bytes: Vec<u8>)
        ensures
            bytes@ == self.bytes(),
            bytes@.len() == 20,
    {
        let mut bytes = u64_to_le_bytes(self.hi);
        let mut mid = u64_to_le_bytes(self.mid);
        let mut lo = u32_to_le_bytes(self.lo);
        bytes.append(&mut mid);
        bytes.append(&mut lo);
        bytes
    }

    /// Identifiers with the same bytes are the same: no two commits are
    /// taken for one.
    pub proof fn lemma_bytes_tell_apart(a: Oid, b: Oid)
        requires
            a.bytes() == b.bytes(),
        ensures
            a == b,
    {
        lemma_auto_spec_u64_to_from_le_bytes();
        lemma_auto_spec_u32_to_from_le_bytes();
        assert(a.bytes().subrange(0, 8) =~= spec_u64_to_le_bytes(a.hi));
        assert(b.bytes().subrange(0, 8) =~= spec_u64_to_le_bytes(b.hi));
        assert(a.bytes().subrange(8, 16) =~= spec_u64_to_le_bytes(a.mid));
        assert(b.bytes().subrange(8, 16) =~= spec_u64_to_le_bytes(b.mid));
        assert(a.bytes().subrange(16, 20) =~= spec_u32_to_le_bytes(a.lo));
        assert(b.bytes().subrange(16, 20) =~= spec_u32_to_le_bytes(b.lo));
        assert(a.hi == spec_u64_from_le_bytes(spec_u64_to_le_bytes(a.hi)));
        assert(b.hi == spec_u64_from_le_bytes(spec_u64_to_le_bytes(b.hi)));
        assert(a.mid == spec_u64_from_le_bytes(spec_u64_to_le_bytes(a.mid)));
        assert(b.mid == spec_u64_from_le_bytes(spec_u64_to_le_bytes(b.mid)));
        assert(a.lo == spec_u32_from_le_bytes(spec_u32_to_le_bytes(a.lo)));
        assert(b.lo == spec_u32_from_le_bytes(spec_u32_to_le_bytes(b.lo)));
    }
}

/// A point in time: seconds since the epoch and the offset of the time zone
/// in minutes.
#[derive(Clone, Copy, PartialEq, Eq, Structural, Debug)]
pub struct Time {
    pub seconds: i64,
    pub offset_minutes: i32,
}

/// Who did something to a commit, and when.
#[derive(Debug, PartialEq, Eq)]
pub struct Signature {
    pub name: String,
    pub email: String,
    pub when: Time,
}

/// The mathematical value of a [`Signature`].
pub struct SignatureView {
    pub name: Seq<char>,
    pub email: Seq<char>,
    pub when: Time,
}

impl View for Signature {
    type V = SignatureView;

    open spec fn view(&self) -> SignatureView {
        SignatureView { name: self.name@, email: self.email@, when: self.when }
    }
}

/// The name every rewritten commit carries.
pub const ANONYMOUS_NAME: &'static str = "Anonymous";

/// The address every rewritten commit carries.
pub const ANONYMOUS_EMAIL: &'static str = "anon@ymo.us";

/// The anonymous signature made at `when`.
pub open spec fn anonymous(when: Time) -> SignatureView {
    SignatureView { name: ANONYMOUS_NAME@, email: ANONYMOUS_EMAIL@, when }
}

impl SignatureView {
    /// Name and address are the anonymous ones; the time is free.
    pub open spec fn is_anonymous(self) -> bool {
        self == anonymous(self.when)
    }
}

impl Signature {
    /// The anonymous signature made at `when`.
    pub fn anonymous(when: Time) -> (sig: Signature)
        ensures
            sig@ == anonymous(when),
    {
        Signature {
            name: ANONYMOUS_NAME.to_owned(),
            email: ANONYMOUS_EMAIL.to_owned(),
            when,
        }
    }

    /// Whether name and address are already the anonymous ones.
    pub fn is_anonymous(&self) -> (b: bool)
        ensures
            b == self@.is_anonymous(),
    {
        let name = ANONYMOUS_NAME.to_owned();
        let email = ANONYMOUS_EMAIL.to_owned();
        self.name == name && self.email == email
    }
}

impl Clone for Signature {
    fn clone(&self) -> (sig: Signature)
        ensures
            sig@ == self@,
    {
        Signature { name: self.name.clone(), email: self.email.clone(), when: self.when }
    }
}

/// Copies a list of identifiers.
pub fn clone_oids(ids: &Vec<Oid>) -> (copy: Vec<Oid>)
    ensures
        copy@ == ids@,
{
    let mut copy: Vec<Oid> = Vec::new();
    let mut i: usize = 0;
    while i < ids.len()
        invariant
            i <= ids.len(),
            copy@ == ids@.take(i as int),
        decreases ids.len() - i,
    {
        copy.push(ids[i]);
        i += 1;
        assert(ids@.take(i as int) == ids@.take(i - 1).push(ids@[i - 1]));
    }
    assert(ids@.take(ids@.len() as int) == ids@);
    copy
}

/// A commit: a tree, the parents in their order, who wrote it, who
/// committed it, and the message.
#[derive(Debug, PartialEq, Eq)]
pub struct Commit {
    pub id: Oid,
    pub tree: Oid,
    pub parents: Vec<Oid>,
    pub author: Signature,
    pub committer: Signature,
    pub message: String,
}

/// The mathematical value of a [`Commit`].
pub struct CommitView {
    pub id: Oid,
    pub tree: Oid,
    pub parents: Seq<Oid>,
    pub author: SignatureView,
    pub committer: SignatureView,
    pub message: Seq<char>,
}

impl View for Commit {
    type V = CommitView;

    open spec fn view(&self) -> CommitView {
        CommitView {
            id: self.id,
            tree: self.tree,
            parents: self.parents@,
            author: self.author@,
            committer: self.committer@,
            message: self.message@,
        }
    }
}

impl CommitView {
    /// Author and committer both carry the anonymous name and address.
    pub open spec fn is_anonymous(self) -> bool {
        self.author.is_anonymous() && self.committer.is_anonymous()
    }
}

impl Commit {
    /// Whether all four of author name, author address, committer name and
    /// committer address are already the anonymous ones.
    pub fn is_anonymous(&self) -> (b: bool)
        ensures
            b == self@.is_anonymous(),
    {
        self.author.is_anonymous() && self.committer.is_anonymous()
    }
}

impl Clone for Commit {
    fn clone(&self) -> (commit: Commit)
        ensures
            commit@ == self@,
    {
        Commit {
            id: self.id,
            tree: self.tree,
            parents: clone_oids(&self.parents),
            author: self.author.clone(),
            committer: self.committer.clone(),
            message: self.message.clone(),
        }
    }
}

/// A commit that is yet to be created: all that a commit holds but the
/// identifier, which the object store gives it.
#[derive(Debug, PartialEq, Eq)]
pub struct Draft {
    pub tree: Oid,
    pub parents: Vec<Oid>,
    pub author: Signature,
    pub committer: Signature,
    pub message: String,
}

/// The mathematical value of a [`Draft`].
pub struct DraftView {
    pub tree: Oid,
    pub parents: Seq<Oid>,
    pub author: SignatureView,
    pub committer: SignatureView,
    pub message: Seq<char>,
}

impl View for Draft {
    type V = DraftView;

    open spec fn view(&self) -> DraftView {
        DraftView {
            tree: self.tree,
            parents: self.parents@,
            author: self.author@,
            committer: self.committer@,
            message: self.message@,
        }
    }
}

impl DraftView {
    /// The commit this draft is once it is stored under `id`.
    pub open spec fn stored_as(self, id: Oid) -> CommitView {
        CommitView {
            id,
            tree: self.tree,
            parents: self.parents,
            author: self.author,
            committer: self.committer,
            message: self.message,
        }
    }
}

impl Draft {
    /// The commit this draft is once it is stored under `id`.
    pub fn stored_as(self, id: Oid) -> (commit: Commit)
        ensures
            commit@ == self@.stored_as(id),
    {
        Commit {
            id,
            tree: self.tree,
            parents: self.parents,
            author: self.author,
            committer: self.committer,
            message: self.message,
        }
    }
}

/// A local branch: its name, the commit it points at, and whether it is the
/// one checked out.
#[derive(Debug, PartialEq, Eq)]
pub struct Branch {
    pub name: String,
    pub target: Oid,
    pub is_head: bool,
}

/// The mathematical value of a [`Branch`].
pub struct BranchView {
    pub name: Seq<char>,
    pub target: Oid,
    pub is_head: bool,
}

impl View for Branch {
    type V = BranchView;

    open spec fn view(&self) -> BranchView {
        BranchView { name: self.name@, target: self.target, is_head: self.is_head }
    }
}

/// The values of a list of branches.
pub open spec fn branch_views(branches: Seq<Branch>) -> Seq<BranchView> {
    Seq::new(branches.len(), |i: int| branches[i]@)
}

/// Adds the identifiers of `more` to the end of `ids`.
pub fn append_oids(ids: &mut Vec<Oid>, more: &Vec<Oid>)
    ensures
        final(ids)@ == old(ids)@ + more@,
{
    let mut i: usize = 0;
    while i < more.len()
        invariant
            i <= more.len(),
            ids@ == old(ids)@ + more@.take(i as int),
        decreases more.len() - i,
    {
        ids.push(more[i]);
        i += 1;
        assert(more@.take(i as int) == more@.take(i - 1).push(more@[i - 1]));
        assert(ids@ =~= old(ids)@ + more@.take(i as int));
    }
    assert(more@.take(more@.len() as int) == more@);
}

} // verus!
