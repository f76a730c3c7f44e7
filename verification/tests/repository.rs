use git2::{BranchType, ObjectType, Repository, ResetType};
use git_anonymize::branches::RefUpdate;
use git_anonymize::discovery::{Discovery, Visit};
use git_anonymize::object::{Branch, Commit, Oid, Signature, Time};
use git_anonymize::rewrite::{Rewriter, Step};

fn from_git(id: git2::Oid) -> Oid {
    Oid::from_bytes(id.as_bytes()).unwrap()
}

fn to_git(id: Oid) -> git2::Oid {
    git2::Oid::from_bytes(&id.to_bytes()).unwrap()
}

fn signature(sig: &git2::Signature) -> Signature {
    Signature {
        name: sig.name().unwrap().to_string(),
        email: sig.email().unwrap().to_string(),
        when: Time { seconds: sig.when().seconds(), offset_minutes: sig.when().offset_minutes() },
    }
}

fn to_git_signature(sig: &Signature) -> git2::Signature<'static> {
    let when = git2::Time::new(sig.when.seconds, sig.when.offset_minutes);
    git2::Signature::new(&sig.name, &sig.email, &when).unwrap()
}

fn commit(c: &git2::Commit) -> Commit {
    Commit {
        id: from_git(c.id()),
        tree: from_git(c.tree_id()),
        parents: c.parent_ids().map(from_git).collect(),
        author: signature(&c.author()),
        committer: signature(&c.committer()),
        message: c.message().unwrap().to_string(),
    }
}

fn branches(repo: &Repository) -> Vec<Branch> {
    let mut found = Vec::new();
    for entry in repo.branches(Some(BranchType::Local)).unwrap() {
        let (b, _) = entry.unwrap();
        found.push(Branch {
            name: b.name().unwrap().unwrap().to_string(),
            target: from_git(b.get().target().unwrap()),
            is_head: b.is_head(),
        });
    }
    found
}

/// Rewrites the repository and says how many commits were created.
fn anonymize(repo: &Repository) -> usize {
    let mut discovery = Discovery::new(branches(repo));
    let graph = loop {
        match discovery.advance() {
            Visit::Fetch(awaiting) => {
                let found = repo.find_commit(to_git(awaiting.wanted())).unwrap();
                discovery = match awaiting.supply(commit(&found)) {
                    Ok(d) => d,
                    Err(_) => panic!("the wanted commit was refused"),
                };
            }
            Visit::Done(graph) => break graph,
            Visit::Skip(_) => unreachable!(),
        }
    };
    let mut created = 0;
    let mut rewriter = Rewriter::new(graph);
    let done = loop {
        match rewriter.advance() {
            Step::Create(pending) => {
                let draft = pending.draft();
                let tree = repo.find_tree(to_git(draft.tree)).unwrap();
                let parents: Vec<git2::Commit> =
                    draft.parents.iter().map(|p| repo.find_commit(to_git(*p)).unwrap()).collect();
                let parents: Vec<&git2::Commit> = parents.iter().collect();
                let new_id = repo
                    .commit(
                        None,
                        &to_git_signature(&draft.author),
                        &to_git_signature(&draft.committer),
                        &draft.message,
                        &tree,
                        &parents,
                    )
                    .unwrap();
                created += 1;
                rewriter = pending.created(from_git(new_id));
            }
            Step::Done(done) => break done,
            Step::Stalled(id) => panic!("stalled at {:?}", id),
            Step::Continue(_) => unreachable!(),
        }
    };
    for update in done.branch_updates() {
        match update {
            RefUpdate::Branch { name, target } => {
                let c = repo.find_commit(to_git(target)).unwrap();
                repo.branch(&name, &c, true).unwrap();
            }
            RefUpdate::Reset { target } => {
                let o = repo.find_object(to_git(target), Some(ObjectType::Commit)).unwrap();
                repo.reset(&o, ResetType::Hard, None).unwrap();
            }
        }
    }
    created
}

fn write(
    repo: &Repository,
    update: Option<&str>,
    name: &str,
    seconds: i64,
    message: &str,
    parents: &[git2::Oid],
) -> git2::Oid {
    let tree = repo.find_tree(repo.treebuilder(None).unwrap().write().unwrap()).unwrap();
    let author =
        git2::Signature::new(name, "someone@example.org", &git2::Time::new(seconds, 90)).unwrap();
    let committer =
        git2::Signature::new("Carol", "carol@example.org", &git2::Time::new(seconds + 5, -60))
            .unwrap();
    let parents: Vec<git2::Commit> =
        parents.iter().map(|p| repo.find_commit(*p).unwrap()).collect();
    let parents: Vec<&git2::Commit> = parents.iter().collect();
    repo.commit(update, &author, &committer, message, &tree, &parents).unwrap()
}

fn tip(repo: &Repository, name: &str) -> git2::Oid {
    repo.find_branch(name, BranchType::Local).unwrap().get().target().unwrap()
}

fn head_name(repo: &Repository) -> String {
    repo.head().unwrap().shorthand().unwrap().to_string()
}

#[test]
fn a_repository_is_rewritten_and_its_branches_moved() {
    let dir = tempfile::tempdir().unwrap();
    let repo = Repository::init(dir.path()).unwrap();
    let a = write(&repo, Some("HEAD"), "Ada", 1_000, "first\n", &[]);
    let b = write(&repo, Some("HEAD"), "Bob", 2_000, "second\n", &[a]);
    let c = write(&repo, None, "Cy", 3_000, "side\n", &[a]);
    repo.branch("side", &repo.find_commit(c).unwrap(), false).unwrap();
    let d = write(&repo, Some("HEAD"), "Di", 4_000, "merge\n", &[b, c]);
    let main = head_name(&repo);
    assert_eq!(tip(&repo, &main), d);

    assert_eq!(anonymize(&repo), 4);

    let new_d = repo.find_commit(tip(&repo, &main)).unwrap();
    let new_c = repo.find_commit(tip(&repo, "side")).unwrap();
    assert_ne!(new_d.id(), d);
    assert_ne!(new_c.id(), c);
    assert_eq!(repo.head().unwrap().target().unwrap(), new_d.id());
    assert_eq!(new_d.parent_count(), 2);
    let new_b = new_d.parent(0).unwrap();
    assert_eq!(new_d.parent_id(1).unwrap(), new_c.id());
    assert_eq!(new_b.parent_count(), 1);
    assert_eq!(new_c.parent_count(), 1);
    assert_eq!(new_b.parent_id(0).unwrap(), new_c.parent_id(0).unwrap());
    let new_a = new_b.parent(0).unwrap();
    assert_eq!(new_a.parent_count(), 0);

    let pairs = [(a, &new_a), (b, &new_b), (c, &new_c), (d, &new_d)];
    for (old, new) in pairs.iter() {
        let old = repo.find_commit(*old).unwrap();
        assert_eq!(new.tree_id(), old.tree_id());
        assert_eq!(new.message_bytes(), old.message_bytes());
        assert_eq!(new.author().name().unwrap(), "Anonymous");
        assert_eq!(new.author().email().unwrap(), "anon@ymo.us");
        assert_eq!(new.committer().name().unwrap(), "Anonymous");
        assert_eq!(new.committer().email().unwrap(), "anon@ymo.us");
        assert_eq!(new.author().when().seconds(), old.author().when().seconds());
        assert_eq!(new.author().when().offset_minutes(), 90);
        assert_eq!(new.committer().when().seconds(), old.committer().when().seconds());
        assert_eq!(new.committer().when().offset_minutes(), -60);
    }
}

#[test]
fn a_second_run_over_a_repository_creates_nothing() {
    let dir = tempfile::tempdir().unwrap();
    let repo = Repository::init(dir.path()).unwrap();
    let a = write(&repo, Some("HEAD"), "Ada", 1_000, "first\n", &[]);
    let b = write(&repo, Some("HEAD"), "Bob", 2_000, "second\n", &[a]);
    repo.branch("old", &repo.find_commit(a).unwrap(), false).unwrap();
    let main = head_name(&repo);
    assert_eq!(tip(&repo, &main), b);

    assert_eq!(anonymize(&repo), 2);
    let first_main = tip(&repo, &main);
    let first_old = tip(&repo, "old");
    assert_ne!(first_main, b);
    assert_ne!(first_old, a);

    assert_eq!(anonymize(&repo), 0);
    assert_eq!(tip(&repo, &main), first_main);
    assert_eq!(tip(&repo, "old"), first_old);
    assert_eq!(repo.head().unwrap().target().unwrap(), first_main);
}

#[test]
fn a_repository_without_commits_is_left_alone() {
    let dir = tempfile::tempdir().unwrap();
    let repo = Repository::init(dir.path()).unwrap();
    assert_eq!(anonymize(&repo), 0);
    assert_eq!(repo.branches(Some(BranchType::Local)).unwrap().count(), 0);
}

#[test]
fn identifiers_survive_the_way_there_and_back() {
    let id = git2::Oid::from_str("0123456789abcdef0123456789abcdef01234567").unwrap();
    let own = from_git(id);
    assert_eq!(own, Oid { hi: 0xefcdab8967452301, mid: 0xefcdab8967452301, lo: 0x67452301 });
    assert_eq!(to_git(own), id);
}
