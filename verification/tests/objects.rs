use git_anonymize::object::{
    append_oids, clone_oids, Branch, Commit, Draft, Oid, Signature, Time, ANONYMOUS_EMAIL,
    ANONYMOUS_NAME,
};
use git_anonymize::rewrite::same_oids;
use git_anonymize::store::{Data, Store};

fn oid(n: u32) -> Oid {
    Oid { hi: 0, mid: 0, lo: n }
}

fn who(name: &str, email: &str, seconds: i64, offset_minutes: i32) -> Signature {
    Signature {
        name: name.to_string(),
        email: email.to_string(),
        when: Time { seconds, offset_minutes },
    }
}

fn commit(id: u32, parents: &[u32]) -> Commit {
    Commit {
        id: oid(id),
        tree: oid(id + 500),
        parents: parents.iter().map(|p| oid(*p)).collect(),
        author: who("Ada", "ada@example.org", 1_000 + id as i64, 60),
        committer: who("Bob", "bob@example.org", 2_000 + id as i64, -120),
        message: format!("commit {}", id),
    }
}

#[test]
fn anonymous_identity_is_the_fixed_pair() {
    assert_eq!(ANONYMOUS_NAME, "Anonymous");
    assert_eq!(ANONYMOUS_EMAIL, "anon@ymo.us");
}

#[test]
fn anonymous_signature_keeps_the_time() {
    let when = Time { seconds: 1_234_567_890, offset_minutes: -330 };
    let sig = Signature::anonymous(when);
    assert_eq!(sig.name, "Anonymous");
    assert_eq!(sig.email, "anon@ymo.us");
    assert_eq!(sig.when, when);
    assert_eq!(sig.when.seconds, 1_234_567_890);
    assert_eq!(sig.when.offset_minutes, -330);
}

#[test]
fn signature_is_anonymous_needs_name_and_email() {
    assert!(who("Anonymous", "anon@ymo.us", 5, 0).is_anonymous());
    assert!(!who("Anonymous", "ada@example.org", 5, 0).is_anonymous());
    assert!(!who("Ada", "anon@ymo.us", 5, 0).is_anonymous());
    assert!(!who("Ada", "ada@example.org", 5, 0).is_anonymous());
    assert!(!who("anonymous", "anon@ymo.us", 5, 0).is_anonymous());
    assert!(!who("", "", 5, 0).is_anonymous());
}

#[test]
fn signature_is_anonymous_at_any_time() {
    assert!(who("Anonymous", "anon@ymo.us", i64::MIN, i32::MIN).is_anonymous());
    assert!(who("Anonymous", "anon@ymo.us", i64::MAX, i32::MAX).is_anonymous());
}

#[test]
fn commit_is_anonymous_needs_all_four_fields() {
    let mut c = commit(1, &[]);
    assert!(!c.is_anonymous());
    c.author = who("Anonymous", "anon@ymo.us", 1, 0);
    assert!(!c.is_anonymous());
    c.committer = who("Anonymous", "bob@example.org", 2, 0);
    assert!(!c.is_anonymous());
    c.committer = who("Bob", "anon@ymo.us", 2, 0);
    assert!(!c.is_anonymous());
    c.committer = who("Anonymous", "anon@ymo.us", 2, 0);
    assert!(c.is_anonymous());
    c.author = who("Ada", "anon@ymo.us", 1, 0);
    assert!(!c.is_anonymous());
}

#[test]
fn signature_clone_is_equal() {
    let s = who("Ada", "ada@example.org", 77, 90);
    assert_eq!(s.clone(), s);
}

#[test]
fn commit_clone_is_equal() {
    let c = commit(3, &[1, 2]);
    let d = c.clone();
    assert_eq!(d, c);
    assert_eq!(d.parents, vec![oid(1), oid(2)]);
    assert_eq!(d.message, "commit 3");
}

#[test]
fn clone_oids_copies_in_order() {
    let ids = vec![oid(3), oid(1), oid(2), oid(1)];
    assert_eq!(clone_oids(&ids), ids);
    assert_eq!(clone_oids(&Vec::new()), Vec::<Oid>::new());
}

#[test]
fn append_oids_adds_at_the_end() {
    let mut ids = vec![oid(1), oid(2)];
    append_oids(&mut ids, &vec![oid(9), oid(8)]);
    assert_eq!(ids, vec![oid(1), oid(2), oid(9), oid(8)]);
    append_oids(&mut ids, &Vec::new());
    assert_eq!(ids, vec![oid(1), oid(2), oid(9), oid(8)]);
}

#[test]
fn same_oids_compares_length_and_order() {
    assert!(same_oids(&vec![oid(1), oid(2)], &vec![oid(1), oid(2)]));
    assert!(!same_oids(&vec![oid(1), oid(2)], &vec![oid(2), oid(1)]));
    assert!(!same_oids(&vec![oid(1)], &vec![oid(1), oid(1)]));
    assert!(same_oids(&Vec::new(), &Vec::new()));
}

#[test]
fn oids_differ_in_any_word() {
    let a = Oid { hi: 1, mid: 2, lo: 3 };
    assert_eq!(a, Oid { hi: 1, mid: 2, lo: 3 });
    assert_ne!(a, Oid { hi: 0, mid: 2, lo: 3 });
    assert_ne!(a, Oid { hi: 1, mid: 0, lo: 3 });
    assert_ne!(a, Oid { hi: 1, mid: 2, lo: 0 });
}

#[test]
fn oid_from_bytes_reads_three_little_endian_words() {
    let bytes: Vec<u8> = (1..=20).collect();
    assert_eq!(
        Oid::from_bytes(&bytes),
        Some(Oid { hi: 0x0807060504030201, mid: 0x100f0e0d0c0b0a09, lo: 0x14131211 })
    );
    assert_eq!(Oid::from_bytes(&[0u8; 20]), Some(Oid { hi: 0, mid: 0, lo: 0 }));
    assert_eq!(
        Oid::from_bytes(&[0xffu8; 20]),
        Some(Oid { hi: u64::MAX, mid: u64::MAX, lo: u32::MAX })
    );
}

#[test]
fn oid_from_bytes_wants_twenty_bytes() {
    assert_eq!(Oid::from_bytes(&[]), None);
    assert_eq!(Oid::from_bytes(&[7u8; 19]), None);
    assert_eq!(Oid::from_bytes(&[7u8; 21]), None);
    assert_eq!(Oid::from_bytes(&[7u8; 32]), None);
    assert!(Oid::from_bytes(&[7u8; 20]).is_some());
}

#[test]
fn oid_to_bytes_gives_the_bytes_back() {
    let bytes: Vec<u8> = (1..=20).collect();
    assert_eq!(Oid::from_bytes(&bytes).unwrap().to_bytes(), bytes);
    let id = Oid { hi: 1, mid: 2, lo: 3 };
    assert_eq!(
        id.to_bytes(),
        vec![1, 0, 0, 0, 0, 0, 0, 0, 2, 0, 0, 0, 0, 0, 0, 0, 3, 0, 0, 0]
    );
    assert_eq!(Oid::from_bytes(&id.to_bytes()), Some(id));
}

#[test]
fn draft_stored_as_takes_the_identifier() {
    let draft = Draft {
        tree: oid(7),
        parents: vec![oid(1), oid(2)],
        author: who("Anonymous", "anon@ymo.us", 10, 0),
        committer: who("Anonymous", "anon@ymo.us", 20, 30),
        message: "merge".to_string(),
    };
    let c = draft.stored_as(oid(99));
    assert_eq!(c.id, oid(99));
    assert_eq!(c.tree, oid(7));
    assert_eq!(c.parents, vec![oid(1), oid(2)]);
    assert_eq!(c.author, who("Anonymous", "anon@ymo.us", 10, 0));
    assert_eq!(c.committer, who("Anonymous", "anon@ymo.us", 20, 30));
    assert_eq!(c.message, "merge");
}

#[test]
fn branch_holds_name_target_and_head_flag() {
    let b = Branch { name: "main".to_string(), target: oid(4), is_head: true };
    assert_eq!(b.name, "main");
    assert_eq!(b.target, oid(4));
    assert!(b.is_head);
}

#[test]
fn data_new_has_no_children_and_no_replacement() {
    let c = commit(5, &[4]);
    let data = Data::new(c.clone());
    assert_eq!(data.commit, c);
    assert!(data.children.is_empty());
    assert!(data.new_commit.is_none());
}

#[test]
fn empty_store_holds_nothing() {
    let store = Store::new();
    assert_eq!(store.len(), 0);
    assert!(!store.contains_key(oid(1)));
    assert_eq!(store.find(oid(1)), None);
    assert!(store.get(oid(1)).is_none());
}

#[test]
fn store_finds_what_was_inserted() {
    let mut store = Store::new();
    store.insert(Data::new(commit(1, &[])));
    store.insert(Data::new(commit(2, &[1])));
    store.insert(Data::new(commit(3, &[2])));
    assert_eq!(store.len(), 3);
    assert_eq!(store.find(oid(1)), Some(0));
    assert_eq!(store.find(oid(2)), Some(1));
    assert_eq!(store.find(oid(3)), Some(2));
    assert_eq!(store.find(oid(4)), None);
    assert!(store.contains_key(oid(2)));
    assert!(!store.contains_key(oid(4)));
    assert_eq!(store.get(oid(2)).unwrap().commit, commit(2, &[1]));
    assert_eq!(store.slot(2).commit, commit(3, &[2]));
}

#[test]
fn store_keeps_identifiers_apart_whatever_word_they_share() {
    let ids = [
        Oid { hi: 7, mid: 1, lo: 1 },
        Oid { hi: 7, mid: 1, lo: 2 },
        Oid { hi: 7, mid: 2, lo: 1 },
        Oid { hi: 8, mid: 1, lo: 1 },
        Oid { hi: 0, mid: 0, lo: 0 },
    ];
    let mut store = Store::new();
    for (n, id) in ids.iter().enumerate() {
        let mut c = commit(n as u32, &[]);
        c.id = *id;
        store.insert(Data::new(c));
    }
    assert_eq!(store.len(), 5);
    for (n, id) in ids.iter().enumerate() {
        assert_eq!(store.find(*id), Some(n));
        assert_eq!(store.get(*id).unwrap().commit.message, format!("commit {}", n));
    }
    assert_eq!(store.find(Oid { hi: 7, mid: 2, lo: 2 }), None);
    assert_eq!(store.find(Oid { hi: 9, mid: 1, lo: 1 }), None);
}

#[test]
fn store_insert_replaces_the_same_commit() {
    let mut store = Store::new();
    store.insert(Data::new(commit(1, &[])));
    store.insert(Data::new(commit(2, &[1])));
    let mut other = commit(1, &[]);
    other.message = "other".to_string();
    store.insert(Data::new(other.clone()));
    assert_eq!(store.len(), 2);
    assert_eq!(store.find(oid(1)), Some(0));
    assert_eq!(store.get(oid(1)).unwrap().commit, other);
    assert_eq!(store.get(oid(2)).unwrap().commit, commit(2, &[1]));
}

#[test]
fn store_add_child_changes_one_record() {
    let mut store = Store::new();
    store.insert(Data::new(commit(1, &[])));
    store.insert(Data::new(commit(2, &[1])));
    store.add_child(0, oid(2));
    assert_eq!(store.get(oid(1)).unwrap().children, vec![oid(2)]);
    assert!(store.get(oid(2)).unwrap().children.is_empty());
    assert_eq!(store.get(oid(1)).unwrap().commit, commit(1, &[]));
    assert_eq!(store.len(), 2);
}

#[test]
fn store_set_new_commit_changes_one_record() {
    let mut store = Store::new();
    store.insert(Data::new(commit(1, &[])));
    store.insert(Data::new(commit(2, &[1])));
    store.set_new_commit(1, commit(9, &[8]));
    assert_eq!(store.get(oid(2)).unwrap().new_commit, Some(commit(9, &[8])));
    assert_eq!(store.get(oid(2)).unwrap().commit, commit(2, &[1]));
    assert!(store.get(oid(1)).unwrap().new_commit.is_none());
    assert_eq!(store.find(oid(9)), None);
}
