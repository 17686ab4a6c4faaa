use mymap::{MyMap, Repository};

#[test]
fn test_repository() {
    let mut repo = Repository::init_empty();

    assert!(repo.repository_size() == 0);

    let snap1 = {
        let mut map = MyMap::new();
        map.insert(42, String::from("foo"));
        map
    };

    let snap_hash1 = repo.checkpoint(snap1.clone());

    assert!(repo.repository_size() == 1);
    assert!(repo.head() == &snap1);

    let snap2 = {
        let mut map = MyMap::new();
        map.insert(111, String::from("bar"));
        map
    };

    repo.checkpoint(snap2.clone());

    assert!(repo.repository_size() == 2);
    assert!(repo.head() == &snap2);

    repo.rollback(snap_hash1);

    assert!(repo.repository_size() == 2);
    assert!(repo.head() == &snap1);

    repo.prune();

    assert!(repo.repository_size() == 1);
    assert!(repo.head() == &snap1);
}

#[test]
fn monotonic_append() {
    let mut repo = Repository::init_empty();
    let mut n: u64 = 0;
    while n < 5 {
        let mut map = MyMap::new();
        map.insert(n, format!("version {}", n));
        repo.checkpoint(map);
        n += 1;
        assert_eq!(repo.repository_size(), n as usize);
    }
}

#[test]
fn head_follows_checkpoint() {
    let mut repo = Repository::init_empty();
    let mut a = MyMap::new();
    a.insert(1, String::from("one"));
    repo.checkpoint(a.clone());
    assert!(repo.head() == &a);

    let mut b = MyMap::new();
    b.insert(2, String::from("two"));
    repo.checkpoint(b.clone());
    assert!(repo.head() == &b);
}

#[test]
fn rollback_unknown_tag_fails_and_changes_nothing() {
    let mut repo = Repository::init_empty();
    let mut a = MyMap::new();
    a.insert(9, String::from("nine"));
    let tag = repo.checkpoint(a.clone());

    assert!(!repo.rollback(tag.wrapping_add(1)));
    assert_eq!(repo.repository_size(), 1);
    assert!(repo.head() == &a);

    assert!(repo.rollback(tag));
    assert!(repo.head() == &a);
}

#[test]
fn content_hash_is_deterministic() {
    // value-identical tables built in different repositories get the
    // same tag
    let build = || {
        let mut map = MyMap::new();
        map.insert(5, String::from("five"));
        map.insert(6, String::from("six"));
        map
    };
    let mut repo1 = Repository::init_empty();
    let mut repo2 = Repository::init_empty();
    let h1 = repo1.checkpoint(build());
    let h2 = repo2.checkpoint(build());
    assert_eq!(h1, h2);
}

#[test]
fn distinct_contents_get_distinct_tags() {
    // not guaranteed for every input, but pinned for these values
    let mut repo = Repository::init_empty();
    let mut a = MyMap::new();
    a.insert(42, String::from("foo"));
    let mut b = MyMap::new();
    b.insert(111, String::from("bar"));
    let h1 = repo.checkpoint(a);
    let h2 = repo.checkpoint(b);
    assert_ne!(h1, h2);
}

#[test]
fn prune_keeps_only_head() {
    let mut repo = Repository::init_empty();
    let mut n: u64 = 0;
    let mut middle_tag: u64 = 0;
    while n < 3 {
        let mut map = MyMap::new();
        map.insert(n, format!("v{}", n));
        let t = repo.checkpoint(map);
        if n == 1 {
            middle_tag = t;
        }
        n += 1;
    }
    assert!(repo.rollback(middle_tag));
    repo.prune();
    assert_eq!(repo.repository_size(), 1);
    let mut expected = MyMap::new();
    expected.insert(1, String::from("v1"));
    assert!(repo.head() == &expected);
}

#[test]
fn empty_table_can_be_checkpointed() {
    let mut repo = Repository::init_empty();
    let empty = MyMap::new();
    let h = repo.checkpoint(empty.clone());
    assert_eq!(repo.repository_size(), 1);
    assert!(repo.head() == &empty);
    assert!(repo.head().get(&0).is_none());
    assert!(repo.rollback(h));
}

#[test]
fn rollback_after_prune_to_discarded_tag_fails() {
    let mut repo = Repository::init_empty();
    let mut a = MyMap::new();
    a.insert(1, String::from("a"));
    let h1 = repo.checkpoint(a);
    let mut b = MyMap::new();
    b.insert(2, String::from("b"));
    let h2 = repo.checkpoint(b.clone());
    repo.prune();
    assert_eq!(repo.repository_size(), 1);
    assert!(repo.head() == &b);
    assert!(!repo.rollback(h1));
    assert!(repo.rollback(h2));
}
