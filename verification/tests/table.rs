use mymap::MyMap;

#[test]
fn test() {
    let mut my_map: MyMap = MyMap::new();
    assert!(my_map.get(&42).is_none());

    my_map.insert(42, String::from("good number"));
    assert!(my_map.get(&42) == Some(&String::from("good number")));

    my_map.insert(42, String::from("another good number"));
    assert!(my_map.get(&42) == Some(&String::from("another good number")));

    my_map.remove(&42);
    assert!(my_map.get(&42).is_none());
}

#[test]
fn round_trip_many_keys() {
    // More keys than buckets, so some chains hold several entries.
    let mut m = MyMap::new();
    let mut k: u64 = 0;
    while k < 40 {
        m.insert(k, format!("value {}", k));
        k += 1;
    }
    let mut k: u64 = 0;
    while k < 40 {
        assert_eq!(m.get(&k), Some(&format!("value {}", k)));
        k += 1;
    }
}

#[test]
fn remove_returns_owned_value() {
    let mut m = MyMap::new();
    m.insert(7, String::from("seven"));
    assert_eq!(m.remove(&7), Some(String::from("seven")));
    assert_eq!(m.remove(&7), None);
}

#[test]
fn remove_leaves_other_keys() {
    let mut m = MyMap::new();
    let mut k: u64 = 0;
    while k < 40 {
        m.insert(k, format!("value {}", k));
        k += 1;
    }
    // removing the even keys leaves exactly the odd ones
    let mut k: u64 = 0;
    while k < 40 {
        assert_eq!(m.remove(&k), Some(format!("value {}", k)));
        k += 2;
    }
    let mut k: u64 = 0;
    while k < 40 {
        if k % 2 == 0 {
            assert!(m.get(&k).is_none());
        } else {
            assert_eq!(m.get(&k), Some(&format!("value {}", k)));
        }
        k += 1;
    }
}

#[test]
fn absent_key_is_never_fabricated() {
    let mut m = MyMap::new();
    assert!(m.get(&0).is_none());
    assert!(m.remove(&0).is_none());
    m.insert(1, String::from("one"));
    assert!(m.get(&2).is_none());
    m.remove(&1);
    assert!(m.get(&1).is_none());
}

#[test]
fn overwrite_keeps_latest_value() {
    let mut m = MyMap::new();
    m.insert(3, String::from("first"));
    m.insert(3, String::from("second"));
    m.insert(3, String::from("third"));
    assert_eq!(m.get(&3), Some(&String::from("third")));
    // exactly one entry for the key: one removal empties it
    assert_eq!(m.remove(&3), Some(String::from("third")));
    assert!(m.get(&3).is_none());
}

#[test]
fn empty_value_and_empty_like_keys() {
    let mut m = MyMap::new();
    m.insert(0, String::new());
    assert_eq!(m.get(&0), Some(&String::new()));
    m.insert(u64::MAX, String::from("max"));
    assert_eq!(m.get(&u64::MAX), Some(&String::from("max")));
    assert_eq!(m.get(&0), Some(&String::new()));
}
