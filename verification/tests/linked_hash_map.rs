use linked_ring::linked_hash_map::LinkedHashMap;
use linked_ring::linked_hash_map::LinkedHashSet;

fn pairs<V: Copy>(map: &LinkedHashMap<String, V>) -> Vec<(String, V)> {
    map.iter().into_iter().map(|(k, v)| (k.clone(), *v)).collect::<Vec<_>>()
}

fn members(set: &LinkedHashSet<String>) -> Vec<String> {
    set.iter().into_iter().cloned().collect::<Vec<_>>()
}

fn abc_map() -> LinkedHashMap<String, i32> {
    let (map, _handles) = LinkedHashMap::from_iter(vec![
        ("a".to_string(), 1),
        ("b".to_string(), 2),
        ("c".to_string(), 3),
    ]);
    map
}

#[test]
fn linked_hash_map() {
    let mut map: LinkedHashMap<String, i64> = LinkedHashMap::default();
    let a = map.insert("a".into(), 123);
    assert_eq!(None, a.previous);
    let b = map.insert("b".into(), 456);
    assert_eq!(None, b.previous);
    let c = map.insert("c".into(), 789);
    assert_eq!(None, c.previous);

    assert_eq!(
        vec![
            ("a".to_string(), 123),
            ("b".to_string(), 456),
            ("c".to_string(), 789),
        ],
        pairs(&map)
    );

    assert_eq!(
        vec!["a".to_string(), "b".to_string(), "c".to_string()],
        map.keys().into_iter().cloned().collect::<Vec<_>>()
    );

    assert_eq!(
        vec![123, 456, 789],
        map.values().into_iter().copied().collect::<Vec<_>>()
    );

    let again = map.insert("a".into(), 124);
    assert_eq!(Some(123), again.previous);
    map.release(again.handle);
    assert_eq!(
        vec![
            ("b".to_string(), 456),
            ("c".to_string(), 789),
            ("a".to_string(), 124),
        ],
        pairs(&map)
    );

    assert!(matches!(map.get(&"c".to_string()), Some(&789)));
    map.release(c.handle);
    assert!(matches!(map.get(&"c".to_string()), None));
    assert_eq!(
        vec![("b".to_string(), 456), ("a".to_string(), 124)],
        pairs(&map)
    );
    assert_eq!("a", a.handle.get_key());
    assert_eq!("b", b.handle.get_key());
}

#[test]
fn linked_hash_set() {
    let mut set: LinkedHashSet<String> = LinkedHashSet::new();
    let a = set.insert("a".into());
    assert!(!a.previous);
    let b = set.insert("b".into());
    assert!(!b.previous);
    let c = set.insert("c".into());
    assert!(!c.previous);
    assert_eq!(
        vec!["a".to_string(), "b".to_string(), "c".to_string()],
        members(&set)
    );

    let again = set.insert("a".into());
    assert!(again.previous);
    set.release(again.handle);
    assert_eq!(
        vec!["b".to_string(), "c".to_string(), "a".to_string()],
        members(&set)
    );

    set.release(c.handle);
    assert_eq!(vec!["b".to_string(), "a".to_string()], members(&set));
    assert_eq!("a", a.handle.get_key());
    assert_eq!("b", b.handle.get_key());
}

#[test]
fn collect_set() {
    let (set, _handles) = LinkedHashSet::from_iter(vec![
        "a".to_string(),
        "b".to_string(),
        "c".to_string(),
    ]);
    assert_eq!(
        vec!["a".to_string(), "b".to_string(), "c".to_string()],
        set.iter().into_iter().map(|k| k.to_string()).collect::<Vec<_>>()
    );
}

#[test]
fn collect_map() {
    let map = abc_map();
    assert_eq!(
        vec![
            ("a".to_string(), 1),
            ("b".to_string(), 2),
            ("c".to_string(), 3),
        ],
        map.iter().into_iter().map(|(k, v)| (k.clone(), *v)).collect::<Vec<_>>()
    );
}

#[test]
fn get() {
    let map = abc_map();
    assert_eq!(Some(1), map.get(&"a".to_string()).map(|v| *v));
    assert_eq!(None, map.get(&"aa".to_string()).map(|v| *v));
}

#[test]
fn contains() {
    let mut set = LinkedHashSet::<String>::new();
    let _a = set.insert("a".into()).handle;
    let b = set.insert("b".into()).handle;
    let _c = set.insert("c".into()).handle;
    assert_eq!(true, set.contains(&"a".to_string()));
    assert_eq!(true, set.contains(&"b".to_string()));
    assert_eq!(true, set.contains(&"c".to_string()));
    set.release(b);
    assert_eq!(true, set.contains(&"a".to_string()));
    assert_eq!(false, set.contains(&"b".to_string()));
    assert_eq!(true, set.contains(&"c".to_string()));
    assert_eq!(false, set.contains(&"aa".to_string()));
}

fn map_from_json(text: &str) -> LinkedHashMap<String, i32> {
    let data: Vec<(String, i32)> = serde_json::from_str(text).unwrap();
    LinkedHashMap::from_iter(data).0
}

fn set_from_json(text: &str) -> LinkedHashSet<String> {
    let data: Vec<String> = serde_json::from_str(text).unwrap();
    LinkedHashSet::from_iter(data).0
}

#[test]
fn serde_map() {
    let map = map_from_json(r#"[["a",1],["b",2],["c",3]]"#);
    assert_eq!(
        r#"[["a",1],["b",2],["c",3]]"#,
        serde_json::to_string(&map.iter()).unwrap()
    );
}

#[test]
fn serde_set() {
    let set = set_from_json(r#"["a","b","c"]"#);
    assert_eq!(r#"["a","b","c"]"#, serde_json::to_string(&set.iter()).unwrap());
}

#[test]
fn eq() {
    let mut s1 = set_from_json(r#"["a","b","c"]"#);
    let s2 = set_from_json(r#"["a","b","c"]"#);
    assert_eq!(r#"["a","b","c"]"#, serde_json::to_string(&s1.iter()).unwrap());
    assert_eq!(r#"["a","b","c"]"#, serde_json::to_string(&s2.iter()).unwrap());
    assert!(s1.eq(&s2));
    let _a = s1.insert("a".to_string());
    assert_eq!(r#"["b","c","a"]"#, serde_json::to_string(&s1.iter()).unwrap());
    assert_eq!(r#"["a","b","c"]"#, serde_json::to_string(&s2.iter()).unwrap());
    assert!(!s1.eq(&s2));
}

#[test]
fn set_round_trip_through_text() {
    let first = set_from_json(r#"["a","b","c"]"#);
    let text = serde_json::to_string(&first.iter()).unwrap();
    assert_eq!(r#"["a","b","c"]"#, text);
    let second = set_from_json(&text);
    assert_eq!(text, serde_json::to_string(&second.iter()).unwrap());
    assert!(first.eq(&second));
}

#[test]
fn reinsert_keeps_entry_and_handles() {
    let mut map: LinkedHashMap<String, i64> = LinkedHashMap::new();
    let a = map.insert("a".into(), 1);
    let _b = map.insert("b".into(), 2);
    let again = map.insert("a".into(), 3);
    assert_eq!(Some(1), again.previous);
    assert_eq!(a.handle.get_key(), again.handle.get_key());
    assert_eq!(vec![("b".to_string(), 2), ("a".to_string(), 3)], pairs(&map));
    assert_eq!(2, map.len());

    assert_eq!(None, map.release(a.handle));
    assert_eq!(Some(&3), map.get(&"a".to_string()));
    assert_eq!(vec![("b".to_string(), 2), ("a".to_string(), 3)], pairs(&map));

    assert_eq!(Some(3), map.release(again.handle));
    assert_eq!(None, map.get(&"a".to_string()));
    assert!(!map.contains_key(&"a".to_string()));
    assert_eq!(vec![("b".to_string(), 2)], pairs(&map));
    assert_eq!(1, map.len());
}

#[test]
fn cloned_handle_keeps_entry_alive() {
    let mut set = LinkedHashSet::<String>::new();
    let a = set.insert("a".into()).handle;
    let _b = set.insert("b".into()).handle;
    let a2 = set.clone_handle(&a);
    assert_eq!(2, set.holders_of(&"a".to_string()));
    assert!(!set.release(a));
    assert!(set.contains(&"a".to_string()));
    assert_eq!(vec!["a".to_string(), "b".to_string()], members(&set));
    assert_eq!(1, set.holders_of(&"a".to_string()));
    assert!(set.release(a2));
    assert_eq!(0, set.holders_of(&"a".to_string()));
    assert!(!set.contains(&"a".to_string()));
    assert_eq!(vec!["b".to_string()], members(&set));
    assert_eq!(1, set.len());
}

#[test]
fn map_clone_handle_counts() {
    let mut map: LinkedHashMap<u64, u64> = LinkedHashMap::new();
    let a = map.insert(7, 70).handle;
    let a2 = map.clone_handle(&a);
    assert_eq!(&7, a2.get_key());
    assert_eq!(2, map.holders_of(&7));
    assert_eq!(0, map.holders_of(&8));
    assert_eq!(None, map.release(a2));
    assert_eq!(Some(&70), map.get(&7));
    assert_eq!(Some(70), map.release(a));
    assert_eq!(None, map.get(&7));
    assert_eq!(0, map.len());
    assert!(map.iter().is_empty());
}

#[test]
fn extend_applies_inserts_in_order() {
    let mut map: LinkedHashMap<String, i64> = LinkedHashMap::new();
    let _x = map.insert("x".into(), 0);
    let handles = map.extend(vec![
        ("a".to_string(), 1),
        ("x".to_string(), 2),
        ("b".to_string(), 3),
        ("a".to_string(), 4),
    ]);
    assert_eq!(4, handles.len());
    assert_eq!(
        vec!["a", "x", "b", "a"],
        handles.iter().map(|h| h.get_key().as_str()).collect::<Vec<_>>()
    );
    assert_eq!(
        vec![("x".to_string(), 2), ("b".to_string(), 3), ("a".to_string(), 4)],
        pairs(&map)
    );

    let mut set = LinkedHashSet::<String>::new();
    let handles = set.extend(vec!["b".to_string(), "a".to_string(), "b".to_string()]);
    assert_eq!(3, handles.len());
    assert_eq!(vec!["a".to_string(), "b".to_string()], members(&set));
}

#[test]
fn map_equality_is_by_order() {
    let (m1, _h1) = LinkedHashMap::from_iter(vec![(1u64, 10u64), (2, 20)]);
    let (m2, _h2) = LinkedHashMap::from_iter(vec![(1u64, 10u64), (2, 20)]);
    let (m3, _h3) = LinkedHashMap::from_iter(vec![(2u64, 20u64), (1, 10)]);
    let (m4, _h4) = LinkedHashMap::from_iter(vec![(1u64, 10u64), (2, 21)]);
    let (m5, _h5) = LinkedHashMap::from_iter(vec![(1u64, 10u64)]);
    assert!(m1.eq(&m2));
    assert!(!m1.eq(&m3));
    assert!(!m1.eq(&m4));
    assert!(!m1.eq(&m5));

    let (s1, _g1) = LinkedHashSet::from_iter(vec![1u64, 2]);
    let (s2, _g2) = LinkedHashSet::from_iter(vec![2u64, 1]);
    assert!(!s1.eq(&s2));
    assert!(s1.eq(&s1));
}

#[test]
fn insert_result_map() {
    let mut map: LinkedHashMap<u64, u64> = LinkedHashMap::new();
    let first = map.insert(1, 5).map(|p| p.unwrap_or(0) + 1);
    assert_eq!(1, first.previous);
    let second = map.insert(1, 6).map(|p| p.unwrap_or(0) + 1);
    assert_eq!(6, second.previous);
    assert_eq!(&1, second.handle.get_key());
}

#[test]
fn empty_map_and_set() {
    let map: LinkedHashMap<String, i64> = LinkedHashMap::new();
    assert!(map.iter().is_empty());
    assert!(map.keys().is_empty());
    assert!(map.values().is_empty());
    assert_eq!(None, map.get(&"a".to_string()));
    assert_eq!(0, map.len());
    let set: LinkedHashSet<String> = LinkedHashSet::default();
    assert!(set.iter().is_empty());
    assert!(!set.contains(&"a".to_string()));
}
