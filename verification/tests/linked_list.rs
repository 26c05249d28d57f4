use std::cell::Cell;
use std::rc::Rc;

use linked_ring::linked_list::LinkedList;

struct DropStruct {
    name: &'static str,
    count: Rc<Cell<i32>>,
}

impl DropStruct {
    fn new(name: &'static str, count: &Rc<Cell<i32>>) -> Self {
        count.set(count.get() + 1);
        Self { name, count: Rc::clone(count) }
    }
}

impl Drop for DropStruct {
    fn drop(&mut self) {
        self.count.set(self.count.get() - 1);
    }
}

fn names(list: &LinkedList<Rc<DropStruct>>) -> Vec<&'static str> {
    list.iter().iter().map(|x| x.value().name).collect::<Vec<_>>()
}

fn abcd() -> LinkedList<String> {
    let mut list = LinkedList::<String>::new();
    let _a = list.push_back("a".into());
    let _b = list.push_back("b".into());
    let _c = list.push_back("c".into());
    let _d = list.push_back("d".into());
    list
}

#[test]
fn push() {
    let mut list = LinkedList::<String>::new();
    assert_eq!(Vec::<&String>::default(), list.values());

    let _a = list.push_back("a".into());
    assert_eq!(vec!["a"], list.values());

    let _b = list.push_back("b".into());
    assert_eq!(vec!["a", "b"], list.values());

    let _c = list.push_back("c".into());
    assert_eq!(vec!["a", "b", "c"], list.values());
}

#[test]
fn forward() {
    let mut list = LinkedList::<String>::new();
    let a = list.push_back("a".into());
    let b = list.push_back("b".into());
    let c = list.push_back("c".into());

    assert_eq!(Some("a".to_string()), list.release(a));
    assert_eq!(vec!["b", "c"], list.values());

    assert_eq!(Some("b".to_string()), list.release(b));
    assert_eq!(vec!["c"], list.values());

    assert_eq!(Some("c".to_string()), list.release(c));
    assert_eq!(Vec::<&String>::new(), list.values());
}

#[test]
fn backward() {
    let mut list = LinkedList::<String>::new();
    let a = list.push_back("a".into());
    let b = list.push_back("b".into());
    let c = list.push_back("c".into());

    list.release(c);
    assert_eq!(vec!["a", "b"], list.values());

    list.release(b);
    assert_eq!(vec!["a"], list.values());

    list.release(a);
    assert_eq!(Vec::<&String>::default(), list.values());
}

#[test]
fn middle1() {
    let mut list = LinkedList::<String>::new();
    let a = list.push_back("a".into());
    let b = list.push_back("b".into());
    let c = list.push_back("c".into());

    list.release(b);
    assert_eq!(vec!["a", "c"], list.values());

    list.release(c);
    assert_eq!(vec!["a"], list.values());

    list.release(a);
    assert_eq!(Vec::<&String>::default(), list.values());
}

#[test]
fn middle2() {
    let mut list = LinkedList::<String>::new();
    let a = list.push_back("a".into());
    let b = list.push_back("b".into());
    let c = list.push_back("c".into());

    list.release(b);
    assert_eq!(vec!["a", "c"], list.values());

    list.release(a);
    assert_eq!(vec!["c"], list.values());

    list.release(c);
    assert_eq!(Vec::<&String>::default(), list.values());
}

#[test]
fn equality() {
    let mut list1: LinkedList<String> = LinkedList::<String>::new();
    let a1 = list1.push_back("a".into());
    let b1 = list1.push_back("b".into());
    let c1 = list1.push_back("c".into());

    let mut list2: LinkedList<String> = LinkedList::<String>::new();
    let a2 = list2.push_back("a".into());
    let b2 = list2.push_back("b".into());
    let c2 = list2.push_back("c".into());

    assert!(list1.eq(&list2));

    list1.release(c1);
    assert!(!list1.eq(&list2));

    list2.release(c2);
    assert!(list1.eq(&list2));

    let c1 = list1.push_back("c".into());
    let c2 = list2.push_back("c".into());
    assert!(list1.eq(&list2));

    list1.release(c1);
    list2.release(b2);
    assert!(!list1.eq(&list2));

    list1.release(a1);
    list1.release(b1);
    list2.release(a2);
    list2.release(c2);
    assert!(list1.eq(&list2));
}

#[test]
fn drop_struct() {
    let count = Rc::new(Cell::new(0));
    let mut list = LinkedList::<Rc<DropStruct>>::new();
    let a = list.push_back(DropStruct::new("a", &count).into());
    assert_eq!(1, count.get());
    assert_eq!(vec!["a"], names(&list));

    drop(list.release(a));
    assert_eq!(0, count.get());
    assert_eq!(Vec::<String>::default(), names(&list));

    let b = list.push_back(DropStruct::new("b", &count).into());
    assert_eq!(1, count.get());
    assert_eq!(vec!["b"], names(&list));
    let c = list.push_back(DropStruct::new("c", &count).into());
    assert_eq!(2, count.get());
    assert_eq!(vec!["b", "c"], names(&list));
    let d = list.push_back(DropStruct::new("d", &count).into());
    assert_eq!(3, count.get());
    assert_eq!(vec!["b", "c", "d"], names(&list));

    drop(list.release(d));
    assert_eq!(2, count.get());
    assert_eq!(vec!["b", "c"], names(&list));
    drop(list.release(b));
    assert_eq!(1, count.get());
    assert_eq!(vec!["c"], names(&list));
    drop(list.release(c));
    assert_eq!(0, count.get());
    assert_eq!(Vec::<String>::default(), names(&list));
}

fn describe(list: &LinkedList<String>, handle: &linked_ring::linked_list::Handle) -> String {
    let (before, own, after) = list.neighbors(handle).unwrap();
    format!("Handle(Node {{ prev: {:?}, value: {:?}, next: {:?} }})", before, own, after)
}

#[test]
fn debug() {
    let mut list = LinkedList::<String>::new();

    let a = list.push_back("a".into());
    assert_eq!(
        r#"Handle(Node { prev: "a", value: "a", next: "a" })"#,
        describe(&list, &a)
    );

    let b = list.push_back("b".into());
    assert_eq!(
        r#"Handle(Node { prev: "a", value: "b", next: "a" })"#,
        describe(&list, &b)
    );

    let c = list.push_back("c".into());
    let _d = list.push_back("d".into());
    assert_eq!(
        r#"Handle(Node { prev: "b", value: "c", next: "d" })"#,
        describe(&list, &c)
    );

    assert_eq!(r#"["a", "b", "c", "d"]"#, format!("{:?}", list.values()));
}

#[test]
fn prev() {
    let list = abcd();
    assert_eq!(r#"["d", "a", "b", "c"]"#, format!("{:?}", list.prev().values()));
}

#[test]
fn next() {
    let list = abcd();
    assert_eq!(r#"["b", "c", "d", "a"]"#, format!("{:?}", list.next().values()));
}

#[test]
fn current() {
    let list = abcd();

    assert_eq!(Some(&"a".to_string()), list.current().map(|n| n.value()));
    assert_eq!(
        Some(&"d".to_string()),
        list.prev().current().map(|n| n.value())
    );
    assert_eq!(
        Some(&"b".to_string()),
        list.next().current().map(|n| n.value())
    );
}

#[test]
fn collect() {
    let (values, _handles) = LinkedList::from_iter(vec![
        "a".to_string(),
        "b".to_owned(),
        "c".to_owned(),
    ]);
    assert_eq!(
        vec!["a".to_string(), "b".to_string(), "c".to_string()],
        values.iter().iter().map(|v| v.value().to_string()).collect::<Vec<_>>()
    );
}

#[test]
fn release_only_node_then_push() {
    let mut list = LinkedList::<u32>::new();
    let a = list.push_back(1);
    assert_eq!(Some(1), list.release(a));
    assert!(list.values().is_empty());
    assert!(list.current().is_none());
    assert!(list.eq(&LinkedList::new()));

    let b = list.push_back(2);
    assert_eq!(vec![&2], list.values());
    assert_eq!(Some((&2, &2, &2)), list.neighbors(&b));
    let mut fresh = LinkedList::<u32>::new();
    let _b = fresh.push_back(2);
    assert!(list.eq(&fresh));
}

#[test]
fn release_current_starts_at_successor() {
    let mut list = LinkedList::<u32>::new();
    let a = list.push_back(1);
    let _b = list.push_back(2);
    let _c = list.push_back(3);
    assert_eq!(Some(&1), list.current().map(|n| n.value()));
    list.release(a);
    assert_eq!(Some(&2), list.current().map(|n| n.value()));
    assert_eq!(vec![&2, &3], list.values());
    let _d = list.push_back(4);
    assert_eq!(vec![&2, &3, &4], list.values());
}

#[test]
fn rotate_round_trip() {
    let mut list = LinkedList::<u32>::new();
    let _a = list.push_back(1);
    let _b = list.push_back(2);
    let _c = list.push_back(3);
    assert_eq!(vec![&1, &2, &3], list.next().prev().values());
    assert_eq!(vec![&1, &2, &3], list.prev().next().values());
    assert_eq!(vec![&3, &1, &2], list.next().next().values());
    assert_eq!(vec![&2, &3, &1], list.prev().prev().values());
    assert_eq!(Some(&1), list.next().prev().current().map(|n| n.value()));
    assert_eq!(vec![&1, &2, &3], list.values());
    assert_eq!(
        vec![2, 3, 1],
        list.next().iter().iter().map(|n| *n.value()).collect::<Vec<_>>()
    );

    let empty = LinkedList::<u32>::new();
    assert!(empty.next().values().is_empty());
    assert!(empty.prev().values().is_empty());
    assert!(empty.next().current().is_none());

    let mut one = LinkedList::<u32>::new();
    let _x = one.push_back(9);
    assert_eq!(vec![&9], one.next().values());
    assert_eq!(vec![&9], one.prev().values());
}

#[test]
fn interleaved_pushes_and_releases() {
    let mut list = LinkedList::<u32>::new();
    let h0 = list.push_back(0);
    let h1 = list.push_back(1);
    assert_eq!(Some(0), list.release(h0));
    let h2 = list.push_back(2);
    let h3 = list.push_back(3);
    assert_eq!(vec![&1, &2, &3], list.values());
    assert_eq!(Some(2), list.release(h2));
    let h4 = list.push_back(4);
    assert_eq!(vec![&1, &3, &4], list.values());
    assert_eq!(Some(1), list.release(h1));
    assert_eq!(Some(4), list.release(h4));
    let h5 = list.push_back(5);
    assert_eq!(vec![&3, &5], list.values());
    assert_eq!(Some(&3), h3.value(&list));
    assert_eq!(Some(&5), h5.value(&list));
    assert_eq!(Some((&5, &3, &5)), list.neighbors(&h3));
    assert_eq!(Some(3), list.release(h3));
    assert_eq!(Some(5), list.release(h5));
    assert!(list.values().is_empty());
}

#[test]
fn foreign_handle_changes_nothing() {
    let mut big = LinkedList::<u32>::new();
    let _a = big.push_back(1);
    let _b = big.push_back(2);
    let c = big.push_back(3);
    let mut small = LinkedList::<u32>::new();
    let _x = small.push_back(7);
    assert_eq!(None, c.value(&small));
    assert_eq!(None, small.neighbors(&c));
    assert_eq!(None, small.release(c));
    assert_eq!(vec![&7], small.values());
}

#[test]
fn extend_appends_in_order() {
    let mut list = LinkedList::<u32>::new();
    let _a = list.push_back(1);
    let mut handles = list.extend(vec![2, 3, 4]);
    assert_eq!(vec![&1, &2, &3, &4], list.values());
    assert_eq!(3, handles.len());
    let last = handles.pop().unwrap();
    assert_eq!(Some(&4), last.value(&list));
    let first = handles.remove(0);
    assert_eq!(Some(2), list.release(first));
    assert_eq!(vec![&1, &3, &4], list.values());
    assert!(list.extend(Vec::new()).is_empty());
}

#[test]
fn equality_ignores_slots() {
    let mut left = LinkedList::<u32>::new();
    let x = left.push_back(9);
    let _a = left.push_back(1);
    let _b = left.push_back(2);
    left.release(x);
    let mut right = LinkedList::<u32>::default();
    let _c = right.push_back(1);
    let _d = right.push_back(2);
    assert!(left.eq(&right));
    let mut swapped = LinkedList::<u32>::new();
    let _e = swapped.push_back(2);
    let _f = swapped.push_back(1);
    assert!(!left.eq(&swapped));
}
