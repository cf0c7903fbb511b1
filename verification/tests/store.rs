use tini::ordered_hashmap::OrderedHashMap;

#[test]
fn store_basics() {
    let mut m: OrderedHashMap<String> = OrderedHashMap::new();
    assert_eq!(m.len(), 0);
    assert_eq!(m.insert("b".to_string(), "2".to_string()), None);
    assert_eq!(m.insert("a".to_string(), "1".to_string()), None);
    assert_eq!(m.len(), 2);
    assert_eq!(m.get("a"), Some(&"1".to_string()));
    assert_eq!(m.get("missing"), None);
    assert_eq!(m.keys(), ["b", "a"]);
}

#[test]
fn store_insert_returns_previous() {
    let mut m: OrderedHashMap<u32> = OrderedHashMap::new();
    assert_eq!(m.insert("k".to_string(), 1), None);
    assert_eq!(m.insert("k".to_string(), 2), Some(1));
    assert_eq!(m.len(), 1);
    assert_eq!(m.get("k"), Some(&2));
    assert_eq!(m.keys(), ["k"]);
}

#[test]
fn store_entry_creates_once() {
    let mut m: OrderedHashMap<u32> = OrderedHashMap::new();
    {
        let slot = m.entry("x".to_string(), 7);
        assert_eq!(*slot, 7);
        *slot = 8;
    }
    {
        let slot = m.entry("x".to_string(), 99);
        assert_eq!(*slot, 8);
    }
    assert_eq!(m.len(), 1);
    assert_eq!(m.keys(), ["x"]);
}

#[test]
fn store_iter_order() {
    let mut m: OrderedHashMap<u32> = OrderedHashMap::new();
    m.insert("one".to_string(), 1);
    m.insert("two".to_string(), 2);
    m.insert("one".to_string(), 10);
    let mut it = m.iter();
    let mut seen: Vec<(String, u32)> = Vec::new();
    while let Some((k, v)) = it.next() {
        seen.push((k.clone(), *v));
    }
    assert_eq!(seen, [("one".to_string(), 10), ("two".to_string(), 2)]);
}

#[test]
fn store_iter_mut_in_place() {
    let mut m: OrderedHashMap<u32> = OrderedHashMap::new();
    m.insert("a".to_string(), 1);
    m.insert("b".to_string(), 2);
    let mut it = m.iter_mut();
    while it.has_next(&m) {
        let (_, v) = it.next(&mut m);
        *v += 10;
    }
    assert_eq!(m.get("a"), Some(&11));
    assert_eq!(m.get("b"), Some(&12));
    assert_eq!(m.keys(), ["a", "b"]);
}

#[test]
fn store_get_at() {
    let mut m: OrderedHashMap<u32> = OrderedHashMap::new();
    m.insert("first".to_string(), 1);
    m.insert("second".to_string(), 2);
    let (k, v) = m.get_at(1);
    assert_eq!(k, "second");
    assert_eq!(*v, 2);
}
