use cosmwasm_vm::key_order::{compare_bytes, Comparison};
use cosmwasm_vm::{range_bounds, Bound, MockStorage, Order, KV};

fn collect(store: &MockStorage, start: Option<&[u8]>, end: Option<&[u8]>, order: Order) -> Vec<KV> {
    let (items, gas) = store.range(start, end, order);
    assert_eq!(gas, 0);
    items.into_iter().map(|(item, _gas)| item).collect()
}

fn kv(k: &[u8], v: &[u8]) -> KV {
    (k.to_vec(), v.to_vec())
}

// takes a storage, adds data and runs iterator tests
// the storage must previously have exactly one key: "foo" = "bar"
fn iterator_test_suite(store: &mut MockStorage) {
    // ensure we had previously set "foo" = "bar"
    assert_eq!(store.get(b"foo").0, Some(b"bar".to_vec()));
    assert_eq!(store.range(None, None, Order::Ascending).0.len(), 1);

    // setup - add some data, and delete part of it as well
    store.set(b"ant", b"hill");
    store.set(b"ze", b"bra");

    // noise that should be ignored
    store.set(b"bye", b"bye");
    store.remove(b"bye");

    // unbounded
    assert_eq!(
        collect(store, None, None, Order::Ascending),
        vec![kv(b"ant", b"hill"), kv(b"foo", b"bar"), kv(b"ze", b"bra")]
    );

    // unbounded (descending)
    assert_eq!(
        collect(store, None, None, Order::Descending),
        vec![kv(b"ze", b"bra"), kv(b"foo", b"bar"), kv(b"ant", b"hill")]
    );

    // bounded
    assert_eq!(
        collect(store, Some(b"f"), Some(b"n"), Order::Ascending),
        vec![kv(b"foo", b"bar")]
    );

    // bounded (descending)
    assert_eq!(
        collect(store, Some(b"air"), Some(b"loop"), Order::Descending),
        vec![kv(b"foo", b"bar"), kv(b"ant", b"hill")]
    );

    // bounded empty [a, a)
    assert_eq!(collect(store, Some(b"foo"), Some(b"foo"), Order::Ascending), vec![]);

    // bounded empty [a, a) (descending)
    assert_eq!(collect(store, Some(b"foo"), Some(b"foo"), Order::Descending), vec![]);

    // bounded empty [a, b) with b < a
    assert_eq!(collect(store, Some(b"z"), Some(b"a"), Order::Ascending), vec![]);

    // bounded empty [a, b) with b < a (descending)
    assert_eq!(collect(store, Some(b"z"), Some(b"a"), Order::Descending), vec![]);

    // right unbounded
    assert_eq!(
        collect(store, Some(b"f"), None, Order::Ascending),
        vec![kv(b"foo", b"bar"), kv(b"ze", b"bra")]
    );

    // right unbounded (descending)
    assert_eq!(
        collect(store, Some(b"f"), None, Order::Descending),
        vec![kv(b"ze", b"bra"), kv(b"foo", b"bar")]
    );

    // left unbounded
    assert_eq!(collect(store, None, Some(b"f"), Order::Ascending), vec![kv(b"ant", b"hill")]);

    // left unbounded (descending)
    assert_eq!(
        collect(store, None, Some(b"no"), Order::Descending),
        vec![kv(b"foo", b"bar"), kv(b"ant", b"hill")]
    );
}

#[test]
fn get_and_set() {
    let mut store = MockStorage::new();
    assert_eq!(None, store.get(b"foo").0);
    store.set(b"foo", b"bar");
    assert_eq!(Some(b"bar".to_vec()), store.get(b"foo").0);
    assert_eq!(None, store.get(b"food").0);
}

#[test]
fn delete() {
    let mut store = MockStorage::new();
    store.set(b"foo", b"bar");
    store.set(b"food", b"bank");
    store.remove(b"foo");

    assert_eq!(None, store.get(b"foo").0);
    assert_eq!(Some(b"bank".to_vec()), store.get(b"food").0);
}

#[test]
fn iterator() {
    let mut store = MockStorage::new();
    store.set(b"foo", b"bar");
    iterator_test_suite(&mut store);
}

#[test]
fn gas_costs() {
    let mut store = MockStorage::default();
    assert_eq!(store.set(b"foo", b"bar1"), 7);
    assert_eq!(store.get(b"foo").1, 3);
    assert_eq!(store.get(b"missing").1, 7);
    assert_eq!(store.remove(b"foo"), 3);
    assert_eq!(store.remove(b"foo"), 3);
    store.set(b"a", b"xyz");
    store.set(b"bc", b"");
    let (items, gas) = store.range(None, None, Order::Ascending);
    assert_eq!(gas, 0);
    let costs: Vec<u64> = items.iter().map(|(_, g)| *g).collect();
    assert_eq!(costs, vec![4, 2]);
}

#[test]
fn set_overwrites_and_remove_absent() {
    let mut store = MockStorage::new();
    store.set(b"k", b"one");
    store.set(b"k", b"two");
    assert_eq!(store.get(b"k").0, Some(b"two".to_vec()));
    assert_eq!(collect(&store, None, None, Order::Ascending), vec![kv(b"k", b"two")]);
    store.remove(b"nothing");
    assert_eq!(collect(&store, None, None, Order::Ascending), vec![kv(b"k", b"two")]);
    store.remove(b"k");
    assert_eq!(store.get(b"k").0, None);
    assert_eq!(collect(&store, None, None, Order::Descending), vec![]);
}

#[test]
fn keys_in_byte_order() {
    let mut store = MockStorage::new();
    store.set(b"b", b"2");
    store.set(b"", b"empty");
    store.set(b"ab", b"3");
    store.set(b"a", b"1");
    store.set(&[0xff], b"4");
    store.set(b"a\x00", b"5");
    assert_eq!(
        collect(&store, None, None, Order::Ascending),
        vec![
            kv(b"", b"empty"),
            kv(b"a", b"1"),
            kv(b"a\x00", b"5"),
            kv(b"ab", b"3"),
            kv(b"b", b"2"),
            kv(&[0xff], b"4"),
        ]
    );
    // start included, end excluded
    assert_eq!(
        collect(&store, Some(b"a"), Some(b"ab"), Order::Ascending),
        vec![kv(b"a", b"1"), kv(b"a\x00", b"5")]
    );
    let mut asc = collect(&store, Some(b"a"), Some(b"b"), Order::Ascending);
    asc.reverse();
    assert_eq!(collect(&store, Some(b"a"), Some(b"b"), Order::Descending), asc);
    assert_eq!(store.get(b"").0, Some(b"empty".to_vec()));
}

#[test]
fn range_bounds_shape() {
    match range_bounds(Some(b"ab"), None) {
        (Bound::Included(s), Bound::Unbounded) => assert_eq!(s, b"ab".to_vec()),
        other => panic!("unexpected bounds {:?}", other),
    }
    match range_bounds(None, Some(b"z")) {
        (Bound::Unbounded, Bound::Excluded(e)) => assert_eq!(e, b"z".to_vec()),
        other => panic!("unexpected bounds {:?}", other),
    }
}

#[test]
fn compare_bytes_order() {
    assert_eq!(compare_bytes(b"a", b"b"), Comparison::Less);
    assert_eq!(compare_bytes(b"ab", b"a"), Comparison::Greater);
    assert_eq!(compare_bytes(b"", b""), Comparison::Equal);
    assert_eq!(compare_bytes(b"", b"\x00"), Comparison::Less);
    assert_eq!(compare_bytes(b"abc", b"abc"), Comparison::Equal);
    assert_eq!(compare_bytes(&[200], &[100, 255]), Comparison::Greater);
}
