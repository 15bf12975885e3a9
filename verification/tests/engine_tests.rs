use bronzedb::engine::{Engine, Scanner};
use bronzedb::engine_impl::{filter_entries, EngineImpl, GuardScanner};
use bronzedb::status::Error;
use bronzedb::types::{Entry, Key};

fn key(text: &str) -> Key {
    Key::from(text.as_bytes().to_vec())
}

fn filled(keys: &[&str]) -> EngineImpl {
    let mut engine = EngineImpl::new();
    for name in keys {
        engine.set(key(name), name.to_uppercase().into_bytes()).unwrap();
    }
    engine
}

fn scanned_keys(items: Vec<Result<Entry, Error>>) -> Vec<Vec<u8>> {
    items.into_iter().map(|item| item.unwrap().0.into_bytes()).collect()
}

#[test]
fn new_engine_is_empty() {
    let engine = EngineImpl::new();
    assert_eq!(0, engine.len());
    assert_eq!(None, engine.get(key("name")).unwrap());
    assert!(engine.scan(None, None).unwrap().iter().is_empty());
}

#[test]
fn set_then_get() {
    let mut engine = EngineImpl::new();
    engine.set(key("name"), b"Hexi".to_vec()).unwrap();
    assert_eq!(Some(b"Hexi".to_vec()), engine.get(key("name")).unwrap());
    assert_eq!(None, engine.get(key("nam")).unwrap());
    assert_eq!(None, engine.get(key("names")).unwrap());
    assert_eq!(1, engine.len());
}

#[test]
fn set_overwrites() {
    let mut engine = EngineImpl::new();
    engine.set(key("name"), b"Hexi".to_vec()).unwrap();
    engine.set(key("name"), b"Lee".to_vec()).unwrap();
    assert_eq!(Some(b"Lee".to_vec()), engine.get(key("name")).unwrap());
    assert_eq!(1, engine.len());
}

#[test]
fn set_is_idempotent() {
    let mut engine = EngineImpl::new();
    engine.set(key("k"), b"v".to_vec()).unwrap();
    engine.set(key("k"), b"v".to_vec()).unwrap();
    assert_eq!(Some(b"v".to_vec()), engine.get(key("k")).unwrap());
    assert_eq!(1, engine.len());
}

#[test]
fn delete_then_get() {
    let mut engine = filled(&["name"]);
    engine.delete(key("name")).unwrap();
    assert_eq!(None, engine.get(key("name")).unwrap());
    assert_eq!(0, engine.len());
}

#[test]
fn delete_of_absent_key_succeeds_twice() {
    let mut engine = filled(&["a"]);
    assert!(engine.delete(key("b")).is_ok());
    assert!(engine.delete(key("b")).is_ok());
    assert_eq!(1, engine.len());
    assert!(engine.delete(key("a")).is_ok());
    assert!(engine.delete(key("a")).is_ok());
    assert_eq!(0, engine.len());
}

#[test]
fn scan_is_inclusive_on_both_ends() {
    let engine = filled(&["a", "b", "c", "d"]);
    let items = engine.scan(Some(key("b")), Some(key("c"))).unwrap().iter();
    assert_eq!(vec![b"b".to_vec(), b"c".to_vec()], scanned_keys(items));
}

#[test]
fn scan_without_bounds_gives_all_in_key_order() {
    let engine = filled(&["d", "b", "a", "c"]);
    let items = engine.scan(None, None).unwrap().iter();
    let entries: Vec<Entry> = items.into_iter().map(|item| item.unwrap()).collect();
    assert_eq!(
        vec![
            (key("a"), b"A".to_vec()),
            (key("b"), b"B".to_vec()),
            (key("c"), b"C".to_vec()),
            (key("d"), b"D".to_vec()),
        ],
        entries
    );
    let again = engine.scan(None, None).unwrap().iter();
    assert_eq!(
        vec![b"a".to_vec(), b"b".to_vec(), b"c".to_vec(), b"d".to_vec()],
        scanned_keys(again)
    );
}

#[test]
fn scan_with_one_bound() {
    let engine = filled(&["a", "b", "c", "d"]);
    let items = engine.scan(Some(key("c")), None).unwrap().iter();
    assert_eq!(vec![b"c".to_vec(), b"d".to_vec()], scanned_keys(items));
    let items = engine.scan(None, Some(key("b"))).unwrap().iter();
    assert_eq!(vec![b"a".to_vec(), b"b".to_vec()], scanned_keys(items));
    let items = engine.scan(Some(key("bb")), Some(key("cc"))).unwrap().iter();
    assert_eq!(vec![b"c".to_vec()], scanned_keys(items));
    let items = engine.scan(Some(key("d")), Some(key("a"))).unwrap().iter();
    assert!(items.is_empty());
}

#[test]
fn scanner_gives_its_items_once() {
    let engine = filled(&["a", "b"]);
    let mut scanner = engine.scan(None, None).unwrap();
    assert_eq!(2, scanner.iter().len());
    assert!(scanner.iter().is_empty());
}

#[test]
fn scan_does_not_see_a_later_set() {
    let mut engine = filled(&["a", "c"]);
    let mut scanner = engine.scan(None, None).unwrap();
    engine.set(key("b"), b"B".to_vec()).unwrap();
    assert_eq!(vec![b"a".to_vec(), b"c".to_vec()], scanned_keys(scanner.iter()));
    assert_eq!(3, engine.len());
}

#[test]
fn scan_still_gives_a_key_deleted_later() {
    let mut engine = filled(&["a", "b", "c"]);
    let mut scanner = engine.scan(None, None).unwrap();
    engine.delete(key("a")).unwrap();
    engine.delete(key("c")).unwrap();
    assert_eq!(
        vec![b"a".to_vec(), b"b".to_vec(), b"c".to_vec()],
        scanned_keys(scanner.iter())
    );
    assert_eq!(1, engine.len());
}

#[test]
fn keys_are_kept_in_lexicographic_order() {
    let mut engine = EngineImpl::new();
    for name in ["hahah", "xixi", "haa", "", "haha", "hah"] {
        engine.set(key(name), Vec::new()).unwrap();
    }
    let items = engine.scan(None, None).unwrap().iter();
    assert_eq!(
        vec![
            b"".to_vec(),
            b"haa".to_vec(),
            b"hah".to_vec(),
            b"haha".to_vec(),
            b"hahah".to_vec(),
            b"xixi".to_vec()
        ],
        scanned_keys(items)
    );
}

#[test]
fn filter_entries_keeps_the_order() {
    let entries: Vec<Entry> = vec![
        (key("d"), b"4".to_vec()),
        (key("a"), b"1".to_vec()),
        (key("c"), b"3".to_vec()),
        (key("b"), b"2".to_vec()),
    ];
    let filtered = filter_entries(&entries, &Some(key("b")), &Some(key("d")));
    assert_eq!(
        vec![(key("d"), b"4".to_vec()), (key("c"), b"3".to_vec()), (key("b"), b"2".to_vec())],
        filtered
    );
    assert_eq!(entries, filter_entries(&entries, &None, &None));
}

#[test]
fn guard_scanner_filters_what_it_was_given() {
    let entries: Vec<Entry> = vec![(key("a"), b"1".to_vec()), (key("b"), b"2".to_vec())];
    let mut scanner = GuardScanner::new(entries, Some(key("b")), None);
    assert_eq!(vec![b"b".to_vec()], scanned_keys(scanner.iter()));
}

#[test]
fn many_keys() {
    let mut engine = EngineImpl::new();
    for i in 0..500u32 {
        let text = ((i * 7919) % 500).to_string();
        engine.set(key(&text), text.clone().into_bytes()).unwrap();
    }
    assert_eq!(500, engine.len());
    for i in 0..500u32 {
        let text = i.to_string();
        assert_eq!(Some(text.clone().into_bytes()), engine.get(key(&text)).unwrap());
    }
    let items = engine.scan(Some(key("100")), Some(key("199"))).unwrap().iter();
    let keys = scanned_keys(items);
    let mut sorted = keys.clone();
    sorted.sort();
    assert_eq!(sorted, keys);
    assert_eq!(109, keys.len());
    for i in (0..500u32).step_by(2) {
        engine.delete(key(&i.to_string())).unwrap();
    }
    assert_eq!(250, engine.len());
    assert_eq!(None, engine.get(key("42")).unwrap());
    assert_eq!(Some(b"43".to_vec()), engine.get(key("43")).unwrap());
}

#[test]
fn engine_agrees_with_a_sorted_map() {
    let mut engine = EngineImpl::new();
    let mut model: std::collections::BTreeMap<Vec<u8>, Vec<u8>> = std::collections::BTreeMap::new();
    let mut seed: u64 = 0x2545_f491_4f6c_dd1d;
    let mut next = move || {
        seed ^= seed << 13;
        seed ^= seed >> 7;
        seed ^= seed << 17;
        seed
    };
    for round in 0..4000u32 {
        let length = (next() % 4) as usize;
        let name: Vec<u8> = (0..length).map(|_| (next() % 3) as u8 * 127).collect();
        match next() % 4 {
            0 | 1 => {
                let value = round.to_be_bytes().to_vec();
                engine.set(Key::from(name.clone()), value.clone()).unwrap();
                model.insert(name, value);
            }
            2 => {
                engine.delete(Key::from(name.clone())).unwrap();
                model.remove(&name);
            }
            _ => {
                assert_eq!(model.get(&name).cloned(), engine.get(Key::from(name)).unwrap());
            }
        }
        assert_eq!(model.len(), engine.len());
    }
    let lower: Vec<u8> = vec![0, 127];
    let upper: Vec<u8> = vec![127, 254];
    let items = engine
        .scan(Some(Key::from(lower.clone())), Some(Key::from(upper.clone())))
        .unwrap()
        .iter();
    let scanned: Vec<(Vec<u8>, Vec<u8>)> =
        items.into_iter().map(|item| item.unwrap()).map(|(k, v)| (k.into_bytes(), v)).collect();
    let expected: Vec<(Vec<u8>, Vec<u8>)> =
        model.range(lower..=upper).map(|(k, v)| (k.clone(), v.clone())).collect();
    assert_eq!(expected, scanned);
    let all: Vec<Vec<u8>> = scanned_keys(engine.scan(None, None).unwrap().iter());
    let expected: Vec<Vec<u8>> = model.keys().cloned().collect();
    assert_eq!(expected, all);
}
