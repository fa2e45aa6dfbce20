use indexed_store::map::{IndexedMap, IterMode};
use indexed_store::record::{encode, Category};

fn cat(name: &[u8]) -> Category {
    Category { id: u32::MAX, name: name.to_vec() }
}

#[test]
fn raw_iteration_modes() {
    let mut m = IndexedMap::new();
    assert_eq!(m.insert(cat(b"b")).unwrap(), 0);
    assert_eq!(m.insert(cat(b"a")).unwrap(), 1);
    assert_eq!(m.count(), 2);

    let stored = m.get_by_id(0).unwrap();
    assert_eq!(stored, encode(&Category { id: 0, name: b"b".to_vec() }));

    let keys = |mode: &IterMode| -> Vec<Vec<u8>> {
        m.inner_iterator(mode).into_iter().map(|(k, _)| k).collect()
    };
    assert_eq!(keys(&IterMode::Start), vec![b"a".to_vec(), b"b".to_vec()]);
    assert_eq!(keys(&IterMode::End), vec![b"b".to_vec(), b"a".to_vec()]);
    assert_eq!(keys(&IterMode::ForwardFrom(b"aa".to_vec())), vec![b"b".to_vec()]);
    assert_eq!(keys(&IterMode::ReverseFrom(b"aa".to_vec())), vec![b"a".to_vec()]);
}

#[test]
fn deactivated_ids_stay_out_of_circulation() {
    let mut m = IndexedMap::new();
    assert_eq!(m.insert(cat(b"b")).unwrap(), 0);
    assert_eq!(m.insert(cat(b"a")).unwrap(), 1);

    m.deactivate(1).unwrap();
    assert_eq!(m.count(), 1);
    assert!(m.get_by_id(1).is_none());

    // Identifier 1 is retired for good; the next insert advances instead.
    assert_eq!(m.insert(cat(b"c")).unwrap(), 2);

    // A removed identifier, in contrast, is reused at once.
    m.remove(0).unwrap();
    assert_eq!(m.insert(cat(b"d")).unwrap(), 0);
}

#[test]
fn update_moves_the_record_to_its_new_key() {
    let mut m = IndexedMap::new();
    assert_eq!(m.insert(cat(b"m")).unwrap(), 0);
    assert_eq!(m.insert(cat(b"t")).unwrap(), 1);

    let old_entity = Category { id: 0, name: b"m".to_vec() };
    let new_entity = Category { id: 0, name: b"z".to_vec() };
    m.update(0, &old_entity, &new_entity).unwrap();

    let keys: Vec<Vec<u8>> =
        m.inner_iterator(&IterMode::Start).into_iter().map(|(k, _)| k).collect();
    assert_eq!(keys, vec![b"t".to_vec(), b"z".to_vec()]);
}
