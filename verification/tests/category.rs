use indexed_store::record::Category;
use indexed_store::table::IndexedTable;
use indexed_store::Error;

fn set_up_db() -> (IndexedTable, Vec<Category>) {
    let mut table = IndexedTable::new();
    table.setup().unwrap();

    let mut entries = vec![
        Category { id: u32::MAX, name: b"c".to_vec() },
        Category { id: u32::MAX, name: b"a".to_vec() },
        Category { id: u32::MAX, name: b"b".to_vec() },
        Category { id: u32::MAX, name: b"d".to_vec() },
    ];

    for e in entries.iter_mut() {
        let added = table.add(&e.name).unwrap();
        e.id = added;
    }
    (table, entries)
}

const DEFAULT_ENTRIES_LEN: usize = 2;

#[test]
fn add() {
    let (table, entries) = set_up_db();

    assert_eq!(table.count(), entries.len() + DEFAULT_ENTRIES_LEN);
}

#[test]
fn get() {
    let (table, entries) = set_up_db();

    for (id, entry) in entries.iter().enumerate() {
        assert_eq!(table.get(entry.id).unwrap(), *entry);
        assert_eq!(id + DEFAULT_ENTRIES_LEN + 1, entry.id as usize);
    }
}

#[test]
fn update_for_new_existing_key() {
    let (mut table, entries) = set_up_db();

    assert!(table.update(1 + DEFAULT_ENTRIES_LEN as u32 + 1, b"a", b"b").is_err());

    assert_eq!(table.count(), entries.len() + DEFAULT_ENTRIES_LEN);
}

#[test]
fn get_range_before() {
    let (table, entries) = set_up_db();

    let res = table
        .get_range(
            Some(Category { id: 1 + DEFAULT_ENTRIES_LEN as u32 + 1, name: b"a".to_vec() }),
            None,
            false,
            2,
        )
        .unwrap();
    assert_eq!(res.len(), std::cmp::min(0 + DEFAULT_ENTRIES_LEN, 2));

    let res = table
        .get_range(
            Some(Category { id: 2 + DEFAULT_ENTRIES_LEN as u32 + 1, name: b"a".to_vec() }),
            None,
            false,
            2,
        )
        .unwrap();
    assert_eq!(res.len(), std::cmp::min(1 + DEFAULT_ENTRIES_LEN, 2));
    assert_eq!(res[0], entries[1]);
}

#[test]
fn get_range_after() {
    let (table, entries) = set_up_db();

    let res = table
        .get_range(
            None,
            Some(Category { id: 1 + DEFAULT_ENTRIES_LEN as u32 + 1, name: b"a".to_vec() }),
            true,
            2,
        )
        .unwrap();
    assert_eq!(res.len(), 2);
    assert_eq!(res[0], entries[2]);
    assert_eq!(res[1], entries[0]);

    let res = table
        .get_range(
            None,
            Some(Category { id: 0 + DEFAULT_ENTRIES_LEN as u32 + 1, name: b"a".to_vec() }),
            true,
            2,
        )
        .unwrap();
    assert_eq!(res.len(), 2);
    assert_eq!(res[0], entries[1]);
    assert_eq!(res[1], entries[2]);
}

#[test]
fn get_range_first() {
    let (table, entries) = set_up_db();

    let res = table.get_range(None, None, true, 4).unwrap();
    assert_eq!(res[2..].iter().collect::<Vec<_>>(), vec![&entries[1], &entries[2]]);
}

#[test]
fn get_range_last() {
    let (table, entries) = set_up_db();

    let res1 = table.get_range(None, None, false, 2).unwrap();
    let res2 = table
        .get_range(
            Some(Category { id: 5 + DEFAULT_ENTRIES_LEN as u32 + 1, name: b"x".to_vec() }),
            Some(Category { id: 10 + DEFAULT_ENTRIES_LEN as u32 + 1, name: b"z".to_vec() }),
            false,
            2,
        )
        .unwrap();

    assert_eq!(res1, res2);
    assert_eq!(res1.iter().collect::<Vec<_>>(), vec![&entries[3], &entries[0]]);
}

#[test]
fn setup_seeds_defaults() {
    let mut table = IndexedTable::new();
    table.setup().unwrap();

    assert_eq!(table.count(), 2);
    assert_eq!(table.get(1).unwrap().name, b"Non-Specified Alert".to_vec());
    assert_eq!(table.get(2).unwrap().name, b"Irrelevant Alert".to_vec());
    assert_eq!(table.get(0).unwrap_err(), Error::NotFound);

    let added = table.add(b"first user entry").unwrap();
    assert_eq!(added, 3);
}

#[test]
fn setup_twice_is_idempotent() {
    let mut table = IndexedTable::new();
    table.setup().unwrap();
    table.setup().unwrap();
    assert_eq!(table.count(), 2);
}

#[test]
fn distinct_names_get_distinct_ids() {
    let mut table = IndexedTable::new();
    table.setup().unwrap();

    let id1 = table.add(b"one").unwrap();
    let id2 = table.add(b"two").unwrap();
    assert_ne!(id1, id2);

    assert_eq!(table.add(b"one").unwrap_err(), Error::KeyExists);
}

#[test]
fn update_is_compare_and_swap() {
    let mut table = IndexedTable::new();
    table.setup().unwrap();
    let id = table.add(b"old name").unwrap();

    assert_eq!(table.update(id, b"wrong", b"whatever").unwrap_err(), Error::ValueMismatch);
    assert_eq!(table.get(id).unwrap().name, b"old name".to_vec());

    table.update(id, b"old name", b"new name").unwrap();
    assert_eq!(table.get(id).unwrap().name, b"new name".to_vec());

    assert_eq!(table.update(id + 1000, b"new name", b"x").unwrap_err(), Error::NotFound);
}

#[test]
fn removed_id_is_reused() {
    let mut table = IndexedTable::new();
    table.setup().unwrap();
    let id1 = table.add(b"short lived").unwrap();
    let id2 = table.add(b"stays").unwrap();
    assert_eq!(id1, 3);
    assert_eq!(id2, 4);

    table.remove(id1).unwrap();
    let id3 = table.add(b"takes the gap").unwrap();
    assert_eq!(id3, id1);
}

#[test]
fn stale_cursor_is_tolerated() {
    let (table, entries) = set_up_db();

    // The cursor names "a" but carries another id: no record is skipped.
    let res = table
        .get_range(None, Some(Category { id: 999, name: b"a".to_vec() }), true, 2)
        .unwrap();
    assert_eq!(res[0], entries[1]);
    assert_eq!(res[1], entries[2]);
}

#[test]
fn range_walks_from_cursor() {
    // Entries by name are a, b, c, d after the two defaults.
    let (table, entries) = set_up_db();
    let a_id = entries[1].id;
    let c_id = entries[0].id;

    let res = table
        .get_range(None, Some(Category { id: a_id, name: b"a".to_vec() }), true, 2)
        .unwrap();
    assert_eq!(res, vec![entries[2].clone(), entries[0].clone()]);

    let res = table
        .get_range(Some(Category { id: c_id, name: b"c".to_vec() }), None, false, 2)
        .unwrap();
    assert_eq!(res, vec![entries[2].clone(), entries[1].clone()]);
}

#[test]
fn empty_name_is_listed_from_the_start() {
    let mut table = IndexedTable::new();
    let empty_id = table.add(b"").unwrap();
    let other_id = table.add(b"a").unwrap();

    let res = table.get_range(None, None, true, 2).unwrap();
    assert_eq!(res.len(), 2);
    assert_eq!(res[0], Category { id: empty_id, name: Vec::new() });
    assert_eq!(res[1], Category { id: other_id, name: b"a".to_vec() });

    let res = table.get_range(None, None, false, 2).unwrap();
    assert_eq!(res[0], Category { id: other_id, name: b"a".to_vec() });
    assert_eq!(res[1], Category { id: empty_id, name: Vec::new() });
}

#[test]
fn setup_aborts_when_reserved_id_is_taken() {
    let mut table = IndexedTable::new();
    assert_eq!(table.add(b"claims id zero").unwrap(), 0);
    table.deactivate(0).unwrap();

    // The table is empty but id 0 is retired: the bootstrap backs out.
    table.setup().unwrap();
    assert_eq!(table.count(), 0);
}
