use deepsql::error::Error;
use deepsql::storage::btree::BTree;
use deepsql::storage::file_format::DEFAULT_PAGE_SIZE;
use deepsql::storage::page::PageType;
use deepsql::storage::pager::Pager;
use deepsql::storage::record::{Record, Value};

fn fresh_pager() -> Pager {
    Pager::open_image(Vec::new(), 256).unwrap()
}

#[test]
fn test_create_database() {
    let pager = fresh_pager();
    assert_eq!(pager.page_size(), DEFAULT_PAGE_SIZE);
    assert_eq!(pager.page_count(), 1);
}

#[test]
fn test_allocate_page() {
    let mut pager = fresh_pager();
    let page = pager.allocate_page(PageType::Leaf).unwrap();
    assert_eq!(page.id, 2);
    assert_eq!(pager.page_count(), 2);
}

#[test]
fn test_read_write_page() {
    let mut pager = fresh_pager();
    let mut page = pager.allocate_page(PageType::Leaf).unwrap();
    page.data[100] = 42;
    let id = page.id;
    pager.write_page(page).unwrap();
    pager.clear_cache();
    let read_page = pager.read_page(id).unwrap();
    assert_eq!(read_page.data[100], 42);
}

#[test]
fn test_reopen_database() {
    let image = {
        let mut pager = fresh_pager();
        pager.allocate_page(PageType::Leaf).unwrap();
        pager.flush().unwrap();
        pager.file_image().clone()
    };
    let pager = Pager::open_image(image, 256).unwrap();
    assert_eq!(pager.page_count(), 2);
}

#[test]
fn pager_rejects_page_zero_and_missing_pages() {
    let mut pager = fresh_pager();
    assert!(pager.read_page(0).is_err());
    assert!(pager.read_page(9).is_err());
}

#[test]
fn transaction_rollback_restores_page() {
    let mut pager = fresh_pager();
    let page = pager.allocate_page(PageType::Leaf).unwrap();
    let id = page.id;
    pager.flush().unwrap();
    pager.begin_transaction_mode();
    let mut changed = pager.read_page(id).unwrap();
    changed.data[50] = 7;
    pager.write_page(changed).unwrap();
    assert_eq!(pager.read_page(id).unwrap().data[50], 7);
    pager.rollback_transaction_pages().unwrap();
    pager.end_transaction_mode();
    pager.clear_cache();
    assert_eq!(pager.read_page(id).unwrap().data[50], 0);
}

#[test]
fn test_search_single_record() {
    let mut pager = fresh_pager();
    let mut btree = BTree::new(&mut pager).unwrap();
    let key = vec![1, 2, 3];
    btree.insert(&mut pager, Record::new(key.clone(), vec![Value::Integer(42)])).unwrap();
    let found = btree.search(&mut pager, &key).unwrap();
    assert_eq!(found.key, key);
    assert_eq!(found.values[0], Value::Integer(42));
}

#[test]
fn test_search_not_found() {
    let mut pager = fresh_pager();
    let btree = BTree::new(&mut pager).unwrap();
    let result = btree.search(&mut pager, &[1, 2, 3]);
    assert!(result.is_err());
    assert_eq!(result.unwrap_err(), Error::NotFound);
}

#[test]
fn test_insert_single_record() {
    let mut pager = fresh_pager();
    let mut btree = BTree::new(&mut pager).unwrap();
    let key = vec![1, 2, 3];
    btree.insert(&mut pager, Record::new(key.clone(), vec![Value::Integer(42)])).unwrap();
    let found = btree.search(&mut pager, &key).unwrap();
    assert_eq!(found.key, key);
}

#[test]
fn test_insert_multiple_records() {
    let mut pager = fresh_pager();
    let mut btree = BTree::new(&mut pager).unwrap();
    for i in 0..10 {
        btree.insert(&mut pager, Record::new(vec![i as u8], vec![Value::Integer(i as i64)])).unwrap();
    }
    for i in 0..10 {
        let found = btree.search(&mut pager, &[i as u8]).unwrap();
        assert_eq!(found.values[0], Value::Integer(i as i64));
    }
}

#[test]
fn test_insert_update() {
    let mut pager = fresh_pager();
    let mut btree = BTree::new(&mut pager).unwrap();
    let key = vec![1];
    btree.insert(&mut pager, Record::new(key.clone(), vec![Value::Integer(42)])).unwrap();
    btree.insert(&mut pager, Record::new(key.clone(), vec![Value::Integer(100)])).unwrap();
    let found = btree.search(&mut pager, &key).unwrap();
    assert_eq!(found.values[0], Value::Integer(100));
}

#[test]
fn test_insert_many_records_with_splits() {
    let mut pager = fresh_pager();
    let mut btree = BTree::new(&mut pager).unwrap();
    for i in 0..100 {
        let key = format!("key_{:05}", i).into_bytes();
        btree.insert(&mut pager, Record::new(key, vec![Value::Integer(i as i64)])).unwrap();
    }
    for i in 0..100 {
        let key = format!("key_{:05}", i).into_bytes();
        let found = btree.search(&mut pager, &key);
        assert!(found.is_ok(), "Failed to find key {}", i);
        assert_eq!(found.unwrap().values[0], Value::Integer(i as i64));
    }
}

#[test]
fn test_insert_reverse_order() {
    let mut pager = fresh_pager();
    let mut btree = BTree::new(&mut pager).unwrap();
    for i in (0..50).rev() {
        btree.insert(&mut pager, Record::new(vec![i as u8], vec![Value::Integer(i as i64)])).unwrap();
    }
    for i in 0..50 {
        let found = btree.search(&mut pager, &[i as u8]).unwrap();
        assert_eq!(found.values[0], Value::Integer(i as i64));
    }
}

#[test]
fn test_delete_record() {
    let mut pager = fresh_pager();
    let mut btree = BTree::new(&mut pager).unwrap();
    let key = vec![1, 2, 3];
    btree.insert(&mut pager, Record::new(key.clone(), vec![Value::Integer(42)])).unwrap();
    assert!(btree.search(&mut pager, &key).is_ok());
    btree.delete(&mut pager, &key).unwrap();
    assert!(btree.search(&mut pager, &key).is_err());
}

#[test]
fn test_delete_nonexistent() {
    let mut pager = fresh_pager();
    let mut btree = BTree::new(&mut pager).unwrap();
    let result = btree.delete(&mut pager, &[1, 2, 3]);
    assert!(result.is_err());
    assert_eq!(result.unwrap_err(), Error::NotFound);
}

#[test]
fn test_delete_multiple() {
    let mut pager = fresh_pager();
    let mut btree = BTree::new(&mut pager).unwrap();
    for i in 0..5 {
        btree.insert(&mut pager, Record::new(vec![i as u8], vec![Value::Integer(i as i64)])).unwrap();
    }
    btree.delete(&mut pager, &[1]).unwrap();
    btree.delete(&mut pager, &[3]).unwrap();
    assert!(btree.search(&mut pager, &[0]).is_ok());
    assert!(btree.search(&mut pager, &[1]).is_err());
    assert!(btree.search(&mut pager, &[2]).is_ok());
    assert!(btree.search(&mut pager, &[3]).is_err());
    assert!(btree.search(&mut pager, &[4]).is_ok());
}

#[test]
fn test_cursor_scan() {
    let mut pager = fresh_pager();
    let mut btree = BTree::new(&mut pager).unwrap();
    for i in 0..5 {
        btree.insert(&mut pager, Record::new(vec![i as u8], vec![Value::Integer(i as i64)])).unwrap();
    }
    let mut cursor = btree.cursor(&mut pager).unwrap();
    let mut count = 0;
    while cursor.is_valid() {
        let _record = cursor.current(&mut pager).unwrap();
        count += 1;
        if !cursor.next(&mut pager).unwrap() {
            break;
        }
    }
    assert_eq!(count, 5);
}

#[test]
fn cursor_visits_keys_in_order_after_splits() {
    let mut pager = fresh_pager();
    let mut btree = BTree::new(&mut pager).unwrap();
    for i in (0..60u32).rev() {
        let key = format!("k{:04}", i).into_bytes();
        btree.insert(&mut pager, Record::new(key, vec![Value::Text("x".repeat(40))])).unwrap();
    }
    let mut cursor = btree.cursor(&mut pager).unwrap();
    let mut keys = Vec::new();
    while cursor.is_valid() {
        keys.push(cursor.current(&mut pager).unwrap().key);
        if !cursor.next(&mut pager).unwrap() {
            break;
        }
    }
    let mut sorted = keys.clone();
    sorted.sort();
    assert_eq!(keys, sorted);
    assert!(keys.len() >= 1);
}

#[test]
fn insert_into_split_tree_then_search_finds_record() {
    let mut pager = fresh_pager();
    let mut btree = BTree::new(&mut pager).unwrap();
    for i in 0..400 {
        let key = format!("k{:04}", i * 2).into_bytes();
        btree.insert(&mut pager, Record::new(key, vec![Value::Integer(i)])).unwrap();
    }
    let key = b"k0051".to_vec();
    btree.insert(&mut pager, Record::new(key.clone(), vec![Value::Text("odd".to_string())])).unwrap();
    let found = btree.search(&mut pager, &key).unwrap();
    assert_eq!(found.key, key);
    assert_eq!(found.values, vec![Value::Text("odd".to_string())]);
    assert_eq!(btree.search(&mut pager, b"k0050").unwrap().values, vec![Value::Integer(25)]);
    assert_eq!(btree.search(&mut pager, b"k0052").unwrap().values, vec![Value::Integer(26)]);
    assert_eq!(btree.search(&mut pager, b"k0053").unwrap_err(), Error::NotFound);
}

#[test]
fn delete_from_split_tree_then_search_reports_not_found() {
    let mut pager = fresh_pager();
    let mut btree = BTree::new(&mut pager).unwrap();
    for i in 0..400 {
        let key = format!("k{:04}", i).into_bytes();
        btree.insert(&mut pager, Record::new(key, vec![Value::Integer(i)])).unwrap();
    }
    let key = b"k0033".to_vec();
    btree.delete(&mut pager, &key).unwrap();
    assert_eq!(btree.search(&mut pager, &key).unwrap_err(), Error::NotFound);
    assert!(btree.search(&mut pager, b"k0032").is_ok());
    assert!(btree.search(&mut pager, b"k0034").is_ok());
}

#[test]
fn rollback_restores_every_page_written_in_the_transaction() {
    let mut pager = fresh_pager();
    let a = pager.allocate_page(PageType::Leaf).unwrap().id;
    let b = pager.allocate_page(PageType::Leaf).unwrap().id;
    let mut pa = pager.read_page(a).unwrap();
    pa.data[40] = 1;
    pager.write_page(pa).unwrap();
    pager.begin_transaction_mode();
    for v in [2u8, 3u8] {
        let mut p = pager.read_page(a).unwrap();
        p.data[40] = v;
        pager.write_page(p).unwrap();
    }
    let mut pb = pager.read_page(b).unwrap();
    pb.data[41] = 9;
    pager.write_page(pb).unwrap();
    assert_eq!(pager.read_page(a).unwrap().data[40], 3);
    pager.rollback_transaction_pages().unwrap();
    pager.end_transaction_mode();
    assert_eq!(pager.read_page(a).unwrap().data[40], 1);
    assert_eq!(pager.read_page(b).unwrap().data[41], 0);
}

#[test]
fn root_leaf_split_keeps_every_record_findable() {
    let mut pager = fresh_pager();
    let mut btree = BTree::new(&mut pager).unwrap();
    let root = btree.root_page_id();
    let mut n = 0;
    while btree.root_page_id() == root {
        let key = format!("k{:03}", n).into_bytes();
        btree.insert(&mut pager, Record::new(key, vec![Value::Text("x".repeat(500))])).unwrap();
        n += 1;
    }
    assert!(n > 1);
    for j in 0..n {
        let key = format!("k{:03}", j).into_bytes();
        let found = btree.search(&mut pager, &key).unwrap();
        assert_eq!(found.key, key);
    }
    assert!(matches!(btree.search(&mut pager, b"k999"), Err(Error::NotFound)));
}

#[test]
fn search_within_needs_enough_levels() {
    let mut pager = fresh_pager();
    let mut btree = BTree::new(&mut pager).unwrap();
    btree.insert(&mut pager, Record::new(vec![7], vec![Value::Integer(7)])).unwrap();
    assert!(btree.search_within(&mut pager, &[7], 0).is_none());
    let found = btree.search_within(&mut pager, &[7], 1).unwrap().unwrap();
    assert_eq!(found.values[0], Value::Integer(7));
    assert!(matches!(btree.search_within(&mut pager, &[8], 1), Some(Err(Error::NotFound))));
}

#[test]
fn cursor_within_needs_enough_levels() {
    let mut pager = fresh_pager();
    let mut btree = BTree::new(&mut pager).unwrap();
    btree.insert(&mut pager, Record::new(vec![3], vec![Value::Integer(3)])).unwrap();
    assert!(btree.cursor_within(&mut pager, 0).is_none());
    let cursor = btree.cursor_within(&mut pager, 1).unwrap().unwrap();
    assert_eq!(cursor.current(&mut pager).unwrap().key, vec![3]);
}

#[test]
fn leaf_split_under_interior_root_keeps_every_record_findable() {
    let mut pager = fresh_pager();
    let mut btree = BTree::new(&mut pager).unwrap();
    let first_root = btree.root_page_id();
    let mut n = 0;
    while btree.root_page_id() == first_root {
        let key = format!("k{:03}", n).into_bytes();
        btree.insert(&mut pager, Record::new(key, vec![Value::Text("x".repeat(500))])).unwrap();
        n += 1;
    }
    let root = btree.root_page_id();
    let pages_before = pager.page_count();
    let mut m = n;
    while pager.page_count() == pages_before {
        let key = format!("k{:03}", m).into_bytes();
        btree.insert(&mut pager, Record::new(key, vec![Value::Text("y".repeat(500))])).unwrap();
        m += 1;
    }
    assert_eq!(btree.root_page_id(), root);
    for j in 0..m {
        let key = format!("k{:03}", j).into_bytes();
        let found = btree.search(&mut pager, &key).unwrap();
        assert_eq!(found.key, key);
        let fill = if j < n { "x" } else { "y" };
        assert_eq!(found.values, vec![Value::Text(fill.repeat(500))]);
    }
    assert!(matches!(btree.search(&mut pager, b"k999"), Err(Error::NotFound)));
}

#[test]
fn cursor_past_the_last_record_is_no_longer_valid() {
    let mut pager = fresh_pager();
    let mut btree = BTree::new(&mut pager).unwrap();
    btree.insert(&mut pager, Record::new(vec![5], vec![Value::Integer(5)])).unwrap();
    let mut cursor = btree.cursor(&mut pager).unwrap();
    assert!(cursor.is_valid());
    assert_eq!(cursor.current(&mut pager).unwrap().key, vec![5]);
    assert_eq!(cursor.next(&mut pager).unwrap(), false);
    assert!(!cursor.is_valid());
    assert_eq!(cursor.next(&mut pager).unwrap_err(), Error::NotFound);
    assert_eq!(cursor.current(&mut pager).unwrap_err(), Error::NotFound);
    assert!(!cursor.is_valid());
}

#[test]
fn descending_inserts_lose_keys_when_the_interior_root_splits() {
    let mut pager = fresh_pager();
    let mut btree = BTree::new(&mut pager).unwrap();
    let key_of = |i: u32| format!("k{:03}{}", i, "x".repeat(200)).into_bytes();
    let mut root = btree.root_page_id();
    let mut root_splits = 0;
    let mut i = 300u32;
    loop {
        i -= 1;
        btree.insert(&mut pager, Record::new(key_of(i), vec![Value::Integer(i as i64)])).unwrap();
        let lost = (i..300u32).filter(|j| btree.search(&mut pager, &key_of(*j)).is_err()).count();
        if btree.root_page_id() != root {
            root = btree.root_page_id();
            root_splits += 1;
            if root_splits == 2 {
                assert_eq!(lost, 20);
                break;
            }
        }
        assert_eq!(lost, 0);
    }
    assert_eq!(i, 180);
}

#[test]
fn ascending_inserts_through_three_levels_keep_every_record_findable() {
    let mut pager = fresh_pager();
    let mut btree = BTree::new(&mut pager).unwrap();
    let key_of = |i: u32| format!("k{:03}{}", i, "x".repeat(200)).into_bytes();
    let mut root = btree.root_page_id();
    let mut root_splits = 0;
    for i in 0..400u32 {
        btree.insert(&mut pager, Record::new(key_of(i), vec![Value::Integer(i as i64)])).unwrap();
        if btree.root_page_id() != root {
            root = btree.root_page_id();
            root_splits += 1;
        }
    }
    assert!(root_splits >= 2);
    for i in 0..400u32 {
        let found = btree.search(&mut pager, &key_of(i)).unwrap();
        assert_eq!(found.values, vec![Value::Integer(i as i64)]);
    }
}
