use torrent_combine::table::Table;

#[test]
fn test_table_put_and_find() {
    let mut table: Table<u32> = Table::new();
    assert_eq!(table.len(), 0);
    assert_eq!(table.find("a"), None);
    table.put("a".to_string(), 1);
    table.put("b".to_string(), 2);
    table.put("a".to_string(), 3);
    assert_eq!(table.len(), 2);
    let a = table.find("a").unwrap();
    let b = table.find("b").unwrap();
    assert_eq!(*table.value_at(a), 3);
    assert_eq!(*table.value_at(b), 2);
    assert_eq!(table.find("c"), None);
    assert_eq!(table.find(""), None);
    assert_eq!(table.keys().len(), 2);
}

#[test]
fn test_table_keep_marked() {
    let mut table: Table<u32> = Table::new();
    for (i, key) in ["a", "b", "c", "d"].iter().enumerate() {
        table.put(key.to_string(), i as u32);
    }
    let keep: Vec<bool> = table.keys().iter().map(|k| k == "b" || k == "d").collect();
    table.keep_marked(&keep);
    assert_eq!(table.len(), 2);
    assert_eq!(table.find("a"), None);
    assert_eq!(table.find("c"), None);
    assert_eq!(*table.value_at(table.find("b").unwrap()), 1);
    assert_eq!(*table.value_at(table.find("d").unwrap()), 3);
    let none = vec![false; 2];
    table.keep_marked(&none);
    assert_eq!(table.len(), 0);
    table.put("b".to_string(), 9);
    assert_eq!(*table.value_at(table.find("b").unwrap()), 9);
}
