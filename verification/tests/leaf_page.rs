use minibase::leaf::LeafPage;

const PAGE_LENGTH: u32 = 512;

fn fresh_region(length: usize) -> memmap2::MmapMut {
    memmap2::MmapMut::map_anon(length).unwrap()
}

fn new_page(length: u32) -> LeafPage {
    LeafPage::new(fresh_region(length as usize), length)
}

fn reopen(page: LeafPage, length: u32) -> LeafPage {
    LeafPage::from(page.into_region(), length).unwrap()
}

#[test]
fn leaf_page_write_read_u8() {
    let mut leaf_page = new_page(PAGE_LENGTH);
    leaf_page.write_u8(0, 1);
    let i = leaf_page.read_u8(0);
    assert_eq!(i, 1);
}

#[test]
fn leaf_page_write_read_u32() {
    let mut leaf_page = new_page(PAGE_LENGTH);
    leaf_page.write_u32(0, 1);
    let i = leaf_page.read_u32(0);
    assert_eq!(i, 1);
}

#[test]
fn leaf_page_write_read_bytes() {
    let mut leaf_page = new_page(PAGE_LENGTH);
    let message = "今天真热";
    let data = message.as_bytes();
    leaf_page.write_bytes(0, data);
    let read = leaf_page.read_bytes(0, data.len());
    assert_eq!(message, String::from_utf8(read.to_vec()).unwrap());
}

#[test]
fn leaf_page_insert_get() {
    let page_capacity = PAGE_LENGTH;

    let mut leaf_page = new_page(page_capacity);
    let ok = leaf_page.insert_key_value("test".as_bytes(), "test".as_bytes());
    assert_eq!(true, ok);

    let leaf_page = reopen(leaf_page, page_capacity);
    let value = leaf_page.get_value("test".as_bytes()).unwrap();
    let value = String::from_utf8(Vec::from(value)).unwrap();
    assert_eq!("test".to_string(), value);

    let mut leaf_page = reopen(leaf_page, page_capacity);
    let ok = leaf_page.insert_key_value("asd".as_bytes(), "asd".as_bytes());
    assert_eq!(true, ok);

    let leaf_page = reopen(leaf_page, page_capacity);
    let value = leaf_page.get_value("asd".as_bytes()).unwrap();
    let value = String::from_utf8(Vec::from(value)).unwrap();
    assert_eq!("asd".to_string(), value);

    let mut leaf_page = reopen(leaf_page, page_capacity);
    let ok = leaf_page.insert_key_value("songbowen".as_bytes(), "songbowen".as_bytes());
    assert_eq!(true, ok);

    let leaf_page = reopen(leaf_page, page_capacity);
    let value = leaf_page.get_value("songbowen".as_bytes()).unwrap();
    let value = String::from_utf8(Vec::from(value)).unwrap();
    assert_eq!("songbowen".to_string(), value);
}

#[test]
fn leaf_page_override() {
    let page_capacity = PAGE_LENGTH;

    let mut leaf_page = new_page(page_capacity);
    let ok = leaf_page.insert_key_value("test".as_bytes(), "今天真热".as_bytes());
    assert_eq!(true, ok);
    let ok = leaf_page.insert_key_value("test".as_bytes(), "今天真热，真滴热".as_bytes());
    assert_eq!(true, ok);

    let leaf_page = reopen(leaf_page, page_capacity);
    let value = leaf_page.get_value("test".as_bytes()).unwrap();
    let value = String::from_utf8(Vec::from(value)).unwrap();
    assert_eq!("今天真热，真滴热".to_string(), value);
}

#[test]
fn leaf_page_remove() {
    let page_capacity = PAGE_LENGTH;

    let mut leaf_page = new_page(page_capacity);
    let ok = leaf_page.insert_key_value("test".as_bytes(), "今天真热".as_bytes());
    assert_eq!(true, ok);

    let ok = leaf_page.delete_value("test".as_bytes());
    assert_eq!(true, ok);

    let value = leaf_page.get_value("test".as_bytes());
    assert_eq!(None, value);

    let ok = leaf_page.insert_key_value("test".as_bytes(), "今天真热啊".as_bytes());
    assert_eq!(true, ok);

    let value = leaf_page.get_value("test".as_bytes()).unwrap();
    let value = String::from_utf8(Vec::from(value)).unwrap();
    assert_eq!("今天真热啊".to_string(), value);
}

#[test]
fn round_trip_after_insert() {
    let mut page = new_page(PAGE_LENGTH);
    assert!(page.insert_key_value(b"alpha", b"one"));
    assert_eq!(page.get_value(b"alpha").unwrap(), b"one".to_vec());
    assert!(page.insert_key_value(b"beta", &[0u8, 255u8, 7u8]));
    assert_eq!(page.get_value(b"beta").unwrap(), vec![0u8, 255u8, 7u8]);
}

#[test]
fn override_idempotence_consumes_no_tail_space() {
    let mut page = new_page(PAGE_LENGTH);
    assert!(page.insert_key_value(b"k", b"v"));
    let head = page.get_data_head_offset();
    let tail = page.get_data_tail_offset();
    assert!(page.insert_key_value(b"k", b"v"));
    assert_eq!(page.get_data_head_offset(), head);
    assert_eq!(page.get_data_tail_offset(), tail);
    assert_eq!(page.get_value(b"k").unwrap(), b"v".to_vec());
}

#[test]
fn override_replaces_value() {
    let mut page = new_page(PAGE_LENGTH);
    assert!(page.insert_key_value(b"k", b"first"));
    let head = page.get_data_head_offset();
    let tail = page.get_data_tail_offset();
    assert!(page.insert_key_value(b"k", b"second"));
    assert_eq!(page.get_value(b"k").unwrap(), b"second".to_vec());
    // the new value record took exactly its length plus the length field
    assert_eq!(page.get_data_head_offset(), head);
    assert_eq!(page.get_data_tail_offset(), tail - (b"second".len() + 4));
}

#[test]
fn tombstone_then_reinsert() {
    let mut page = new_page(PAGE_LENGTH);
    assert!(page.insert_key_value(b"k", b"v1"));
    assert!(page.delete_value(b"k"));
    assert_eq!(page.get_value(b"k"), None);
    assert!(page.insert_key_value(b"k", b"v2"));
    assert_eq!(page.get_value(b"k").unwrap(), b"v2".to_vec());
}

#[test]
fn delete_missing_key_fails() {
    let mut page = new_page(PAGE_LENGTH);
    assert!(page.insert_key_value(b"present", b"v"));
    assert_eq!(page.delete_value(b"absent"), false);
    assert_eq!(page.get_value(b"present").unwrap(), b"v".to_vec());
}

#[test]
fn get_on_empty_page_is_none() {
    let page = new_page(PAGE_LENGTH);
    assert_eq!(page.get_value(b"anything"), None);
}

#[test]
fn directory_keys_stay_sorted() {
    let mut page = new_page(PAGE_LENGTH);
    for key in ["pear", "apple", "zebra", "app", "banana"] {
        assert!(page.insert_key_value(key.as_bytes(), key.as_bytes()));
    }
    let table = page.get_sorted_table();
    assert_eq!(table.len(), 5);
    let mut stored_keys: Vec<Vec<u8>> = Vec::new();
    for key_offset in table {
        let key_len = page.read_u32(key_offset) as usize;
        stored_keys.push(page.read_bytes(key_offset + 4, key_len));
    }
    let expected: Vec<Vec<u8>> = ["app", "apple", "banana", "pear", "zebra"]
        .iter()
        .map(|k| k.as_bytes().to_vec())
        .collect();
    assert_eq!(stored_keys, expected);
    for window in stored_keys.windows(2) {
        assert!(window[0] < window[1]);
    }
}

#[test]
fn insert_without_space_leaves_offsets_unchanged() {
    // capacity 64: 39 free bytes; the new pair needs 17 + 10 + 30 = 57
    let mut page = new_page(64);
    let head = page.get_data_head_offset();
    let tail = page.get_data_tail_offset();
    let ok = page.insert_key_value(b"kkkkkkkkkk", &[7u8; 30]);
    assert_eq!(false, ok);
    assert_eq!(page.get_data_head_offset(), head);
    assert_eq!(page.get_data_tail_offset(), tail);
    assert_eq!(page.get_value(b"kkkkkkkkkk"), None);
}

#[test]
fn insert_with_exactly_enough_space_succeeds() {
    // capacity 64: 39 free bytes; the pair needs 17 + 2 + 20 = 39 exactly
    let mut page = new_page(64);
    assert_eq!(page.get_data_head_offset(), 25);
    assert_eq!(page.get_data_tail_offset(), 64);
    let ok = page.insert_key_value(b"ab", &[3u8; 20]);
    assert_eq!(true, ok);
    // one 4-byte slot went to the directory, both records to the heap
    assert_eq!(page.get_data_head_offset(), 29);
    assert_eq!(page.get_data_tail_offset(), 29);
    assert_eq!(page.get_free_space(), 0);
    assert_eq!(page.get_value(b"ab").unwrap(), vec![3u8; 20]);
}

#[test]
fn override_without_space_keeps_old_value() {
    // capacity 64: after the first insert 39 - (17 + 1 + 2) = 19 bytes stay
    // free; the replacement value needs 30 + 4
    let mut page = new_page(64);
    assert!(page.insert_key_value(b"k", b"v1"));
    let tail = page.get_data_tail_offset();
    let ok = page.insert_key_value(b"k", &[7u8; 30]);
    assert_eq!(false, ok);
    assert_eq!(page.get_data_tail_offset(), tail);
    assert_eq!(page.get_value(b"k").unwrap(), b"v1".to_vec());
}

#[test]
fn reopen_preserves_contents() {
    let mut page = new_page(PAGE_LENGTH);
    assert!(page.insert_key_value(b"a", b"1"));
    assert!(page.insert_key_value(b"b", b"2"));
    assert!(page.delete_value(b"a"));
    let page = reopen(page, PAGE_LENGTH);
    assert_eq!(page.get_value(b"a"), None);
    assert_eq!(page.get_value(b"b").unwrap(), b"2".to_vec());
}

#[test]
fn scenario_override_delete_reinsert() {
    let mut page = new_page(512);
    assert!(page.insert_key_value("test".as_bytes(), "今天真热".as_bytes()));
    assert_eq!(
        page.get_value("test".as_bytes()).unwrap(),
        "今天真热".as_bytes().to_vec()
    );
    assert!(page.insert_key_value("test".as_bytes(), "今天真热，真滴热".as_bytes()));
    assert_eq!(
        page.get_value("test".as_bytes()).unwrap(),
        "今天真热，真滴热".as_bytes().to_vec()
    );
    assert!(page.delete_value("test".as_bytes()));
    assert_eq!(page.get_value("test".as_bytes()), None);
    assert!(page.insert_key_value("test".as_bytes(), "今天真热啊".as_bytes()));
    assert_eq!(
        page.get_value("test".as_bytes()).unwrap(),
        "今天真热啊".as_bytes().to_vec()
    );
}
