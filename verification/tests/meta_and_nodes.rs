use minibase::inner::InnerPage;
use minibase::leaf::LeafPage;
use minibase::meta::{init_mete_page, schema_file_paths, schema_name_valid, MeteData};
use minibase::node::{Node, NodeType};
use minibase::page::Page;
use minibase::MiniBaseError;

fn fresh_region(length: usize) -> memmap2::MmapMut {
    memmap2::MmapMut::map_anon(length).unwrap()
}

#[test]
fn mete_page_round_trip() {
    let data_path = "/tmp/demo.d".as_bytes();
    let extra_path = "/tmp/demo.e".as_bytes();
    let length = 12 + data_path.len() + extra_path.len();
    let mut page = Page::new(fresh_region(length));
    init_mete_page(&mut page, data_path, extra_path);
    let mete_data = MeteData {
        page_size: 512,
        key_max_length: 64,
        value_threshold: 128,
        mete_page: page,
    };
    assert_eq!(mete_data.get_root_page_offset(), 0);
    assert_eq!(mete_data.get_data_file_path(), data_path.to_vec());
    assert_eq!(mete_data.get_extra_file_path(), extra_path.to_vec());
}

#[test]
fn schema_name_validation() {
    assert!(schema_name_valid("users"));
    assert!(schema_name_valid("table9"));
    assert!(schema_name_valid("9"));
    assert!(!schema_name_valid(""));
    assert!(!schema_name_valid("ABC"));
    assert!(!schema_name_valid("_-/"));
}

#[test]
fn schema_paths_from_dir_and_name() {
    let (mete, data, extra) = schema_file_paths(b"/data", b"users");
    assert_eq!(mete, b"/data/users.m".to_vec());
    assert_eq!(data, b"/data/users.d".to_vec());
    assert_eq!(extra, b"/data/users.e".to_vec());

    let (mete, _, _) = schema_file_paths(b"/data/", b"users");
    assert_eq!(mete, b"/data/users.m".to_vec());

    let (mete, _, _) = schema_file_paths(b"", b"users");
    assert_eq!(mete, b"/users.m".to_vec());
}

#[test]
fn leaf_reopen_rejects_corrupt_fields() {
    // a zeroed region has no leaf header
    let r = LeafPage::from(fresh_region(512), 512);
    assert_eq!(r.err().unwrap(), MiniBaseError::HeaderInvalid);

    // a capacity field that disagrees with the mapped length
    let mut page = LeafPage::new(fresh_region(512), 512);
    page.write_u32(1, 400);
    let r = LeafPage::from(page.into_region(), 512);
    assert_eq!(r.err().unwrap(), MiniBaseError::CapacityInvalid);

    // a data head below the slot directory start
    let mut page = LeafPage::new(fresh_region(512), 512);
    page.write_u32(9, 3);
    let r = LeafPage::from(page.into_region(), 512);
    assert_eq!(r.err().unwrap(), MiniBaseError::DataHeadOffsetInvalid);

    // a data tail beyond the capacity
    let mut page = LeafPage::new(fresh_region(512), 512);
    page.write_u32(13, 600);
    let r = LeafPage::from(page.into_region(), 512);
    assert_eq!(r.err().unwrap(), MiniBaseError::DataTailOffsetInvalid);

    // a data tail below the data head
    let mut page = LeafPage::new(fresh_region(512), 512);
    page.write_u32(13, 20);
    let r = LeafPage::from(page.into_region(), 512);
    assert_eq!(r.err().unwrap(), MiniBaseError::DataTailOffsetInvalid);

    // an intact page reopens
    let page = LeafPage::new(fresh_region(512), 512);
    assert!(LeafPage::from(page.into_region(), 512).is_ok());
}

#[test]
fn inner_page_new_and_from() {
    let page = InnerPage::new(fresh_region(512), 512);
    assert_eq!(page.get_sorted_table_offset(), 21);
    let reopened = InnerPage::from(page.into_region(), 512);
    assert!(reopened.is_ok());

    // a leaf page is not an inner page
    let leaf = LeafPage::new(fresh_region(512), 512);
    let r = InnerPage::from(leaf.into_region(), 512);
    assert_eq!(r.err().unwrap(), MiniBaseError::HeaderInvalid);
}

#[test]
fn node_resolves_page_kind() {
    let node = Node::new(fresh_region(512), 512, NodeType::Leaf);
    assert!(matches!(node.get_type(), NodeType::Leaf));
    let mut leaf = node.leaf_page.unwrap();
    assert!(leaf.insert_key_value(b"k", b"v"));
    assert_eq!(leaf.get_value(b"k").unwrap(), b"v".to_vec());

    let node = Node::new(fresh_region(512), 512, NodeType::Inner);
    assert!(matches!(node.get_type(), NodeType::Inner));
    assert!(node.inner_page.is_some());

    let reopened = Node::from(leaf.into_region(), 512, NodeType::Leaf);
    assert!(reopened.is_ok());
    let reopened = Node::from(fresh_region(512), 512, NodeType::Leaf);
    assert!(reopened.is_err());
}
