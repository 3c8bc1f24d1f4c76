use deepsql::storage::file_format::{DatabaseHeader, FORMAT_VERSION, MAGIC_BYTES};
use deepsql::storage::page::{Page, PageHeader, PageType};
use deepsql::storage::varint::Varint;
use deepsql::storage::record::{Record, Value};
use deepsql::storage::btree::node::{BTreeNode, InteriorCell, LeafCell};

#[test]
fn test_header_creation() {
    let header = DatabaseHeader::new(4096).unwrap();
    assert_eq!(header.magic, MAGIC_BYTES);
    assert_eq!(header.version, FORMAT_VERSION);
    assert_eq!(header.page_size, 4096);
    assert_eq!(header.page_count, 1);
}

#[test]
fn test_invalid_page_size() {
    assert!(DatabaseHeader::new(1000).is_err()); // Not power of 2
    assert!(DatabaseHeader::new(256).is_err()); // Too small
    assert!(DatabaseHeader::new(131072).is_err()); // Too large
}

#[test]
fn test_header_serialization() {
    let header = DatabaseHeader::new(4096).unwrap();
    let mut bytes = header.to_bytes();
    bytes.resize(DatabaseHeader::SIZE, 0);
    let decoded = DatabaseHeader::from_bytes(&bytes).unwrap();
    assert_eq!(decoded.magic, header.magic);
    assert_eq!(decoded.version, header.version);
    assert_eq!(decoded.page_size, header.page_size);
    assert_eq!(decoded.page_count, header.page_count);
}

#[test]
fn header_rejects_short_input_and_bad_magic() {
    assert!(DatabaseHeader::from_bytes(&[0u8; 10]).is_err());
    let mut bytes = DatabaseHeader::new(4096).unwrap().to_bytes();
    bytes.resize(DatabaseHeader::SIZE, 0);
    bytes[0] = b'X';
    assert!(DatabaseHeader::from_bytes(&bytes).is_err());
}

#[test]
fn header_field_layout_is_big_endian() {
    let header = DatabaseHeader::new(512).unwrap();
    let bytes = header.to_bytes();
    assert_eq!(bytes.len(), 64);
    assert_eq!(&bytes[0..8], &MAGIC_BYTES);
    assert_eq!(&bytes[8..12], &[0, 0, 0, 1]);
    assert_eq!(&bytes[12..16], &[0, 0, 2, 0]);
}

#[test]
fn test_page_type_conversion() {
    assert_eq!(PageType::from_u8(0).unwrap(), PageType::Header);
    assert_eq!(PageType::from_u8(1).unwrap(), PageType::Leaf);
    assert_eq!(PageType::from_u8(2).unwrap(), PageType::Interior);
    assert_eq!(PageType::from_u8(3).unwrap(), PageType::Overflow);
    assert_eq!(PageType::from_u8(4).unwrap(), PageType::Free);
    assert!(PageType::from_u8(5).is_err());
}

#[test]
fn test_page_header_serialization() {
    let header = PageHeader {
        page_type: PageType::Leaf,
        cell_count: 10,
        cell_content_offset: 4096,
        fragmented_free_bytes: 128,
        right_child: 0,
    };
    let mut bytes = header.to_bytes();
    bytes.resize(PageHeader::SIZE, 0);
    let decoded = PageHeader::from_bytes(&bytes).unwrap();
    assert_eq!(decoded.page_type, header.page_type);
    assert_eq!(decoded.cell_count, header.cell_count);
    assert_eq!(decoded.cell_content_offset, header.cell_content_offset);
    assert_eq!(decoded.fragmented_free_bytes, header.fragmented_free_bytes);
}

#[test]
fn test_page_initialization() {
    let mut page = Page::new(1, 4096);
    page.initialize(PageType::Leaf, 4096).unwrap();
    let header = page.header().unwrap();
    assert_eq!(header.page_type, PageType::Leaf);
    assert_eq!(header.cell_count, 0);
    assert_eq!(header.cell_content_offset, 4096);
}

#[test]
fn page_cell_pointer_round_trip() {
    let mut page = Page::new(3, 512);
    page.initialize(PageType::Leaf, 512).unwrap();
    page.set_cell_pointer(2, 300).unwrap();
    assert_eq!(page.get_cell_pointer(2).unwrap(), 300);
    assert!(page.get_cell_data(600).is_err());
}

#[test]
fn test_varint_encode_decode() {
    let test_cases = vec![0, 1, 127, 128, 16383, 16384, u64::MAX];
    for value in test_cases {
        let encoded = Varint::encode(value);
        let (decoded, _) = Varint::decode(&encoded).unwrap();
        assert_eq!(value, decoded);
    }
}

#[test]
fn test_varint_signed() {
    let test_cases = vec![0, 1, -1, 127, -127, i64::MAX, i64::MIN];
    for value in test_cases {
        let encoded = Varint::encode_signed(value);
        let (decoded, _) = Varint::decode_signed(&encoded).unwrap();
        assert_eq!(value, decoded);
    }
}

#[test]
fn varint_exact_encodings() {
    assert_eq!(Varint::encode(0), vec![0]);
    assert_eq!(Varint::encode(127), vec![127]);
    assert_eq!(Varint::encode(128), vec![0x80, 0x01]);
    assert_eq!(Varint::encode(300), vec![0xAC, 0x02]);
    assert_eq!(Varint::encode_signed(-1), vec![1]);
    assert_eq!(Varint::encode_signed(1), vec![2]);
    assert_eq!(Varint::decode(&[0x80, 0x01, 0xFF]).unwrap(), (128, 2));
    assert!(Varint::decode(&[]).is_err());
    assert!(Varint::decode(&[0x80]).is_err());
}

#[test]
fn test_value_serialization() {
    let test_cases = vec![
        Value::Null,
        Value::Integer(42),
        Value::Integer(-100),
        Value::Real(3.14159f64.to_bits()),
        Value::Text("Hello, World!".to_string()),
        Value::Blob(vec![1, 2, 3, 4, 5]),
    ];
    for value in test_cases {
        let serialized = value.serialize();
        let (deserialized, _) = Value::deserialize(&serialized).unwrap();
        assert_eq!(value, deserialized);
    }
}

#[test]
fn value_serialization_exact_bytes() {
    assert_eq!(Value::Null.serialize(), vec![0]);
    assert_eq!(Value::Integer(1).serialize(), vec![1, 2]);
    assert_eq!(Value::Text("ab".to_string()).serialize(), vec![3, 2, b'a', b'b']);
    assert!(Value::deserialize(&[9]).is_err());
}

#[test]
fn test_record_serialization() {
    let record = Record::new(
        vec![1, 2, 3],
        vec![Value::Integer(42), Value::Text("test".to_string()), Value::Null],
    );
    let serialized = record.serialize();
    let deserialized = Record::deserialize(&serialized).unwrap();
    assert_eq!(record.key, deserialized.key);
    assert_eq!(record.values.len(), deserialized.values.len());
    for (v1, v2) in record.values.iter().zip(deserialized.values.iter()) {
        assert_eq!(v1, v2);
    }
}

#[test]
fn test_leaf_cell_serialization() {
    let record = Record::new(vec![1, 2, 3], vec![Value::Integer(42)]);
    let cell = LeafCell { key: vec![1, 2, 3], record };
    let serialized = cell.serialize();
    let deserialized = LeafCell::deserialize(&serialized).unwrap();
    assert_eq!(cell.key, deserialized.key);
    assert_eq!(cell.record.key, deserialized.record.key);
}

#[test]
fn test_interior_cell_serialization() {
    let cell = InteriorCell { key: vec![1, 2, 3], left_child: 42 };
    let serialized = cell.serialize();
    let deserialized = InteriorCell::deserialize(&serialized).unwrap();
    assert_eq!(cell.key, deserialized.key);
    assert_eq!(cell.left_child, deserialized.left_child);
}

#[test]
fn cell_data_mut_writes_through_and_marks_dirty() {
    let mut page = Page::new(2, 128);
    assert!(!page.dirty);
    {
        let cell = page.get_cell_data_mut(100).unwrap();
        assert_eq!(cell.len(), 28);
        cell[0] = 9;
        cell[27] = 7;
    }
    assert!(page.dirty);
    assert_eq!(page.data[100], 9);
    assert_eq!(page.data[127], 7);
    assert_eq!(page.data[99], 0);
}

#[test]
fn cell_data_mut_out_of_bounds_is_an_error() {
    let mut page = Page::new(2, 128);
    let result = page.get_cell_data_mut(128);
    assert!(result.is_err());
    assert!(!page.dirty);
}

#[test]
fn text_value_with_invalid_utf8_is_rejected() {
    // tag 3 (text), length 2, then bytes that are not UTF-8
    let result = Value::deserialize(&[3, 2, 0xC3, 0x28]);
    match result {
        Err(deepsql::error::Error::RecordError(m)) => assert!(m.starts_with("Invalid UTF-8: ")),
        other => panic!("unexpected {:?}", other),
    }
    let ok = Value::deserialize(&[3, 2, 0xC3, 0xA9]).unwrap();
    assert_eq!(ok, (Value::Text("é".to_string()), 4));
}

#[test]
fn interior_cells_shift_on_insert_and_delete() {
    let mut page = Page::new(5, 512);
    page.initialize(PageType::Interior, 512).unwrap();
    let mut node = BTreeNode::from_page(page);
    let a = InteriorCell { key: b"m".to_vec(), left_child: 10 };
    let b = InteriorCell { key: b"c".to_vec(), left_child: 11 };
    node.insert_interior_cell(0, &a).unwrap();
    node.insert_interior_cell(0, &b).unwrap();
    assert_eq!(node.cell_count().unwrap(), 2);
    assert_eq!(node.get_interior_cell(0).unwrap().left_child, 11);
    assert_eq!(node.get_interior_cell(1).unwrap().key, b"m".to_vec());
    assert_eq!(node.get_interior_cell(1).unwrap().left_child, 10);
    node.delete_cell(0).unwrap();
    assert_eq!(node.cell_count().unwrap(), 1);
    assert_eq!(node.get_interior_cell(0).unwrap().key, b"m".to_vec());
    assert_eq!(node.get_interior_cell(0).unwrap().left_child, 10);
}
