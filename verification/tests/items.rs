use ranker::items::{item_fields, item_file_bytes, read_item_fields, ItemsError};

fn pair(a: &str, b: &str) -> (String, String) {
    (a.to_string(), b.to_string())
}

#[test]
fn an_items_file_is_read_record_by_record() {
    let fields = read_item_fields(b"a.png,1000\n\"b,c.png\",NaN\n").unwrap();
    assert_eq!(fields, vec![pair("a.png", "1000"), pair("b,c.png", "NaN")]);
    assert_eq!(read_item_fields(b"").unwrap(), Vec::<(String, String)>::new());
}

#[test]
fn a_record_with_one_field_is_refused() {
    assert_eq!(read_item_fields(b"lonely\n"), Err(ItemsError::ShortRecord));
    let records = vec![vec!["x".to_string(), "1".to_string()], vec!["y".to_string()]];
    assert_eq!(item_fields(&records), Err(ItemsError::ShortRecord));
}

#[test]
fn malformed_csv_is_refused() {
    assert_eq!(read_item_fields(b"a,1\nb\n"), Err(ItemsError::Malformed));
    assert_eq!(read_item_fields(b"\xff\xfe,1\n"), Err(ItemsError::Malformed));
}

#[test]
fn an_items_file_is_written_and_read_back() {
    let items = vec![pair("a.png", "1000"), pair("b,c.png", "NaN")];
    let bytes = item_file_bytes(&items).unwrap();
    assert_eq!(bytes, b"a.png,1000\n\"b,c.png\",NaN\n".to_vec());
    assert_eq!(read_item_fields(&bytes).unwrap(), items);
    assert_eq!(item_file_bytes(&Vec::new()).unwrap(), Vec::<u8>::new());
}
