use ministore_pos::inventory::{
    add_inventory_item, delete_id_inv_file, encode_inv_header, encode_inv_record,
    get_inv_header, get_inv_item_details, id_corresponds_name, inventory_listing,
    read_inv_record, search_id_inv_file, update_inventory_record, write_inv_header,
    InventoryEntry, InventoryHeader, InventoryItem, LookupError,
};

fn cs(s: &str) -> Vec<char> {
    s.chars().collect()
}

fn empty_inventory() -> Vec<u8> {
    encode_inv_header(InventoryHeader { last_number: 0, number_items: 0 })
}

fn two_items() -> Vec<u8> {
    let (f1, _) = add_inventory_item(&empty_inventory(), b"Pen", 1.5f64.to_bits()).unwrap();
    let (f2, _) = add_inventory_item(&f1, b"Ink", 2.25f64.to_bits()).unwrap();
    f2
}

#[test]
fn new_inventory_is_a_zero_header() {
    assert_eq!(empty_inventory(), vec![0u8; 8]);
    assert_eq!(
        get_inv_header(&empty_inventory()),
        InventoryHeader { last_number: 0, number_items: 0 }
    );
}

#[test]
fn short_headers_read_as_the_buffer_is_left() {
    // Three bytes: the first read fills three bytes of the zeroed buffer and
    // the second read finds nothing, so both numbers are the same.
    assert_eq!(
        get_inv_header(&[1, 2, 3]),
        InventoryHeader { last_number: 197121, number_items: 197121 }
    );
    // Six bytes: the second read replaces only the first two bytes.
    assert_eq!(
        get_inv_header(&[1, 0, 0, 7, 5, 6]),
        InventoryHeader { last_number: 117440513, number_items: 117442053 }
    );
    assert_eq!(get_inv_header(&[]), InventoryHeader { last_number: 0, number_items: 0 });
    assert_eq!(
        get_inv_header(&[3, 0, 0, 0, 2, 0, 0, 0, 99]),
        InventoryHeader { last_number: 3, number_items: 2 }
    );
}

#[test]
fn write_header_keeps_the_records() {
    let f = two_items();
    let g = write_inv_header(&f, InventoryHeader { last_number: 5, number_items: 7 });
    assert_eq!(&g[..8], &[5, 0, 0, 0, 7, 0, 0, 0]);
    assert_eq!(&g[8..], &f[8..]);
    assert_eq!(write_inv_header(&[], InventoryHeader { last_number: 1, number_items: 1 }).len(), 8);
}

#[test]
fn record_encoding_and_reading() {
    let bits = 1.5f64.to_bits();
    let rec = encode_inv_record(1, b"Pen", bits);
    assert_eq!(&rec[..11], &[1, 0, 0, 0, 3, 0, 0, 0, b'P', b'e', b'n']);
    assert_eq!(rec.len(), 19);
    let mut file = empty_inventory();
    file.extend_from_slice(&rec);
    assert_eq!(
        read_inv_record(&file, 8),
        Some((InventoryItem { id: 1, name: b"Pen".to_vec(), price_bits: bits }, 27))
    );
    assert_eq!(read_inv_record(&file[..26], 8), None);
}

#[test]
fn adding_hands_out_the_next_number() {
    let (f1, id1) = add_inventory_item(&empty_inventory(), b"Pen", 1.5f64.to_bits()).unwrap();
    assert_eq!(id1, 1);
    assert_eq!(get_inv_header(&f1), InventoryHeader { last_number: 1, number_items: 1 });
    assert_eq!(f1.len(), 27);
    let (f2, id2) = add_inventory_item(&f1, b"Ink", 2.25f64.to_bits()).unwrap();
    assert_eq!(id2, 2);
    assert_eq!(get_inv_header(&f2), InventoryHeader { last_number: 2, number_items: 2 });
    assert_eq!(
        inventory_listing(&f2),
        Some(vec![
            InventoryEntry { id: 1, name: cs("Pen"), price_bits: 1.5f64.to_bits() },
            InventoryEntry { id: 2, name: cs("Ink"), price_bits: 2.25f64.to_bits() },
        ])
    );
}

#[test]
fn adding_refused_without_header_or_at_the_limit() {
    assert_eq!(add_inventory_item(&[1, 2, 3], b"x", 0), None);
    let full = encode_inv_header(InventoryHeader { last_number: u32::MAX, number_items: 0 });
    assert_eq!(add_inventory_item(&full, b"x", 0), None);
}

#[test]
fn search_finds_the_number_field() {
    let f = two_items();
    assert_eq!(search_id_inv_file(&f, "1"), Some(12));
    assert_eq!(search_id_inv_file(&f, "2"), Some(31));
    assert_eq!(search_id_inv_file(&f, "01"), None);
    assert_eq!(search_id_inv_file(&f, "3"), None);
    assert_eq!(search_id_inv_file(&[0, 0], "1"), None);
}

#[test]
fn item_details_lookup() {
    let f = two_items();
    assert_eq!(
        get_inv_item_details(&f, "2"),
        Ok(InventoryEntry { id: 2, name: cs("Ink"), price_bits: 2.25f64.to_bits() })
    );
    assert_eq!(get_inv_item_details(&f, "9"), Err(LookupError::NotFound));
    assert_eq!(get_inv_item_details(&f[..20], "1"), Err(LookupError::Corrupt));
    let (bad, _) = add_inventory_item(&empty_inventory(), &[0xff, 0xfe], 0).unwrap();
    assert_eq!(get_inv_item_details(&bad, "1"), Err(LookupError::Corrupt));
}

#[test]
fn id_and_name_correspondence() {
    let f = two_items();
    assert_eq!(id_corresponds_name(&f, "2", "Ink"), Ok(true));
    assert_eq!(id_corresponds_name(&f, "2", "Pen"), Ok(false));
    assert_eq!(id_corresponds_name(&f, "", "Pen"), Ok(false));
    assert_eq!(id_corresponds_name(&f, "1", ""), Ok(false));
    assert_eq!(id_corresponds_name(&f, "7", "Pen"), Ok(false));
    let (bad, _) = add_inventory_item(&empty_inventory(), &[0xff], 0).unwrap();
    assert_eq!(id_corresponds_name(&bad, "1", "x"), Err(LookupError::Corrupt));
}

#[test]
fn deleting_keeps_header_and_length() {
    let f = two_items();
    let d = delete_id_inv_file(&f, "1").unwrap();
    assert_eq!(d.len(), f.len());
    assert_eq!(&d[..8], &f[..8]);
    let (first, next) = read_inv_record(&d, 8).unwrap();
    assert_eq!(first, InventoryItem { id: 2, name: b"Ink".to_vec(), price_bits: 2.25f64.to_bits() });
    assert_eq!(next, 27);
    // The count is not lowered and the old tail stays: the last record shows twice.
    assert_eq!(
        inventory_listing(&d),
        Some(vec![
            InventoryEntry { id: 2, name: cs("Ink"), price_bits: 2.25f64.to_bits() },
            InventoryEntry { id: 2, name: cs("Ink"), price_bits: 2.25f64.to_bits() },
        ])
    );
}

#[test]
fn deleting_an_unknown_number_changes_nothing() {
    let f = two_items();
    assert_eq!(delete_id_inv_file(&f, "9"), Some(f.clone()));
    assert_eq!(delete_id_inv_file(&[1, 2], "1"), None);
}

#[test]
fn editing_in_place() {
    let f = two_items();
    let g = update_inventory_record(&f, "2", b"Ink", 3.0f64.to_bits()).unwrap();
    assert_eq!(g.len(), f.len());
    assert_eq!(
        inventory_listing(&g),
        Some(vec![
            InventoryEntry { id: 1, name: cs("Pen"), price_bits: 1.5f64.to_bits() },
            InventoryEntry { id: 2, name: cs("Ink"), price_bits: 3.0f64.to_bits() },
        ])
    );
    let h = update_inventory_record(&f, "1", b"Cap", 4.0f64.to_bits()).unwrap();
    assert_eq!(get_inv_item_details(&h, "1").unwrap().name, cs("Cap"));
    assert_eq!(update_inventory_record(&f, "5", b"x", 0), None);
}

#[test]
fn editing_with_a_longer_name_runs_into_the_next_record() {
    let f = two_items();
    let g = update_inventory_record(&f, "1", b"Pencil", 1.0f64.to_bits()).unwrap();
    assert_eq!(g.len(), f.len());
    assert_eq!(get_inv_item_details(&g, "1").unwrap().name, cs("Pencil"));
    assert_ne!(inventory_listing(&g), inventory_listing(&f));
}

#[test]
fn listing_of_a_short_file() {
    let f = two_items();
    assert_eq!(inventory_listing(&f[..30]), None);
    assert_eq!(inventory_listing(&empty_inventory()), Some(vec![]));
}

#[test]
fn record_names_are_decoded_as_utf8() {
    let mut f = encode_inv_header(InventoryHeader { last_number: 1, number_items: 1 });
    f.extend(encode_inv_record(1, "Caf\u{e9}".as_bytes(), 4.0f64.to_bits()));
    assert_eq!(
        get_inv_item_details(&f, "1"),
        Ok(InventoryEntry { id: 1, name: cs("Caf\u{e9}"), price_bits: 4.0f64.to_bits() })
    );
    let mut bad = encode_inv_header(InventoryHeader { last_number: 1, number_items: 1 });
    bad.extend(encode_inv_record(1, &[0xff, 0x41], 4.0f64.to_bits()));
    assert_eq!(get_inv_item_details(&bad, "1"), Err(LookupError::Corrupt));
    assert_eq!(get_inv_item_details(&f, "\u{e9}"), Err(LookupError::NotFound));
}
