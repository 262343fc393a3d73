use ministore_pos::sales::{
    daily_sales, format_control_number, get_last_sales_number, number_of_sales, record_sale,
    sale_details, sale_summary_at, sales_overview, search_control_number, DailySale,
    SaleDetails, SaleSummary, SalesError,
};

fn cs(s: &str) -> Vec<char> {
    s.chars().collect()
}

fn bits(x: f64) -> u64 {
    x.to_bits()
}

fn two_sales() -> Vec<u8> {
    let r1 = record_sale(None, 5, 7, 2024, &[(1, 2)], bits(3.0), bits(5.0), bits(2.0)).unwrap();
    let r2 = record_sale(Some(&r1.file), 5, 7, 2024, &[(2, 1), (1, 3)], bits(6.75), bits(10.0), bits(3.25))
        .unwrap();
    r2.file
}

#[test]
fn first_sale_starts_a_file() {
    let r = record_sale(None, 5, 7, 2024, &[(1, 2)], bits(3.0), bits(5.0), bits(2.0)).unwrap();
    assert_eq!(r.control_number, cs("050720240001"));
    assert_eq!(&r.file[..8], &[1, 0, 0, 0, 12, 0, 0, 0]);
    assert_eq!(&r.file[8..20], b"050720240001");
    assert_eq!(&r.file[20..32], &[1, 0, 0, 0, 1, 0, 0, 0, 2, 0, 0, 0]);
    assert_eq!(r.file.len(), 56);
}

#[test]
fn sales_of_a_day_are_numbered_in_turn() {
    let f = two_sales();
    assert_eq!(number_of_sales(&f), 2);
    let r3 = record_sale(Some(&f), 5, 7, 2024, &[], bits(0.0), bits(0.0), bits(0.0)).unwrap();
    assert_eq!(r3.control_number, cs("050720240003"));
    let r4 = record_sale(Some(&f), 12, 25, 2024, &[], bits(0.0), bits(0.0), bits(0.0)).unwrap();
    assert_eq!(r4.control_number, cs("122520240001"));
    assert_eq!(number_of_sales(&r4.file), 3);
}

#[test]
fn counting_sales_of_a_date() {
    let f = two_sales();
    assert_eq!(get_last_sales_number(&f, "2024", "5", "7"), Some(2));
    assert_eq!(get_last_sales_number(&f, "2024", "05", "07"), Some(2));
    assert_eq!(get_last_sales_number(&f, " 2024 ", "5", "7"), Some(2));
    assert_eq!(get_last_sales_number(&f, "2023", "5", "7"), Some(0));
    assert_eq!(get_last_sales_number(&f, "2024", "5", "8"), Some(0));
    assert_eq!(get_last_sales_number(&[], "2024", "5", "7"), Some(0));
}

#[test]
fn count_walk_stops_at_the_end_of_the_file() {
    let mut f = two_sales();
    f[0] = 5;
    assert_eq!(get_last_sales_number(&f, "2024", "5", "7"), Some(2));
}

#[test]
fn searching_control_numbers() {
    let f = two_sales();
    assert_eq!(search_control_number(&f, "050720240001"), Ok(Some(20)));
    assert_eq!(search_control_number(&f, "050720240002"), Ok(Some(72)));
    assert_eq!(search_control_number(&f, "050720240003"), Ok(None));
    assert_eq!(search_control_number(&f, "0507202400029"), Ok(Some(72)));
    assert_eq!(search_control_number(&[], "050720240001"), Ok(None));
}

#[test]
fn details_of_a_sale() {
    let f = two_sales();
    assert_eq!(
        sale_details(&f, "050720240002"),
        Ok(Some(SaleDetails {
            items: vec![(2, 1), (1, 3)],
            total_bits: bits(6.75),
            tendered_bits: bits(10.0),
            change_bits: bits(3.25),
        }))
    );
    assert_eq!(sale_details(&f, "999999999999"), Ok(None));
    assert_eq!(sale_details(&f[..80], "050720240002"), Err(SalesError::Truncated));
    assert_eq!(sale_summary_at(&f, 72), Some((2, bits(6.75))));
    assert_eq!(sale_summary_at(&f, 200), None);
}

#[test]
fn daily_sales_lines() {
    let f = two_sales();
    assert_eq!(
        daily_sales(&f, "5", "7", "2024"),
        Ok(vec![
            DailySale { control_number: cs("050720240001"), summary: Some((1, bits(3.0))) },
            DailySale { control_number: cs("050720240002"), summary: Some((2, bits(6.75))) },
        ])
    );
    assert_eq!(daily_sales(&f, "6", "7", "2024"), Ok(vec![]));
}

#[test]
fn sales_list() {
    let f = two_sales();
    assert_eq!(
        sales_overview(&f),
        Ok(vec![
            SaleSummary { control_number: cs("050720240001"), number_items: 1, total_bits: bits(3.0) },
            SaleSummary { control_number: cs("050720240002"), number_items: 2, total_bits: bits(6.75) },
        ])
    );
    assert_eq!(sales_overview(&f[..60]), Err(SalesError::Truncated));
    assert_eq!(sales_overview(&[0, 0, 0, 0]), Ok(vec![]));
}

#[test]
fn control_number_not_utf8() {
    let mut f = vec![1, 0, 0, 0, 1, 0, 0, 0, 0xff, 0, 0, 0, 0];
    f.extend_from_slice(&[0u8; 24]);
    assert_eq!(get_last_sales_number(&f, "2024", "5", "7"), None);
    assert_eq!(search_control_number(&f, "050720240001"), Err(SalesError::NotUtf8));
    assert_eq!(sales_overview(&f), Err(SalesError::NotUtf8));
    assert_eq!(daily_sales(&f, "5", "7", "2024"), Err(SalesError::NotUtf8));
    assert_eq!(
        record_sale(Some(&f), 5, 7, 2024, &[], 0, 0, 0),
        Err(SalesError::NotUtf8)
    );
}

#[test]
fn count_at_its_limit() {
    let f = vec![255u8, 255, 255, 255];
    assert_eq!(record_sale(Some(&f), 1, 1, 2024, &[], 0, 0, 0), Err(SalesError::Overflow));
}

#[test]
fn count_of_short_files() {
    assert_eq!(number_of_sales(&[]), 0);
    assert_eq!(number_of_sales(&[3]), 3);
    assert_eq!(number_of_sales(&[0, 1]), 256);
}

#[test]
fn control_number_format() {
    assert_eq!(format_control_number(&cs("5"), &cs("7"), &cs("2024"), 1), cs("050720240001"));
    assert_eq!(format_control_number(&cs("12"), &cs("31"), &cs("99"), 12345), cs("12319912345"));
}

fn one_sale_with_control_number(cn: &str) -> Vec<u8> {
    let mut f = Vec::new();
    f.extend(1u32.to_le_bytes());
    f.extend((cn.len() as u32).to_le_bytes());
    f.extend(cn.as_bytes());
    f.extend(0u32.to_le_bytes());
    f.extend(bits(0.0).to_le_bytes());
    f.extend(bits(0.0).to_le_bytes());
    f.extend(bits(0.0).to_le_bytes());
    f
}

#[test]
fn date_fields_are_counted_in_grapheme_clusters() {
    // An accent joined to its letter is one cluster, so the month field is
    // the accented letter together with the next character.
    let f = one_sale_with_control_number("e\u{301}5072024");
    assert_eq!(get_last_sales_number(&f, "2024", "e\u{301}5", "07"), Some(1));
    assert_eq!(get_last_sales_number(&f, "2024", "e\u{301}", "50"), Some(0));
    let g = one_sale_with_control_number("a\r\n072024");
    assert_eq!(get_last_sales_number(&g, "2024", "a\r\n", "07"), Some(1));
}

#[test]
fn control_numbers_that_are_not_utf8() {
    let mut f = Vec::new();
    f.extend(1u32.to_le_bytes());
    f.extend(2u32.to_le_bytes());
    f.extend([0xffu8, 0xfe]);
    f.extend(0u32.to_le_bytes());
    f.extend([0u8; 24]);
    assert_eq!(get_last_sales_number(&f, "2024", "5", "7"), None);
}

#[test]
fn recorded_sale_is_counted_for_its_date() {
    let f = two_sales();
    assert_eq!(get_last_sales_number(&f, "2024", "5", "7"), Some(2));
    let r = record_sale(Some(&f), 5, 7, 2024, &[(3, 1)], bits(1.0), bits(1.0), bits(0.0)).unwrap();
    assert_eq!(r.control_number, cs("050720240003"));
    assert_eq!(get_last_sales_number(&r.file, "2024", "5", "7"), Some(3));
    assert_eq!(get_last_sales_number(&r.file, "2024", "12", "25"), Some(0));
    let first = record_sale(None, 12, 25, 2024, &[], bits(0.0), bits(0.0), bits(0.0)).unwrap();
    assert_eq!(get_last_sales_number(&first.file, "2024", "12", "25"), Some(1));
}
