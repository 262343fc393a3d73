use ministore_pos::inventory::{add_inventory_item, encode_inv_header, InventoryHeader, LookupError};
use ministore_pos::screens::{
    check_daily_sales_date, check_edit_remove_id, enter_item, get_item_details,
    get_last_number_used, in_sales_table, inventory_is_empty, item_numbers, remove_row,
    sale_items, search_item, search_parent, edit_action, DateCheck, EditAction, EditCheck, EnterDecision, SearchDecision,
    TableRow,
};

fn cs(s: &str) -> Vec<char> {
    s.chars().collect()
}

fn row(slot: usize, id: &str, qty: &str) -> TableRow {
    TableRow { slot, id: cs(id), name: cs(&format!("item{}", id)), qty: cs(qty), price: cs("1.00") }
}

#[test]
fn last_number_used_is_the_highest_slot() {
    assert_eq!(get_last_number_used(&[]), 0);
    assert_eq!(get_last_number_used(&[row(1, "4", "1"), row(3, "5", "1")]), 3);
}

#[test]
fn entering_items() {
    let rows = vec![row(1, "4", "1"), row(2, "5", "2")];
    assert_eq!(enter_item(&rows, "4", "3"), EnterDecision::AlreadyPunched);
    assert_eq!(enter_item(&rows, "6", "0"), EnterDecision::InvalidQuantity);
    assert_eq!(enter_item(&rows, "6", "x"), EnterDecision::InvalidQuantity);
    assert_eq!(enter_item(&rows, "6", "3"), EnterDecision::Add { slot: 3, quantity: 3 });
    assert_eq!(enter_item(&[], "6", "+2"), EnterDecision::Add { slot: 1, quantity: 2 });
}

#[test]
fn a_product_cannot_be_punched_twice() {
    let mut rows = vec![row(1, "4", "1")];
    match enter_item(&rows, "7", "2") {
        EnterDecision::Add { slot, .. } => rows.push(row(slot, "7", "2")),
        d => panic!("unexpected {:?}", d),
    }
    assert_eq!(enter_item(&rows, "7", "5"), EnterDecision::AlreadyPunched);
}

#[test]
fn after_a_removal_the_last_row_is_not_looked_at() {
    // Slots 1 and 2, then the row of slot 1 removed: one row, slot 2.
    let rows = remove_row(&[row(1, "4", "1"), row(2, "5", "1")], "4", 2).unwrap();
    assert_eq!(rows, vec![row(2, "5", "1")]);
    match enter_item(&rows, "7", "1") {
        EnterDecision::Add { slot, .. } => {
            assert_eq!(slot, 3);
            let mut more = rows.clone();
            more.push(row(slot, "7", "1"));
            // Slot 3 lies past the number of rows, so "7" is not seen.
            assert!(!in_sales_table(&more, "7"));
        }
        d => panic!("unexpected {:?}", d),
    }
}

#[test]
fn looking_up_slots() {
    let rows = vec![row(1, "4", "1"), row(3, "5", "1")];
    assert!(in_sales_table(&rows, "4"));
    assert!(!in_sales_table(&rows, "5"));
    assert_eq!(search_parent(&rows, "4", 2), Some(1));
    assert_eq!(search_parent(&rows, "5", 2), None);
    assert_eq!(search_parent(&rows, "5", 3), Some(3));
    assert_eq!(search_parent(&rows, "", 2), Some(0));
    assert_eq!(get_item_details(&rows, "4", 2), Some((cs("item4"), cs("1.00"))));
    assert_eq!(get_item_details(&rows, "9", 2), None);
}

#[test]
fn removing_rows() {
    let rows = vec![row(1, "4", "1"), row(2, "5", "1"), row(3, "6", "1")];
    assert_eq!(remove_row(&rows, "5", 3), Some(vec![row(1, "4", "1"), row(3, "6", "1")]));
    assert_eq!(remove_row(&rows, "9", 3), None);
    // After a gap the position one before the slot is another row.
    let gap = vec![row(2, "5", "1"), row(3, "6", "1")];
    assert_eq!(remove_row(&gap, "5", 2), Some(vec![row(2, "5", "1")]));
    assert_eq!(remove_row(&gap, "6", 3), Some(gap.clone()));
}

#[test]
fn item_numbers_count_from_one() {
    assert_eq!(item_numbers(&[row(2, "5", "1"), row(7, "6", "1")]), vec![1, 2]);
    assert_eq!(item_numbers(&[]), Vec::<usize>::new());
}

#[test]
fn sale_items_from_rows() {
    assert_eq!(sale_items(&[row(1, "4", "2"), row(3, "5", "1")]), vec![(4, 2), (5, 1)]);
    assert_eq!(sale_items(&[row(1, "+4", "02")]), vec![(4, 2)]);
    assert_eq!(sale_items(&[]), Vec::<(u32, u32)>::new());
}

#[test]
fn edit_and_remove_checks() {
    let rows = vec![row(1, "4", "1")];
    assert_eq!(check_edit_remove_id(&rows, "x"), EditCheck::InvalidId);
    assert_eq!(check_edit_remove_id(&rows, ""), EditCheck::InvalidId);
    assert_eq!(check_edit_remove_id(&rows, "9"), EditCheck::NotFound);
    assert_eq!(check_edit_remove_id(&rows, "4"), EditCheck::Proceed);
}

#[test]
fn daily_sales_date_checks() {
    assert_eq!(check_daily_sales_date("13", "1", "2024"), DateCheck::InvalidMonth);
    assert_eq!(check_daily_sales_date("x", "1", "2024"), DateCheck::InvalidMonth);
    assert_eq!(check_daily_sales_date("0", "1", "2024"), DateCheck::InvalidMonth);
    assert_eq!(check_daily_sales_date("12", "32", "2024"), DateCheck::InvalidDay);
    assert_eq!(check_daily_sales_date("12", "0", "2024"), DateCheck::InvalidDay);
    assert_eq!(check_daily_sales_date("12", "31", "-1"), DateCheck::InvalidYear);
    assert_eq!(check_daily_sales_date("12", "31", "y"), DateCheck::InvalidYear);
    assert_eq!(check_daily_sales_date("12", "31", "0"), DateCheck::Valid);
    assert_eq!(check_daily_sales_date("+5", "07", "2024"), DateCheck::Valid);
}

#[test]
fn product_lookup_on_the_sales_screen() {
    let empty = encode_inv_header(InventoryHeader { last_number: 0, number_items: 0 });
    let (inv, _) = add_inventory_item(&empty, b"Pen", 1.5f64.to_bits()).unwrap();
    assert_eq!(search_item(&inv, "x", ""), Ok(SearchDecision::InvalidId));
    assert_eq!(search_item(&inv, "1", "Pen"), Ok(SearchDecision::FocusQuantity));
    assert_eq!(
        search_item(&inv, "1", ""),
        Ok(SearchDecision::Show { name: cs("Pen"), price_bits: 1.5f64.to_bits() })
    );
    assert_eq!(search_item(&inv, "2", ""), Ok(SearchDecision::NotFound));
    let (bad, _) = add_inventory_item(&empty, &[0xff], 0).unwrap();
    assert_eq!(search_item(&bad, "1", "x"), Err(LookupError::Corrupt));
}

#[test]
fn sales_screen_needs_items() {
    assert!(inventory_is_empty(None));
    assert!(inventory_is_empty(Some(InventoryHeader { last_number: 3, number_items: 0 })));
    assert!(!inventory_is_empty(Some(InventoryHeader { last_number: 3, number_items: 1 })));
}

#[test]
fn edit_actions_of_the_edit_screen() {
    let rows = vec![row(1, "4", "1"), row(2, "5", "2")];
    assert_eq!(edit_action(&rows, "5", 2, true, false), EditAction::RemoveFromSale { slot: 2 });
    assert_eq!(edit_action(&rows, "5", 2, true, true), EditAction::RemoveFromInventory { slot: 2 });
    assert_eq!(edit_action(&rows, "4", 2, false, false), EditAction::EditSale { slot: 1 });
    assert_eq!(edit_action(&rows, "4", 2, false, true), EditAction::EditInventory { slot: 1 });
    assert_eq!(edit_action(&rows, "9", 2, false, false), EditAction::NotFound);
    // Slot 2 lies past the slots looked at.
    assert_eq!(edit_action(&rows, "5", 1, true, false), EditAction::NotFound);
    // An empty number matches slot 0, which holds no row.
    assert_eq!(edit_action(&rows, "", 2, true, false), EditAction::NotFound);
}
