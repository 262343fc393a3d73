//! The decisions that the sales and inventory screens take. A table on
//! screen is modelled as its rows in screen order; each row has the slot
//! number that names its views (`sales_item_3`, `sales_id_3`, ...) and the
//! texts that the logic reads.
use crate::inventory::{
    get_inv_item_details, id_corresponds_name, spec_id_corresponds_name, spec_item_details,
    InventoryHeader, LookupError,
};
use crate::text::{
    chars_equal, decimal, is_digit, lemma_decimal_digits, lemma_parse_decimal, parse_i32,
    parse_u32, parse_usize, spec_parse_i32, spec_parse_unsigned,
};
use crate::unicode::chars_of;
use vstd::prelude::*;

verus! {

/// One row of a table on screen.
#[derive(Clone, Debug, PartialEq, Eq)]
pub struct TableRow {
    /// The slot number in the row's view names (1 for the first row added).
    pub slot: usize,
    pub id: Vec<char>,
    pub name: Vec<char>,
    pub qty: Vec<char>,
    pub price: Vec<char>,
}

/// A row as a mathematical value.
pub struct SpecRow {
    pub slot: usize,
    pub id: Seq<char>,
    pub name: Seq<char>,
    pub qty: Seq<char>,
    pub price: Seq<char>,
}

impl View for TableRow {
    type V = SpecRow;

    open spec fn view(&self) -> SpecRow {
        SpecRow {
            slot: self.slot,
            id: self.id@,
            name: self.name@,
            qty: self.qty@,
            price: self.price@,
        }
    }
}

/// The views of a sequence of rows.
pub open spec fn rows_view(rows: Seq<TableRow>) -> Seq<SpecRow> {
    rows.map_values(|r: TableRow| r@)
}

/// Whether a table is as the screens build it: slots from 1 up, increasing
/// in screen order (a row is always added after the others, one slot past
/// the highest).
pub open spec fn rows_wf(rows: Seq<SpecRow>) -> bool {
    &&& forall|i: int| 0 <= i < rows.len() ==> (#[trigger] rows[i]).slot >= 1
    &&& forall|i: int, j: int| 0 <= i < j < rows.len() ==> #[trigger] rows[i].slot
        < #[trigger] rows[j].slot
}

/// The highest slot in use (0 for an empty table).
pub open spec fn spec_last_slot(rows: Seq<SpecRow>) -> nat {
    if rows.len() == 0 {
        0
    } else {
        rows.last().slot as nat
    }
}

/// The first row, in screen order, with the given slot.
pub open spec fn spec_row_at_slot(rows: Seq<SpecRow>, k: nat) -> Option<SpecRow>
    decreases rows.len(),
{
    if rows.len() == 0 {
        None
    } else if rows[0].slot == k {
        Some(rows[0])
    } else {
        spec_row_at_slot(rows.drop_first(), k)
    }
}

/// The product number shown in slot `k` (empty when no row has the slot).
pub open spec fn spec_slot_id(rows: Seq<SpecRow>, k: nat) -> Seq<char> {
    match spec_row_at_slot(rows, k) {
        Some(r) => r.id,
        None => Seq::empty(),
    }
}

/// Whether the product `id` is in the sales table: some slot from 1 to the
/// number of rows shows it (slots past the number of rows are not looked at).
pub open spec fn spec_in_table(rows: Seq<SpecRow>, id: Seq<char>) -> bool {
    exists|k: nat|
        1 <= k <= rows.len() && #[trigger] spec_row_at_slot(rows, k) is Some
            && spec_row_at_slot(rows, k).unwrap().id == id
}

/// The first slot from `i` to `n` whose shown product number is `id`.
pub open spec fn spec_search_slot_from(rows: Seq<SpecRow>, id: Seq<char>, i: nat, n: nat) -> Option<
    nat,
>
    decreases n + 1 - i,
{
    if i > n {
        None
    } else if spec_slot_id(rows, i) == id {
        Some(i)
    } else {
        spec_search_slot_from(rows, id, i + 1, n)
    }
}

/// A row with a given slot (exec).
fn row_at_slot(rows: &[TableRow], k: usize) -> (r: Option<usize>)
    ensures
        match r {
            Some(i) => i < rows@.len() && spec_row_at_slot(rows_view(rows@), k as nat) == Some(
                rows@[i as int]@,
            ),
            None => spec_row_at_slot(rows_view(rows@), k as nat) is None,
        },
{
    let ghost v = rows_view(rows@);
    let mut i: usize = 0;
    assert(v.subrange(0, v.len() as int) =~= v);
    while i < rows.len()
        invariant
            i <= rows@.len(),
            v == rows_view(rows@),
            spec_row_at_slot(v, k as nat) == spec_row_at_slot(v.subrange(i as int, v.len() as int), k as nat),
        decreases rows@.len() - i,
    {
        let ghost rest = v.subrange(i as int, v.len() as int);
        assert(rest[0] == rows@[i as int]@);
        if rows[i].slot == k {
            return Some(i);
        }
        assert(rest.drop_first() =~= v.subrange(i + 1, v.len() as int));
        i = i + 1;
    }
    None
}

/// Whether the product `id` is in the sales table (see `spec_in_table`).
pub fn in_sales_table(rows: &[TableRow], id: &str) -> (r: bool)
    ensures
        r == spec_in_table(rows_view(rows@), id@),
{
    let idc = chars_of(id);
    let ghost v = rows_view(rows@);
    let mut k: usize = 0;
    while k < rows.len()
        invariant
            k <= rows@.len(),
            v == rows_view(rows@),
            idc@ == id@,
            forall|j: nat|
                1 <= j <= k ==> !(#[trigger] spec_row_at_slot(v, j) is Some && spec_row_at_slot(
                    v,
                    j,
                ).unwrap().id == id@),
        decreases rows@.len() - k,
    {
        match row_at_slot(rows, k + 1) {
            Some(i) => {
                if chars_equal(rows[i].id.as_slice(), idc.as_slice()) {
                    return true;
                }
            },
            None => {},
        }
        k = k + 1;
    }
    false
}

/// The highest slot in use, where the next row goes after (what the screens
/// count up to, slot by slot, until every row has been seen).
pub fn get_last_number_used(rows: &[TableRow]) -> (r: usize)
    requires
        rows_wf(rows_view(rows@)),
    ensures
        r == spec_last_slot(rows_view(rows@)),
{
    if rows.len() == 0 {
        0
    } else {
        rows[rows.len() - 1].slot
    }
}

/// The first slot from 0 to `n` whose shown product number is `id`, as the
/// edit screens look it up; `None` when none does.
pub fn search_parent(rows: &[TableRow], id: &str, n: usize) -> (r: Option<usize>)
    requires
        n < usize::MAX,
    ensures
        match r {
            Some(k) => spec_search_slot_from(rows_view(rows@), id@, 0, n as nat) == Some(k as nat),
            None => spec_search_slot_from(rows_view(rows@), id@, 0, n as nat) is None,
        },
{
    let idc = chars_of(id);
    let ghost v = rows_view(rows@);
    let mut i: usize = 0;
    while i <= n
        invariant
            i <= n + 1,
            n < usize::MAX,
            v == rows_view(rows@),
            idc@ == id@,
            spec_search_slot_from(v, id@, 0, n as nat) == spec_search_slot_from(
                v,
                id@,
                i as nat,
                n as nat,
            ),
        decreases n + 1 - i,
    {
        let hit = match row_at_slot(rows, i) {
            Some(j) => chars_equal(rows[j].id.as_slice(), idc.as_slice()),
            None => idc.len() == 0,
        };
        proof {
            if spec_row_at_slot(v, i as nat) is None {
                assert(spec_slot_id(v, i as nat) =~= Seq::<char>::empty());
                if idc.len() == 0 {
                    assert(idc@ =~= Seq::<char>::empty());
                }
            }
        }
        if hit {
            return Some(i);
        }
        i = i + 1;
    }
    None
}

/// The name and price shown for the product `id`: `None` when no slot from
/// 0 to `n` shows it.
pub fn get_item_details(rows: &[TableRow], id: &str, n: usize) -> (r: Option<
    (Vec<char>, Vec<char>),
>)
    requires
        n < usize::MAX,
        id@.len() > 0,
    ensures
        match r {
            Some((name, price)) => spec_search_slot_from(rows_view(rows@), id@, 0, n as nat) matches Some(
                k,
            ) && spec_row_at_slot(rows_view(rows@), k) matches Some(row) && row.name == name@
                && row.price == price@,
            None => spec_search_slot_from(rows_view(rows@), id@, 0, n as nat) is None,
        },
{
    match search_parent(rows, id, n) {
        None => None,
        Some(k) => match row_at_slot(rows, k) {
            Some(j) => Some((rows[j].name.clone(), rows[j].price.clone())),
            None => {
                proof {
                    lemma_search_slot_shows(rows_view(rows@), id@, 0, n as nat);
                }
                None
            },
        },
    }
}

/// A slot that the search returns shows the product number searched for.
pub proof fn lemma_search_slot_shows(rows: Seq<SpecRow>, id: Seq<char>, i: nat, n: nat)
    ensures
        spec_search_slot_from(rows, id, i, n) matches Some(k) ==> spec_slot_id(rows, k) == id,
    decreases n + 1 - i,
{
    if i <= n && spec_slot_id(rows, i) != id {
        lemma_search_slot_shows(rows, id, i + 1, n);
    }
}

/// What entering an item on the sales screen does.
#[derive(Clone, Copy, Debug, PartialEq, Eq, Structural)]
pub enum EnterDecision {
    /// The product is already in the table ("Product ID already punched!").
    AlreadyPunched,
    /// The quantity is not a positive number ("Invalid quantity!").
    InvalidQuantity,
    /// A row goes into the given slot with the given quantity.
    Add { slot: usize, quantity: usize },
}

/// The decision of entering the product `id` with quantity text `qty`.
pub open spec fn spec_enter_item(rows: Seq<SpecRow>, id: Seq<char>, qty: Seq<char>) -> EnterDecision {
    if spec_in_table(rows, id) {
        EnterDecision::AlreadyPunched
    } else {
        match spec_parse_unsigned(qty, usize::MAX as nat) {
            None => EnterDecision::InvalidQuantity,
            Some(q) => if q == 0 {
                EnterDecision::InvalidQuantity
            } else {
                EnterDecision::Add { slot: (spec_last_slot(rows) + 1) as usize, quantity: q as usize }
            },
        }
    }
}

/// Decides what entering the product `id` with quantity text `qty` does.
pub fn enter_item(rows: &[TableRow], id: &str, qty: &str) -> (r: EnterDecision)
    requires
        rows_wf(rows_view(rows@)),
        spec_last_slot(rows_view(rows@)) < usize::MAX,
    ensures
        r == spec_enter_item(rows_view(rows@), id@, qty@),
{
    if in_sales_table(rows, id) {
        return EnterDecision::AlreadyPunched;
    }
    let q = chars_of(qty);
    match parse_usize(q.as_slice()) {
        None => EnterDecision::InvalidQuantity,
        Some(n) => if n == 0 {
            EnterDecision::InvalidQuantity
        } else {
            EnterDecision::Add { slot: get_last_number_used(rows) + 1, quantity: n }
        },
    }
}

/// The item numbers that the sales table shows after a change: 1, 2, ...
/// in slot order.
pub fn item_numbers(rows: &[TableRow]) -> (r: Vec<usize>)
    ensures
        r@.len() == rows@.len(),
        forall|i: int| 0 <= i < r@.len() ==> #[trigger] r@[i] == i + 1,
{
    let mut r: Vec<usize> = Vec::new();
    let mut i: usize = 0;
    while i < rows.len()
        invariant
            i <= rows@.len(),
            r@.len() == i,
            forall|k: int| 0 <= k < i ==> #[trigger] r@[k] == k + 1,
        decreases rows@.len() - i,
    {
        r.push(i + 1);
        i = i + 1;
    }
    r
}

/// The table after removing the row of the product `id`, as the edit screen
/// does it: the slot that shows the number is looked for among slots 0 to
/// `n`, and the row at the position one before that slot is taken out (when
/// there is a row there). `None` when no slot from 1 to `n` shows the number
/// ("Product ID not found!").
pub open spec fn spec_remove_row(rows: Seq<SpecRow>, id: Seq<char>, n: nat) -> Option<Seq<SpecRow>> {
    match spec_search_slot_from(rows, id, 0, n) {
        None => None,
        Some(k) => if k == 0 {
            None
        } else if k - 1 < rows.len() {
            Some(rows.remove(k - 1))
        } else {
            Some(rows)
        },
    }
}

/// Removes the row of the product `id` (see `spec_remove_row`).
pub fn remove_row(rows: &[TableRow], id: &str, n: usize) -> (r: Option<Vec<TableRow>>)
    requires
        n < usize::MAX,
    ensures
        match r {
            Some(v) => spec_remove_row(rows_view(rows@), id@, n as nat) == Some(rows_view(v@)),
            None => spec_remove_row(rows_view(rows@), id@, n as nat) is None,
        },
{
    match search_parent(rows, id, n) {
        None => None,
        Some(k) => {
            if k == 0 {
                return None;
            }
            let mut out: Vec<TableRow> = Vec::new();
            let mut i: usize = 0;
            let ghost v = rows_view(rows@);
            while i < rows.len()
                invariant
                    i <= rows@.len(),
                    k >= 1,
                    v == rows_view(rows@),
                    rows_view(out@) == if k - 1 < i {
                        v.subrange(0, i as int).remove(k - 1)
                    } else {
                        v.subrange(0, i as int)
                    },
                decreases rows@.len() - i,
            {
                let ghost before = rows_view(out@);
                if i != k - 1 {
                    out.push(rows[i].clone_row());
                    proof {
                        assert(rows_view(out@) =~= before.push(v[i as int]));
                    }
                }
                proof {
                    if k - 1 < i + 1 {
                        if k - 1 == i {
                            assert(v.subrange(0, i + 1).remove(k - 1) =~= v.subrange(0, i as int));
                        } else {
                            assert(v.subrange(0, i + 1).remove(k - 1) =~= v.subrange(0, i as int).remove(
                                k - 1,
                            ).push(v[i as int]));
                        }
                    } else {
                        assert(v.subrange(0, i + 1) =~= v.subrange(0, i as int).push(v[i as int]));
                    }
                }
                i = i + 1;
            }
            assert(v.subrange(0, i as int) =~= v);
            Some(out)
        },
    }
}

impl TableRow {
    /// A copy of the row.
    pub fn clone_row(&self) -> (r: TableRow)
        ensures
            r@ == self@,
    {
        TableRow {
            slot: self.slot,
            id: copy_chars(self.id.as_slice()),
            name: copy_chars(self.name.as_slice()),
            qty: copy_chars(self.qty.as_slice()),
            price: copy_chars(self.price.as_slice()),
        }
    }
}

/// A copy of `s`.
fn copy_chars(s: &[char]) -> (r: Vec<char>)
    ensures
        r@ == s@,
{
    let mut r: Vec<char> = Vec::new();
    let mut i: usize = 0;
    while i < s.len()
        invariant
            i <= s@.len(),
            r@ == s@.subrange(0, i as int),
        decreases s@.len() - i,
    {
        r.push(s[i]);
        i = i + 1;
        assert(r@ =~= s@.subrange(0, i as int));
    }
    assert(s@.subrange(0, i as int) =~= s@);
    r
}

/// Whether every row's product number and quantity read as a `u32` (a sale
/// is recorded only from such a table; on another one the product number or
/// quantity that does not read panics the recording).
pub open spec fn rows_parse_as_u32(rows: Seq<SpecRow>) -> bool {
    forall|i: int|
        0 <= i < rows.len() ==> {
            &&& spec_parse_unsigned(#[trigger] rows[i].id, u32::MAX as nat) is Some
            &&& spec_parse_unsigned(rows[i].qty, u32::MAX as nat) is Some
        }
}

/// The (product number, quantity) pair that a row records.
pub open spec fn spec_row_item(row: SpecRow) -> (u32, u32) {
    (
        spec_parse_unsigned(row.id, u32::MAX as nat).unwrap() as u32,
        spec_parse_unsigned(row.qty, u32::MAX as nat).unwrap() as u32,
    )
}

/// The (product number, quantity) pairs that a sale records, one per row,
/// in slot order.
pub open spec fn spec_sale_items(rows: Seq<SpecRow>) -> Seq<(u32, u32)> {
    rows.map_values(|row: SpecRow| spec_row_item(row))
}

/// The (product number, quantity) pairs of the sales table.
pub fn sale_items(rows: &[TableRow]) -> (r: Vec<(u32, u32)>)
    requires
        rows_parse_as_u32(rows_view(rows@)),
    ensures
        r@ == spec_sale_items(rows_view(rows@)),
{
    let ghost v = rows_view(rows@);
    let mut out: Vec<(u32, u32)> = Vec::new();
    let mut i: usize = 0;
    while i < rows.len()
        invariant
            i <= rows@.len(),
            v == rows_view(rows@),
            rows_parse_as_u32(v),
            out@ == spec_sale_items(v).subrange(0, i as int),
        decreases rows@.len() - i,
    {
        assert(v[i as int] == rows@[i as int]@);
        assert(spec_parse_unsigned(v[i as int].id, u32::MAX as nat) is Some);
        assert(spec_parse_unsigned(v[i as int].qty, u32::MAX as nat) is Some);
        let a = parse_u32(rows[i].id.as_slice());
        let b = parse_u32(rows[i].qty.as_slice());
        match (a, b) {
            (Some(x), Some(y)) => {
                out.push((x, y));
            },
            _ => {
                assert(false);
                return out;
            },
        }
        i = i + 1;
        assert(out@ =~= spec_sale_items(v).subrange(0, i as int));
    }
    assert(out@ =~= spec_sale_items(v));
    out
}

/// What the edit screen does with a product number once it was accepted.
#[derive(Clone, Copy, Debug, PartialEq, Eq, Structural)]
pub enum EditAction {
    /// No slot from 1 to `n` shows the number ("Product ID not found!").
    NotFound,
    /// Delete the product from the inventory file and its row from the list.
    RemoveFromInventory { slot: usize },
    /// Take the product's row out of the sale.
    RemoveFromSale { slot: usize },
    /// Ask for the product's new name and price.
    EditInventory { slot: usize },
    /// Ask for the product's new quantity in the sale.
    EditSale { slot: usize },
}

/// The action of the edit screen for the product `id`: the slot that shows
/// the number is looked for among slots 0 to `n`; slot 0 holds no row, so
/// finding the number only there, or nowhere, is "not found". Otherwise the
/// product is removed or edited, in the inventory or in the sale.
pub open spec fn spec_edit_action(
    rows: Seq<SpecRow>,
    id: Seq<char>,
    n: nat,
    remove: bool,
    inventory: bool,
) -> EditAction {
    match spec_search_slot_from(rows, id, 0, n) {
        None => EditAction::NotFound,
        Some(k) => if k == 0 {
            EditAction::NotFound
        } else if remove && inventory {
            EditAction::RemoveFromInventory { slot: k as usize }
        } else if remove {
            EditAction::RemoveFromSale { slot: k as usize }
        } else if inventory {
            EditAction::EditInventory { slot: k as usize }
        } else {
            EditAction::EditSale { slot: k as usize }
        },
    }
}

/// Decides what the edit screen does with the product `id` (see
/// `spec_edit_action`).
pub fn edit_action(rows: &[TableRow], id: &str, n: usize, remove: bool, inventory: bool) -> (r:
    EditAction)
    requires
        n < usize::MAX,
    ensures
        r == spec_edit_action(rows_view(rows@), id@, n as nat, remove, inventory),
{
    match search_parent(rows, id, n) {
        None => EditAction::NotFound,
        Some(k) => if k == 0 {
            EditAction::NotFound
        } else if remove && inventory {
            EditAction::RemoveFromInventory { slot: k }
        } else if remove {
            EditAction::RemoveFromSale { slot: k }
        } else if inventory {
            EditAction::EditInventory { slot: k }
        } else {
            EditAction::EditSale { slot: k }
        },
    }
}

/// What the edit and remove screens make of the product number typed in.
#[derive(Clone, Copy, Debug, PartialEq, Eq, Structural)]
pub enum EditCheck {
    /// Not a number ("Invalid Product ID!").
    InvalidId,
    /// Not in the sales table ("Product ID not found!").
    NotFound,
    /// Empty ("Field cannot be empty!").
    Empty,
    /// Go on with the edit or removal.
    Proceed,
}

/// The check of the product number typed into the edit or remove screen.
pub open spec fn spec_check_edit_remove_id(rows: Seq<SpecRow>, id: Seq<char>) -> EditCheck {
    if spec_parse_unsigned(id, usize::MAX as nat) is None {
        EditCheck::InvalidId
    } else if !spec_in_table(rows, id) {
        EditCheck::NotFound
    } else if id.len() == 0 {
        EditCheck::Empty
    } else {
        EditCheck::Proceed
    }
}

/// Checks the product number typed into the edit or remove screen against
/// the sales table.
pub fn check_edit_remove_id(rows: &[TableRow], id: &str) -> (r: EditCheck)
    ensures
        r == spec_check_edit_remove_id(rows_view(rows@), id@),
{
    let idc = chars_of(id);
    if parse_usize(idc.as_slice()).is_none() {
        EditCheck::InvalidId
    } else if !in_sales_table(rows, id) {
        EditCheck::NotFound
    } else if idc.len() == 0 {
        EditCheck::Empty
    } else {
        EditCheck::Proceed
    }
}

/// What the daily-sales screen makes of the date typed in.
#[derive(Clone, Copy, Debug, PartialEq, Eq, Structural)]
pub enum DateCheck {
    InvalidMonth,
    InvalidDay,
    InvalidYear,
    Valid,
}

/// The check of a date: a month from 1 to 12, a day from 1 to 31, a year
/// from 0 up, each an `i32`.
pub open spec fn spec_check_date(month: Seq<char>, day: Seq<char>, year: Seq<char>) -> DateCheck {
    match spec_parse_i32(month) {
        None => DateCheck::InvalidMonth,
        Some(m) => if m > 12 || m < 1 {
            DateCheck::InvalidMonth
        } else {
            match spec_parse_i32(day) {
                None => DateCheck::InvalidDay,
                Some(d) => if d > 31 || d < 1 {
                    DateCheck::InvalidDay
                } else {
                    match spec_parse_i32(year) {
                        None => DateCheck::InvalidYear,
                        Some(y) => if y < 0 {
                            DateCheck::InvalidYear
                        } else {
                            DateCheck::Valid
                        },
                    }
                },
            }
        },
    }
}

/// Checks the date typed into the daily-sales screen.
pub fn check_daily_sales_date(month: &str, day: &str, year: &str) -> (r: DateCheck)
    ensures
        r == spec_check_date(month@, day@, year@),
{
    let m = chars_of(month);
    let d = chars_of(day);
    let y = chars_of(year);
    match parse_i32(m.as_slice()) {
        None => DateCheck::InvalidMonth,
        Some(mv) => if mv > 12 || mv < 1 {
            DateCheck::InvalidMonth
        } else {
            match parse_i32(d.as_slice()) {
                None => DateCheck::InvalidDay,
                Some(dv) => if dv > 31 || dv < 1 {
                    DateCheck::InvalidDay
                } else {
                    match parse_i32(y.as_slice()) {
                        None => DateCheck::InvalidYear,
                        Some(yv) => if yv < 0 {
                            DateCheck::InvalidYear
                        } else {
                            DateCheck::Valid
                        },
                    }
                },
            }
        },
    }
}

/// What looking a product up on the sales screen does.
#[derive(Clone, Debug, PartialEq, Eq)]
pub enum SearchDecision {
    /// The product number is not a number ("Invalid Product ID!").
    InvalidId,
    /// The number and the name typed in already agree: go to the quantity.
    FocusQuantity,
    /// No product carries the number ("Product ID not found!").
    NotFound,
    /// Show the product's name and price, then go to the quantity.
    Show { name: Vec<char>, price_bits: u64 },
}

/// The view of a lookup decision.
pub open spec fn search_decision_view(d: SearchDecision) -> Option<Option<Option<(Seq<char>, u64)>>> {
    match d {
        SearchDecision::InvalidId => None,
        SearchDecision::FocusQuantity => Some(None),
        SearchDecision::NotFound => Some(Some(None)),
        SearchDecision::Show { name, price_bits } => Some(Some(Some((name@, price_bits)))),
    }
}

/// The lookup of the product `id` typed in with the name `name`: `None` for an
/// invalid number, `Some(None)` when number and name already agree,
/// `Some(Some(None))` when no product carries the number, otherwise the name
/// and price on file.
pub open spec fn spec_search_item(inv: Seq<u8>, id: Seq<char>, name: Seq<char>) -> Result<
    Option<Option<Option<(Seq<char>, u64)>>>,
    LookupError,
> {
    if spec_parse_unsigned(id, usize::MAX as nat) is None {
        Ok(None)
    } else {
        match spec_id_corresponds_name(inv, id, name) {
            Err(e) => Err(e),
            Ok(true) => Ok(Some(None)),
            Ok(false) => match spec_item_details(inv, id) {
                Err(LookupError::NotFound) => Ok(Some(Some(None))),
                Err(e) => Err(e),
                Ok((pid, nm, price)) => Ok(Some(Some(Some((nm, price))))),
            },
        }
    }
}

/// Looks up the product `id` typed in with the name `name` on the sales screen.
pub fn search_item(inv: &[u8], id: &str, name: &str) -> (r: Result<SearchDecision, LookupError>)
    ensures
        match r {
            Ok(d) => spec_search_item(inv@, id@, name@) == Ok::<_, LookupError>(
                search_decision_view(d),
            ),
            Err(e) => spec_search_item(inv@, id@, name@) == Err::<
                Option<Option<Option<(Seq<char>, u64)>>>,
                _,
            >(e),
        },
{
    let idc = chars_of(id);
    if parse_usize(idc.as_slice()).is_none() {
        return Ok(SearchDecision::InvalidId);
    }
    match id_corresponds_name(inv, id, name) {
        Err(e) => Err(e),
        Ok(true) => Ok(SearchDecision::FocusQuantity),
        Ok(false) => match get_inv_item_details(inv, id) {
            Err(LookupError::NotFound) => Ok(SearchDecision::NotFound),
            Err(e) => Err(e),
            Ok(entry) => Ok(SearchDecision::Show { name: entry.name, price_bits: entry.price_bits }),
        },
    }
}

/// Whether the sales screen refuses to open because the inventory is empty:
/// no inventory header, or a count of zero.
pub fn inventory_is_empty(header: Option<InventoryHeader>) -> (r: bool)
    ensures
        r == match header {
            None => true,
            Some(h) => h.number_items == 0,
        },
{
    match header {
        None => true,
        Some(h) => h.number_items == 0,
    }
}

/// Whether the table's slots are exactly 1, 2, ... in screen order (no row
/// was ever removed).
pub open spec fn gap_free(rows: Seq<SpecRow>) -> bool {
    forall|i: int| 0 <= i < rows.len() ==> (#[trigger] rows[i]).slot == i + 1
}

/// In a table without gaps the row with a slot is the one at the position
/// where that slot falls.
pub proof fn lemma_row_at_slot_gap_free(rows: Seq<SpecRow>, k: nat)
    requires
        gap_free(rows),
        1 <= k <= rows.len(),
    ensures
        spec_row_at_slot(rows, k) == Some(rows[k - 1]),
{
    lemma_row_at_slot_shift_by(rows, k, 1);
}

/// The row at a slot in a run whose slots are `b, b + 1, ...`.
proof fn lemma_row_at_slot_shift_by(rows: Seq<SpecRow>, k: nat, b: nat)
    requires
        forall|i: int| 0 <= i < rows.len() ==> (#[trigger] rows[i]).slot == i + b,
        b <= k < rows.len() + b,
    ensures
        spec_row_at_slot(rows, k) == Some(rows[k - b]),
    decreases rows.len(),
{
    if k > b {
        let rest = rows.drop_first();
        assert forall|i: int| 0 <= i < rest.len() implies (#[trigger] rest[i]).slot == i + (b + 1) by {
            assert(rest[i] == rows[i + 1]);
        }
        lemma_row_at_slot_shift_by(rest, k, b + 1);
        assert(rest[k - (b + 1)] == rows[k - b]);
    }
}

/// A row added after rows that all have other slots is the row at its slot.
pub proof fn lemma_row_at_slot_push(rows: Seq<SpecRow>, x: SpecRow)
    requires
        forall|i: int| 0 <= i < rows.len() ==> (#[trigger] rows[i]).slot != x.slot,
    ensures
        spec_row_at_slot(rows.push(x), x.slot as nat) == Some(x),
    decreases rows.len(),
{
    if rows.len() > 0 {
        let rest = rows.drop_first();
        assert(rows.push(x).drop_first() =~= rest.push(x));
        assert(rows.push(x)[0] == rows[0]);
        assert forall|i: int| 0 <= i < rest.len() implies (#[trigger] rest[i]).slot != x.slot by {
            assert(rest[i] == rows[i + 1]);
        }
        lemma_row_at_slot_push(rest, x);
    } else {
        assert(rows.push(x)[0] == x);
    }
}

/// A row added where entering an item puts it goes after every other row:
/// the table stays well formed.
pub proof fn law_enter_keeps_table_wf(rows: Seq<SpecRow>, id: Seq<char>, qty: Seq<char>, x: SpecRow)
    requires
        rows_wf(rows),
        spec_last_slot(rows) < usize::MAX,
        spec_enter_item(rows, id, qty) matches EnterDecision::Add { slot, quantity } && x.slot == slot,
    ensures
        rows_wf(rows.push(x)),
{
    let n = rows.push(x);
    assert forall|i: int, j: int| 0 <= i < j < n.len() implies #[trigger] n[i].slot
        < #[trigger] n[j].slot by {
        if j == rows.len() {
            assert(rows[i].slot <= rows.last().slot) by {
                if i < rows.len() - 1 {
                    assert(rows[i].slot < rows[rows.len() - 1].slot);
                }
            }
        } else {
            assert(n[i] == rows[i] && n[j] == rows[j]);
        }
    }
    assert forall|i: int| 0 <= i < n.len() implies (#[trigger] n[i]).slot >= 1 by {
        if i < rows.len() {
            assert(n[i] == rows[i]);
        }
    }
}

/// A product cannot be punched twice: on a table from which no row was
/// removed, once a product's row has been added where entering it puts it,
/// entering the same product again is refused as already punched.
pub proof fn law_punched_once(rows: Seq<SpecRow>, id: Seq<char>, qty: Seq<char>, x: SpecRow, qty2: Seq<char>)
    requires
        gap_free(rows),
        rows.len() < usize::MAX,
        spec_enter_item(rows, id, qty) matches EnterDecision::Add { slot, quantity } && x.slot == slot,
        x.id == id,
    ensures
        spec_enter_item(rows.push(x), id, qty2) == EnterDecision::AlreadyPunched,
{
    let n = rows.push(x);
    assert(x.slot == rows.len() + 1) by {
        if rows.len() > 0 {
            assert(rows.last().slot == rows.len());
        }
    }
    assert forall|i: int| 0 <= i < rows.len() implies (#[trigger] rows[i]).slot != x.slot by {}
    lemma_row_at_slot_push(rows, x);
    let k = (rows.len() + 1) as nat;
    assert(1 <= k <= n.len() && spec_row_at_slot(n, k) is Some && spec_row_at_slot(n, k).unwrap().id
        == id);
}

/// Removing a product from a table from which no row was removed takes out
/// exactly its row: the first row that shows the number.
pub proof fn law_remove_takes_its_row(rows: Seq<SpecRow>, id: Seq<char>, k: int)
    requires
        gap_free(rows),
        0 <= k < rows.len(),
        rows[k].id == id,
        forall|i: int| 0 <= i < k ==> (#[trigger] rows[i]).id != id,
        id.len() > 0,
    ensures
        spec_remove_row(rows, id, rows.len()) == Some(rows.remove(k)),
{
    lemma_search_gap_free(rows, id, 0, rows.len(), k);
}

/// On a table without gaps the search finds the first row that shows the number.
proof fn lemma_search_gap_free(rows: Seq<SpecRow>, id: Seq<char>, i: nat, n: nat, k: int)
    requires
        gap_free(rows),
        n == rows.len(),
        0 <= k < rows.len(),
        i <= k + 1,
        rows[k].id == id,
        forall|j: int| 0 <= j < k ==> (#[trigger] rows[j]).id != id,
        id.len() > 0,
    ensures
        spec_search_slot_from(rows, id, i, n) == Some((k + 1) as nat),
    decreases k + 1 - i,
{
    if i == 0 {
        assert(spec_row_at_slot(rows, 0) is None) by {
            lemma_no_slot_zero(rows);
        }
        assert(spec_slot_id(rows, 0) != id) by {
            assert(spec_slot_id(rows, 0) =~= Seq::<char>::empty());
        }
        lemma_search_gap_free(rows, id, 1, n, k);
    } else {
        lemma_row_at_slot_gap_free(rows, i);
        if i < k + 1 {
            assert(rows[i - 1].id != id);
            lemma_search_gap_free(rows, id, i + 1, n, k);
        }
    }
}

/// No row of a table without gaps has slot 0.
proof fn lemma_no_slot_zero(rows: Seq<SpecRow>)
    requires
        forall|i: int| 0 <= i < rows.len() ==> (#[trigger] rows[i]).slot >= 1,
    ensures
        spec_row_at_slot(rows, 0) is None,
    decreases rows.len(),
{
    if rows.len() > 0 {
        let rest = rows.drop_first();
        assert forall|i: int| 0 <= i < rest.len() implies (#[trigger] rest[i]).slot >= 1 by {
            assert(rest[i] == rows[i + 1]);
        }
        lemma_no_slot_zero(rest);
    }
}

/// Whether `s` reads as an `i32` from `lo` to `hi`.
pub open spec fn reads_between(s: Seq<char>, lo: int, hi: int) -> bool {
    spec_parse_i32(s) is Some && lo <= spec_parse_i32(s).unwrap() <= hi
}

/// A date is valid exactly when the month reads as a number from 1 to 12,
/// the day as one from 1 to 31 and the year as one of at least 0; the month
/// is refused exactly when it does not read as a number from 1 to 12.
pub proof fn law_date_check_ranges(month: Seq<char>, day: Seq<char>, year: Seq<char>)
    ensures
        (spec_check_date(month, day, year) == DateCheck::InvalidMonth) == !reads_between(month, 1, 12),
        (spec_check_date(month, day, year) == DateCheck::Valid) == (reads_between(month, 1, 12)
            && reads_between(day, 1, 31) && reads_between(year, 0, 2147483647)),
{
}

/// The decimal text of a number up to `i32::MAX` reads back as that number.
pub proof fn lemma_parse_i32_decimal(n: nat)
    requires
        n <= 2147483647,
    ensures
        spec_parse_i32(decimal(n)) == Some(n as int),
{
    lemma_decimal_digits(n);
    lemma_parse_decimal(n, 2147483647);
    assert(is_digit(decimal(n)[0]));
}

/// Every calendar-like date written as decimal numbers passes the check: a
/// month from 1 to 12, a day from 1 to 31 and a year from 0 up.
pub proof fn law_numeric_dates_valid(m: nat, d: nat, y: nat)
    requires
        1 <= m <= 12,
        1 <= d <= 31,
        y <= 2147483647,
    ensures
        spec_check_date(decimal(m), decimal(d), decimal(y)) == DateCheck::Valid,
{
    lemma_parse_i32_decimal(m);
    lemma_parse_i32_decimal(d);
    lemma_parse_i32_decimal(y);
}

/// Looking a product up: when its number reads as a number and the typed
/// name is not the product's, the product's own name and price are shown,
/// whatever the typed name was; "not found" comes only when no record
/// carries the number; the search moves on to the quantity only when the
/// typed name is the product's.
pub proof fn law_search_item_shows_record(inv: Seq<u8>, id: Seq<char>, name: Seq<char>)
    ensures
        spec_item_details(inv, id) matches Ok((pid, nm, price)) ==> (spec_parse_unsigned(
            id,
            usize::MAX as nat,
        ) is Some && spec_id_corresponds_name(inv, id, name) == Ok::<bool, LookupError>(false)
            ==> spec_search_item(inv, id, name) == Ok::<_, LookupError>(
            Some(Some(Some((nm, price)))),
        )),
        spec_search_item(inv, id, name) == Ok::<_, LookupError>(
            Some(Some(None::<(Seq<char>, u64)>)),
        ) ==> spec_item_details(inv, id) == Err::<(u32, Seq<char>, u64), _>(LookupError::NotFound),
        spec_search_item(inv, id, name) == Ok::<_, LookupError>(
            Some(None::<Option<(Seq<char>, u64)>>),
        ) ==> spec_id_corresponds_name(inv, id, name) == Ok::<bool, LookupError>(true),
{
}

/// Entering a product that is not in the table with a quantity that reads as
/// a positive number adds a row one slot past the last with that quantity;
/// the quantity is refused only when it does not read as a positive number;
/// a product already in the table is refused as punched.
pub proof fn law_enter_item_quantity(rows: Seq<SpecRow>, id: Seq<char>, qty: Seq<char>)
    ensures
        spec_parse_unsigned(qty, usize::MAX as nat) matches Some(q) ==> q > 0 ==> !spec_in_table(rows, id)
            ==> spec_enter_item(rows, id, qty) == (EnterDecision::Add {
            slot: (spec_last_slot(rows) + 1) as usize,
            quantity: q as usize,
        }),
        spec_enter_item(rows, id, qty) == EnterDecision::InvalidQuantity ==> !(spec_parse_unsigned(
            qty,
            usize::MAX as nat,
        ) matches Some(q) && q > 0),
        spec_in_table(rows, id) ==> spec_enter_item(rows, id, qty) == EnterDecision::AlreadyPunched,
{
}

/// Entering a product that is not in the table with the decimal text of any
/// positive quantity adds it with exactly that quantity.
pub proof fn law_enter_decimal_quantity(rows: Seq<SpecRow>, id: Seq<char>, q: usize)
    requires
        q > 0,
        !spec_in_table(rows, id),
    ensures
        spec_enter_item(rows, id, decimal(q as nat)) == (EnterDecision::Add {
            slot: (spec_last_slot(rows) + 1) as usize,
            quantity: q,
        }),
{
    lemma_parse_decimal(q as nat, usize::MAX as nat);
}

} // verus!
