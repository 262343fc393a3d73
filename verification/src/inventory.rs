//! The inventory file: an 8-byte header (the last product number handed out,
//! then the number of records) followed by one record per product (its
//! number, the length of its name, the name's UTF-8 bytes, and the 8 bytes of
//! its price). Every integer is stored least significant byte first (see `codec`).
use crate::codec::{
    lemma_read_in_context, lemma_u32_bytes_of_read, lemma_u32_roundtrip, lemma_u64_bytes_of_read,
    le_u32, lemma_u64_roundtrip, push_bytes, push_range, push_u32, push_u64, read_u32, read_u64, spec_read_u32,
    spec_read_u64, spec_u32_bytes, spec_u64_bytes,
};
use crate::text::{decimal, to_decimal, chars_equal};
use crate::unicode::{decode_utf8, utf8_decode, chars_of};
use vstd::prelude::*;

verus! {

/// The header of the inventory file.
#[derive(Clone, Copy, Debug, PartialEq, Eq, Structural)]
pub struct InventoryHeader {
    /// The highest product number handed out so far.
    pub last_number: u32,
    /// The number of records that follow the header.
    pub number_items: u32,
}

/// One record of the inventory file, as stored.
#[derive(Clone, Debug, PartialEq, Eq)]
pub struct InventoryItem {
    pub id: u32,
    /// The UTF-8 bytes of the product's name.
    pub name: Vec<u8>,
    /// The bits of the product's price (an `f64`).
    pub price_bits: u64,
}

/// A record as a mathematical value.
pub struct SpecItem {
    pub id: u32,
    pub name: Seq<u8>,
    pub price_bits: u64,
}

impl View for InventoryItem {
    type V = SpecItem;

    open spec fn view(&self) -> SpecItem {
        SpecItem { id: self.id, name: self.name@, price_bits: self.price_bits }
    }
}

/// A record whose name has been decoded, as the screens show it.
#[derive(Clone, Debug, PartialEq, Eq)]
pub struct InventoryEntry {
    pub id: u32,
    pub name: Vec<char>,
    pub price_bits: u64,
}

impl View for InventoryEntry {
    type V = (u32, Seq<char>, u64);

    open spec fn view(&self) -> (u32, Seq<char>, u64) {
        (self.id, self.name@, self.price_bits)
    }
}

/// Why a product's record could not be had.
#[derive(Clone, Copy, Debug, PartialEq, Eq, Structural)]
pub enum LookupError {
    /// No record carries the product number.
    NotFound,
    /// The file is cut short, or a name is not UTF-8.
    Corrupt,
}

/// The header fields, when the file is long enough to hold them.
pub open spec fn spec_header(data: Seq<u8>) -> Option<(u32, u32)> {
    if data.len() >= 8 {
        Some((spec_read_u32(data, 0), spec_read_u32(data, 4)))
    } else {
        None
    }
}

/// The bytes of a header.
pub open spec fn spec_header_bytes(last_number: u32, number_items: u32) -> Seq<u8> {
    spec_u32_bytes(last_number) + spec_u32_bytes(number_items)
}

/// The bytes of a record. The length field holds the name's length cut to 32
/// bits, as a cast to `u32` does.
pub open spec fn spec_item_bytes(it: SpecItem) -> Seq<u8> {
    spec_u32_bytes(it.id) + spec_u32_bytes(it.name.len() as u32) + it.name + spec_u64_bytes(
        it.price_bits,
    )
}

/// The record that starts at `pos`, and where the next one starts.
#[verifier::opaque]
pub open spec fn spec_parse_item(data: Seq<u8>, pos: int) -> Option<(SpecItem, int)> {
    if 0 <= pos && pos + 8 <= data.len() {
        let n = spec_read_u32(data, pos + 4) as int;
        if pos + 16 + n <= data.len() {
            Some(
                (
                    SpecItem {
                        id: spec_read_u32(data, pos),
                        name: data.subrange(pos + 8, pos + 8 + n),
                        price_bits: spec_read_u64(data, pos + 8 + n),
                    },
                    pos + 16 + n,
                ),
            )
        } else {
            None
        }
    } else {
        None
    }
}

/// The `count` records that start at `pos`, and where they end.
#[verifier::opaque]
pub open spec fn spec_parse_items(data: Seq<u8>, pos: int, count: nat) -> Option<
    (Seq<SpecItem>, int),
>
    decreases count,
{
    if count == 0 {
        Some((Seq::empty(), pos))
    } else {
        match spec_parse_item(data, pos) {
            None => None,
            Some((it, next)) => match spec_parse_items(data, next, (count - 1) as nat) {
                None => None,
                Some((rest, end)) => Some((seq![it] + rest, end)),
            },
        }
    }
}

/// The bytes of a run of records.
#[verifier::opaque]
pub open spec fn spec_items_bytes(items: Seq<SpecItem>) -> Seq<u8>
    decreases items.len(),
{
    if items.len() == 0 {
        Seq::empty()
    } else {
        spec_item_bytes(items[0]) + spec_items_bytes(items.drop_first())
    }
}

/// Whether every name fits the 32-bit length field.
pub open spec fn names_fit(items: Seq<SpecItem>) -> bool {
    forall|i: int| 0 <= i < items.len() ==> (#[trigger] items[i]).name.len() <= u32::MAX
}

/// The whole inventory: the last product number and the records, when the
/// header and every record it counts can be read.
pub open spec fn spec_inventory(data: Seq<u8>) -> Option<(u32, Seq<SpecItem>)> {
    match spec_header(data) {
        None => None,
        Some((last, count)) => match spec_parse_items(data, 8, count as nat) {
            None => None,
            Some((items, end)) => Some((last, items)),
        },
    }
}

/// Whether the file is exactly a header and the records it counts.
pub open spec fn is_exact_inventory(data: Seq<u8>) -> bool {
    match spec_header(data) {
        None => false,
        Some((last, count)) => match spec_parse_items(data, 8, count as nat) {
            None => false,
            Some((items, end)) => end == data.len(),
        },
    }
}

/// A record reads back from its bytes, whatever surrounds them.
pub proof fn lemma_parse_item_bytes(pre: Seq<u8>, it: SpecItem, post: Seq<u8>)
    requires
        it.name.len() <= u32::MAX,
    ensures
        spec_parse_item(pre + spec_item_bytes(it) + post, pre.len() as int) == Some(
            (it, (pre.len() + spec_item_bytes(it).len()) as int),
        ),
        spec_item_bytes(it).len() == 16 + it.name.len(),
{
    reveal(spec_parse_item);
    let n = it.name.len();
    let ib = spec_item_bytes(it);
    let data = pre + ib + post;
    let p = pre.len() as int;
    lemma_u32_roundtrip(it.id);
    lemma_u32_roundtrip(n as u32);
    lemma_u64_roundtrip(it.price_bits);
    assert(ib.len() == 16 + n);
    let head = spec_u32_bytes(it.id) + spec_u32_bytes(n as u32);
    assert(head.len() == 8);
    assert(head.subrange(0, 4) =~= spec_u32_bytes(it.id));
    assert(head.subrange(4, 8) =~= spec_u32_bytes(n as u32));
    assert(spec_read_u32(head, 0) == it.id);
    assert(spec_read_u32(head, 4) == n as u32);
    lemma_read_in_context(pre, head, it.name + spec_u64_bytes(it.price_bits) + post);
    assert(data =~= pre + head + (it.name + spec_u64_bytes(it.price_bits) + post));
    assert(spec_read_u32(data, p) == it.id);
    assert(spec_read_u32(data, p + 4) == n as u32);
    let pb = spec_u64_bytes(it.price_bits);
    lemma_read_in_context(pre + head + it.name, pb, post);
    assert(data =~= (pre + head + it.name) + pb + post);
    assert(spec_read_u64(data, p + 8 + n) == it.price_bits);
    assert(data.subrange(p + 8, p + 8 + n) =~= it.name);
}

/// Runs of records read back from their bytes.
pub proof fn lemma_parse_items_bytes(pre: Seq<u8>, items: Seq<SpecItem>, post: Seq<u8>)
    requires
        names_fit(items),
    ensures
        spec_parse_items(pre + spec_items_bytes(items) + post, pre.len() as int, items.len())
            == Some((items, (pre.len() + spec_items_bytes(items).len()) as int)),
    decreases items.len(),
{
    reveal(spec_parse_items);
    reveal(spec_items_bytes);
    if items.len() == 0 {
        assert(pre + spec_items_bytes(items) + post =~= pre + post);
    } else {
        let it = items[0];
        let rest = items.drop_first();
        let tail = spec_items_bytes(rest);
        let ib = spec_item_bytes(it);
        assert(names_fit(rest)) by {
            assert forall|i: int| 0 <= i < rest.len() implies (#[trigger] rest[i]).name.len()
                <= u32::MAX by {
                assert(rest[i] == items[i + 1]);
            }
        }
        assert(spec_items_bytes(items) == ib + tail);
        let data = pre + spec_items_bytes(items) + post;
        let pre2 = pre + ib;
        assert(data =~= pre + ib + (tail + post));
        lemma_parse_item_bytes(pre, it, tail + post);
        let p2 = (pre.len() + ib.len()) as int;
        assert(spec_parse_item(data, pre.len() as int) == Some((it, p2)));
        assert(data =~= pre2 + tail + post);
        lemma_parse_items_bytes(pre2, rest, post);
        assert(spec_parse_items(data, p2, rest.len()) == Some(
            (rest, (pre2.len() + tail.len()) as int),
        ));
        assert(seq![it] + rest =~= items);
    }
}

/// The bytes of a record that reads at `pos` are the record's encoding.
pub proof fn lemma_item_bytes_of_parse(data: Seq<u8>, pos: int)
    requires
        spec_parse_item(data, pos) is Some,
    ensures
        ({
            let (it, next) = spec_parse_item(data, pos).unwrap();
            &&& it.name.len() <= u32::MAX
            &&& next == pos + 16 + it.name.len()
            &&& 0 <= pos
            &&& pos + 8 <= data.len()
            &&& next <= data.len()
            &&& it.id == spec_read_u32(data, pos)
            &&& it.name.len() == spec_read_u32(data, pos + 4)
            &&& data.subrange(pos, next) == spec_item_bytes(it)
        }),
{
    reveal(spec_parse_item);
    let (it, next) = spec_parse_item(data, pos).unwrap();
    let n = spec_read_u32(data, pos + 4) as int;
    lemma_u32_bytes_of_read(data, pos);
    lemma_u32_bytes_of_read(data, pos + 4);
    lemma_u64_bytes_of_read(data, pos + 8 + n);
    assert(it.name.len() == n);
    assert(data.subrange(pos, next) =~= data.subrange(pos, pos + 4) + data.subrange(pos + 4, pos
        + 8) + data.subrange(pos + 8, pos + 8 + n) + data.subrange(pos + 8 + n, pos + 16 + n));
}

/// The bytes of a run of records that reads at `pos` are the run's encoding.
pub proof fn lemma_items_bytes_of_parse(data: Seq<u8>, pos: int, count: nat)
    requires
        0 <= pos <= data.len(),
        spec_parse_items(data, pos, count) is Some,
    ensures
        ({
            let (items, end) = spec_parse_items(data, pos, count).unwrap();
            &&& items.len() == count
            &&& names_fit(items)
            &&& pos <= end <= data.len()
            &&& data.subrange(pos, end) == spec_items_bytes(items)
        }),
    decreases count,
{
    reveal(spec_parse_items);
    reveal(spec_items_bytes);
    let (items, end) = spec_parse_items(data, pos, count).unwrap();
    if count == 0 {
        assert(data.subrange(pos, end) =~= Seq::<u8>::empty());
    } else {
        let (it, next) = spec_parse_item(data, pos).unwrap();
        lemma_item_bytes_of_parse(data, pos);
        lemma_items_bytes_of_parse(data, next, (count - 1) as nat);
        let (rest, end2) = spec_parse_items(data, next, (count - 1) as nat).unwrap();
        assert(items == seq![it] + rest);
        assert(items.drop_first() =~= rest);
        assert(items[0] == it);
        assert(data.subrange(pos, end) =~= data.subrange(pos, next) + data.subrange(next, end));
        assert forall|i: int| 0 <= i < items.len() implies (#[trigger] items[i]).name.len()
            <= u32::MAX by {
            if i > 0 {
                assert(items[i] == rest[i - 1]);
            }
        }
    }
}

/// Where the search for a product number stops: just after the number field
/// of the first of `count` records from `pos` whose number reads as `id`.
/// A record is stepped over by its length field alone, as the file is walked.
pub open spec fn spec_search_from(data: Seq<u8>, pos: int, count: nat, id: Seq<char>) -> Option<
    int,
>
    decreases count,
{
    if count == 0 || pos < 0 || pos + 4 > data.len() {
        None
    } else if decimal(spec_read_u32(data, pos) as nat) == id {
        Some(pos + 4)
    } else if pos + 8 > data.len() {
        None
    } else {
        spec_search_from(
            data,
            pos + 16 + spec_read_u32(data, pos + 4) as int,
            (count - 1) as nat,
            id,
        )
    }
}

/// The position just after the number field of the first record whose number
/// reads as `id`, among the records that the header counts.
pub open spec fn spec_search_id(data: Seq<u8>, id: Seq<char>) -> Option<int> {
    match spec_header(data) {
        None => None,
        Some((last, count)) => spec_search_from(data, 8, count as nat, id),
    }
}

/// The index of the first record whose number reads as `id`.
pub open spec fn spec_first_match(items: Seq<SpecItem>, id: Seq<char>) -> Option<nat>
    decreases items.len(),
{
    if items.len() == 0 {
        None
    } else if decimal(items[0].id as nat) == id {
        Some(0)
    } else {
        match spec_first_match(items.drop_first(), id) {
            None => None,
            Some(k) => Some(k + 1),
        }
    }
}

/// Where record `k` of a run starts, counted from the start of the run.
pub open spec fn spec_item_offset(items: Seq<SpecItem>, k: int) -> int {
    spec_items_bytes(items.subrange(0, k)).len() as int
}

/// The first match lies inside the run and carries the number searched for.
pub proof fn lemma_first_match_found(items: Seq<SpecItem>, id: Seq<char>)
    ensures
        match spec_first_match(items, id) {
            None => forall|i: int| 0 <= i < items.len() ==> decimal(#[trigger] items[i].id as nat) != id,
            Some(k) => k < items.len() && decimal(items[k as int].id as nat) == id && forall|i: int|
                0 <= i < k ==> decimal(#[trigger] items[i].id as nat) != id,
        },
    decreases items.len(),
{
    if items.len() > 0 {
        let rest = items.drop_first();
        lemma_first_match_found(rest, id);
        assert forall|i: int| 0 < i < items.len() implies items[i] == rest[i - 1] by {}
    }
}

/// The offset of record `k + 1` is the size of the first record plus the
/// offset of record `k` in the rest of the run.
pub proof fn lemma_offset_step(items: Seq<SpecItem>, k: int)
    requires
        0 <= k < items.len(),
    ensures
        spec_item_offset(items, k + 1) == spec_item_bytes(items[0]).len() + spec_item_offset(
            items.drop_first(),
            k,
        ),
        spec_item_offset(items, 0) == 0,
{
    reveal(spec_items_bytes);
    let t = items.subrange(0, k + 1);
    assert(t[0] == items[0]);
    assert(t.drop_first() =~= items.drop_first().subrange(0, k));
    assert(spec_items_bytes(t) == spec_item_bytes(t[0]) + spec_items_bytes(t.drop_first()));
    assert(items.subrange(0, 0) =~= Seq::<SpecItem>::empty());
}

/// Walking the file finds the same record as looking through the records read.
#[verifier::spinoff_prover]
pub proof fn lemma_search_matches_items(data: Seq<u8>, pos: int, count: nat, id: Seq<char>)
    requires
        0 <= pos <= data.len(),
        spec_parse_items(data, pos, count) is Some,
    ensures
        ({
            let (items, end) = spec_parse_items(data, pos, count).unwrap();
            spec_search_from(data, pos, count, id) == match spec_first_match(items, id) {
                None => None,
                Some(k) => Some(pos + spec_item_offset(items, k as int) + 4),
            }
        }),
    decreases count,
{
    reveal(spec_parse_items);
    let (items, end) = spec_parse_items(data, pos, count).unwrap();
    if count > 0 {
        let (it, next) = spec_parse_item(data, pos).unwrap();
        lemma_item_bytes_of_parse(data, pos);
        let (rest, end2) = spec_parse_items(data, next, (count - 1) as nat).unwrap();
        assert(items == seq![it] + rest);
        assert(items[0] == it);
        assert(items.drop_first() =~= rest);
        assert(next == pos + 16 + spec_read_u32(data, pos + 4) as int);
        assert(spec_item_bytes(it).len() == next - pos) by {
            assert(data.subrange(pos, next).len() == next - pos);
        }
        if decimal(it.id as nat) == id {
            assert(spec_first_match(items, id) == Some(0nat));
            lemma_offset_step(items, 0);
        } else {
            lemma_search_matches_items(data, next, (count - 1) as nat, id);
            assert(spec_search_from(data, pos, count, id) == spec_search_from(
                data,
                next,
                (count - 1) as nat,
                id,
            ));
            match spec_first_match(rest, id) {
                None => {},
                Some(k) => {
                    lemma_first_match_found(rest, id);
                    lemma_offset_step(items, k as int);
                },
            }
        }
    }
}

/// The encoding of two runs one after the other.
pub proof fn lemma_items_bytes_concat(a: Seq<SpecItem>, b: Seq<SpecItem>)
    ensures
        spec_items_bytes(a + b) == spec_items_bytes(a) + spec_items_bytes(b),
    decreases a.len(),
{
    reveal(spec_items_bytes);
    if a.len() == 0 {
        assert(a + b =~= b);
        assert(spec_items_bytes(a) + spec_items_bytes(b) =~= spec_items_bytes(b));
    } else {
        lemma_items_bytes_concat(a.drop_first(), b);
        assert((a + b).drop_first() =~= a.drop_first() + b);
        assert((a + b)[0] == a[0]);
        assert(spec_items_bytes(a + b) =~= spec_item_bytes(a[0]) + (spec_items_bytes(
            a.drop_first(),
        ) + spec_items_bytes(b)));
    }
}

/// The records from `pos` rewritten without the one that starts at `skip`,
/// as the deletion copies them.
#[verifier::opaque]
pub open spec fn spec_rebuild(data: Seq<u8>, pos: int, count: nat, skip: int) -> Option<Seq<u8>>
    decreases count,
{
    if count == 0 {
        Some(Seq::empty())
    } else {
        match spec_parse_item(data, pos) {
            None => None,
            Some((it, next)) => match spec_rebuild(data, next, (count - 1) as nat, skip) {
                None => None,
                Some(rest) => Some(
                    if pos == skip {
                        rest
                    } else {
                        data.subrange(pos, next) + rest
                    },
                ),
            },
        }
    }
}

/// The file after deleting the product `id`: the header as it was, then every
/// record the header counts but the first whose number reads as `id`; the
/// file keeps its length, so whatever the shorter contents do not cover stays
/// as it was. The header's count is not changed.
pub open spec fn spec_delete(data: Seq<u8>, id: Seq<char>) -> Option<Seq<u8>> {
    match spec_header(data) {
        None => None,
        Some((last, count)) => {
            let skip = match spec_search_from(data, 8, count as nat, id) {
                Some(p) => p - 4,
                None => -1,
            };
            match spec_rebuild(data, 8, count as nat, skip) {
                None => None,
                Some(body) => {
                    let rebuilt = data.subrange(0, 8) + body;
                    Some(
                        if rebuilt.len() <= data.len() {
                            rebuilt + data.subrange(rebuilt.len() as int, data.len() as int)
                        } else {
                            rebuilt
                        },
                    )
                },
            }
        },
    }
}

/// Copying records with a skip position before them copies them all.
pub proof fn lemma_rebuild_keep(data: Seq<u8>, pos: int, count: nat, skip: int)
    requires
        0 <= pos <= data.len(),
        skip < pos,
        spec_parse_items(data, pos, count) is Some,
    ensures
        spec_rebuild(data, pos, count, skip) == Some(
            spec_items_bytes(spec_parse_items(data, pos, count).unwrap().0),
        ),
    decreases count,
{
    reveal(spec_parse_items);
    reveal(spec_items_bytes);
    if count == 0 {
        reveal(spec_rebuild);
    } else {
        lemma_parse_items_step(data, pos, count);
        let it = spec_parse_item(data, pos).unwrap().0;
        let next = spec_parse_item(data, pos).unwrap().1;
        lemma_item_bytes_of_parse(data, pos);
        lemma_rebuild_keep(data, next, (count - 1) as nat, skip);
        lemma_rebuild_step(data, pos, count, skip);
        let rest = spec_parse_items(data, next, (count - 1) as nat).unwrap().0;
        lemma_items_bytes_cons(it, rest);
    }
}

/// The encoding of a record put in front of a run.
pub proof fn lemma_items_bytes_cons(it: SpecItem, rest: Seq<SpecItem>)
    ensures
        spec_items_bytes(seq![it] + rest) == spec_item_bytes(it) + spec_items_bytes(rest),
{
    reveal(spec_items_bytes);
    let s = seq![it] + rest;
    assert(s[0] == it);
    assert(s.drop_first() =~= rest);
}

/// The first step of a run that reads: its first record and the rest.
pub proof fn lemma_parse_items_step(data: Seq<u8>, pos: int, count: nat)
    requires
        count > 0,
        spec_parse_items(data, pos, count) is Some,
    ensures
        ({
            let (items, end) = spec_parse_items(data, pos, count).unwrap();
            let (it, next) = spec_parse_item(data, pos).unwrap();
            &&& spec_parse_item(data, pos) is Some
            &&& spec_parse_items(data, next, (count - 1) as nat) is Some
            &&& items == seq![it] + spec_parse_items(data, next, (count - 1) as nat).unwrap().0
            &&& items[0] == it
            &&& items.drop_first() == spec_parse_items(data, next, (count - 1) as nat).unwrap().0
            &&& end == spec_parse_items(data, next, (count - 1) as nat).unwrap().1
        }),
{
    reveal(spec_parse_items);
    let (items, end) = spec_parse_items(data, pos, count).unwrap();
    let (it, next) = spec_parse_item(data, pos).unwrap();
    let rest = spec_parse_items(data, next, (count - 1) as nat).unwrap().0;
    assert(items.drop_first() =~= rest);
}

/// Removing from a run with a first element.
pub proof fn lemma_remove_cons(it: SpecItem, rest: Seq<SpecItem>, k: int)
    requires
        0 <= k <= rest.len(),
    ensures
        k == 0 ==> (seq![it] + rest).remove(k) == rest,
        k > 0 ==> (seq![it] + rest).remove(k) == seq![it] + rest.remove(k - 1),
{
    if k == 0 {
        assert((seq![it] + rest).remove(k) =~= rest);
    } else {
        assert((seq![it] + rest).remove(k) =~= seq![it] + rest.remove(k - 1));
    }
}

/// One step of copying records: the first record is dropped when it starts at
/// the skip position and copied otherwise.
pub proof fn lemma_rebuild_step(data: Seq<u8>, pos: int, count: nat, skip: int)
    requires
        count > 0,
        spec_parse_item(data, pos) is Some,
    ensures
        ({
            let next = spec_parse_item(data, pos).unwrap().1;
            spec_rebuild(data, pos, count, skip) == match spec_rebuild(
                data,
                next,
                (count - 1) as nat,
                skip,
            ) {
                None => None,
                Some(rest) => Some(
                    if pos == skip {
                        rest
                    } else {
                        data.subrange(pos, next) + rest
                    },
                ),
            }
        }),
{
    reveal(spec_rebuild);
}

/// Copying records with a skip position at record `k` copies all but record `k`.
#[verifier::spinoff_prover]
pub proof fn lemma_rebuild_skip(data: Seq<u8>, pos: int, count: nat, k: int)
    requires
        0 <= pos <= data.len(),
        spec_parse_items(data, pos, count) is Some,
        0 <= k < count,
    ensures
        spec_rebuild(
            data,
            pos,
            count,
            pos + spec_item_offset(spec_parse_items(data, pos, count).unwrap().0, k),
        ) == Some(spec_items_bytes(spec_parse_items(data, pos, count).unwrap().0.remove(k))),
    decreases count,
{
    let items = spec_parse_items(data, pos, count).unwrap().0;
    lemma_parse_items_step(data, pos, count);
    let it = spec_parse_item(data, pos).unwrap().0;
    let next = spec_parse_item(data, pos).unwrap().1;
    lemma_item_bytes_of_parse(data, pos);
    let rest = spec_parse_items(data, next, (count - 1) as nat).unwrap().0;
    lemma_items_bytes_of_parse(data, pos, count);
    lemma_items_bytes_of_parse(data, next, (count - 1) as nat);
    let skip = pos + spec_item_offset(items, k);
    lemma_remove_cons(it, rest, k);
    lemma_rebuild_step(data, pos, count, skip);
    if k == 0 {
        lemma_offset_step(items, 0);
        lemma_rebuild_keep(data, next, (count - 1) as nat, skip);
    } else {
        lemma_offset_step(items, k - 1);
        assert(skip == next + spec_item_offset(rest, k - 1));
        lemma_rebuild_skip(data, next, (count - 1) as nat, k - 1);
        lemma_items_bytes_cons(it, rest.remove(k - 1));
    }
}

/// `r` is `data` with record `k` of `items` taken out of the run after the
/// header: same length, same header, the other records in their order.
pub open spec fn record_removed(data: Seq<u8>, r: Seq<u8>, items: Seq<SpecItem>, k: int) -> bool {
    &&& r.len() == data.len()
    &&& r.subrange(0, 8) == data.subrange(0, 8)
    &&& spec_parse_items(r, 8, (items.len() - 1) as nat) is Some
    &&& spec_parse_items(r, 8, (items.len() - 1) as nat).unwrap().0 == items.remove(k)
}

/// Deleting a product removes exactly its record: when no record carries the
/// number the file is unchanged; otherwise the header stays, the file keeps
/// its length, and the records that follow the header are the old ones in
/// their order without the first record that carries the number.
#[verifier::spinoff_prover]
pub proof fn law_delete_removes_record(data: Seq<u8>, id: Seq<char>)
    requires
        spec_inventory(data) is Some,
    ensures
        ({
            let items = spec_inventory(data).unwrap().1;
            match spec_first_match(items, id) {
                None => spec_delete(data, id) == Some(data),
                Some(k) => spec_delete(data, id) is Some && record_removed(
                    data,
                    spec_delete(data, id).unwrap(),
                    items,
                    k as int,
                ),
            }
        }),
{
    reveal(spec_items_bytes);
    let (last, count) = spec_header(data).unwrap();
    let (items, end) = spec_parse_items(data, 8, count as nat).unwrap();
    lemma_items_bytes_of_parse(data, 8, count as nat);
    lemma_search_matches_items(data, 8, count as nat, id);
    lemma_first_match_found(items, id);
    match spec_first_match(items, id) {
        None => {
            lemma_rebuild_keep(data, 8, count as nat, -1);
            let rebuilt = data.subrange(0, 8) + spec_items_bytes(items);
            assert(rebuilt =~= data.subrange(0, end));
            assert(rebuilt + data.subrange(end, data.len() as int) =~= data);
        },
        Some(k) => {
            lemma_rebuild_skip(data, 8, count as nat, k as int);
            let removed = items.remove(k as int);
            let head = items.subrange(0, k as int);
            let tail = items.subrange(k + 1int, items.len() as int);
            assert(items =~= head + (seq![items[k as int]] + tail));
            assert(removed =~= head + tail);
            lemma_items_bytes_concat(head, seq![items[k as int]] + tail);
            lemma_items_bytes_concat(seq![items[k as int]], tail);
            lemma_items_bytes_concat(head, tail);
            assert(spec_items_bytes(seq![items[k as int]]) =~= spec_item_bytes(items[k as int])
                + spec_items_bytes(seq![items[k as int]].drop_first()));
            assert(seq![items[k as int]].drop_first() =~= Seq::<SpecItem>::empty());
            let body = spec_items_bytes(removed);
            let rebuilt = data.subrange(0, 8) + body;
            assert(rebuilt.len() <= data.len());
            let r = rebuilt + data.subrange(rebuilt.len() as int, data.len() as int);
            assert(r.subrange(0, 8) =~= data.subrange(0, 8));
            assert(names_fit(removed)) by {
                assert forall|i: int| 0 <= i < removed.len() implies (
                #[trigger] removed[i]).name.len() <= u32::MAX by {
                    if i < k {
                        assert(removed[i] == items[i]);
                    } else {
                        assert(removed[i] == items[i + 1]);
                    }
                }
            }
            lemma_parse_items_bytes(
                data.subrange(0, 8),
                removed,
                data.subrange(rebuilt.len() as int, data.len() as int),
            );
            assert(removed.len() == items.len() - 1);
        },
    }
}

/// What the product lookup gives: the record of the first product whose
/// number reads as `id`, its name decoded.
pub open spec fn spec_item_details(data: Seq<u8>, id: Seq<char>) -> Result<
    (u32, Seq<char>, u64),
    LookupError,
> {
    match spec_search_id(data, id) {
        None => Err(LookupError::NotFound),
        Some(p) => match spec_parse_item(data, p - 4) {
            None => Err(LookupError::Corrupt),
            Some((it, next)) => match utf8_decode(it.name) {
                None => Err(LookupError::Corrupt),
                Some(name) => Ok((it.id, name, it.price_bits)),
            },
        },
    }
}

/// The number and name bytes of the record at `pos`, when they are there.
pub open spec fn spec_parse_name(data: Seq<u8>, pos: int) -> Option<(u32, Seq<u8>)> {
    if 0 <= pos && pos + 8 <= data.len() && pos + 8 + spec_read_u32(data, pos + 4) <= data.len() {
        Some(
            (
                spec_read_u32(data, pos),
                data.subrange(pos + 8, pos + 8 + spec_read_u32(data, pos + 4) as int),
            ),
        )
    } else {
        None
    }
}

/// Whether the product number `id` is on file under the name `name`.
pub open spec fn spec_id_corresponds_name(data: Seq<u8>, id: Seq<char>, name: Seq<char>) -> Result<
    bool,
    LookupError,
> {
    if id.len() == 0 || name.len() == 0 {
        Ok(false)
    } else {
        match spec_search_id(data, id) {
            None => Ok(false),
            Some(p) => match spec_parse_name(data, p - 4) {
                None => Ok(false),
                Some((inv_id, bytes)) => match utf8_decode(bytes) {
                    None => Err(LookupError::Corrupt),
                    Some(inv_name) => Ok(decimal(inv_id as nat) == id && name == inv_name),
                },
            },
        }
    }
}

/// The file with the header replaced (the first 8 bytes overwritten).
pub open spec fn spec_write_header(data: Seq<u8>, last_number: u32, number_items: u32) -> Seq<u8> {
    spec_header_bytes(last_number, number_items) + if data.len() >= 8 {
        data.subrange(8, data.len() as int)
    } else {
        Seq::empty()
    }
}

/// The file after adding a product: the next product number is handed out,
/// the header counts one record more, and the record goes at the end. Nothing
/// happens when the header is missing or a count would pass `u32::MAX`.
pub open spec fn spec_add_item(data: Seq<u8>, name: Seq<u8>, price_bits: u64) -> Option<
    (Seq<u8>, u32),
> {
    match spec_header(data) {
        None => None,
        Some((last, count)) => if last == u32::MAX || count == u32::MAX {
            None
        } else {
            let id = (last + 1) as u32;
            Some(
                (
                    spec_write_header(data, id, (count + 1) as u32) + spec_item_bytes(
                        SpecItem { id, name, price_bits },
                    ),
                    id,
                ),
            )
        },
    }
}

/// The bytes that an edit writes after a product's number: the new name's
/// length and bytes, then the new price.
pub open spec fn spec_edit_bytes(name: Seq<u8>, price_bits: u64) -> Seq<u8> {
    spec_u32_bytes(name.len() as u32) + name + spec_u64_bytes(price_bits)
}

/// The file after editing the product `id`: the new name and price are
/// written over the bytes that follow the product's number, whatever their
/// length; the file grows if they pass its end.
pub open spec fn spec_update_item(data: Seq<u8>, id: Seq<char>, name: Seq<u8>, price_bits: u64) -> Option<
    Seq<u8>,
> {
    match spec_search_id(data, id) {
        None => None,
        Some(p) => {
            let b = spec_edit_bytes(name, price_bits);
            Some(
                if p + b.len() <= data.len() {
                    data.subrange(0, p) + b + data.subrange(p + b.len(), data.len() as int)
                } else {
                    data.subrange(0, p) + b
                },
            )
        },
    }
}

/// The records with their names decoded, when every name is UTF-8.
pub open spec fn spec_decode_items(items: Seq<SpecItem>) -> Option<Seq<(u32, Seq<char>, u64)>>
    decreases items.len(),
{
    if items.len() == 0 {
        Some(Seq::empty())
    } else {
        match utf8_decode(items[0].name) {
            None => None,
            Some(name) => match spec_decode_items(items.drop_first()) {
                None => None,
                Some(rest) => Some(seq![(items[0].id, name, items[0].price_bits)] + rest),
            },
        }
    }
}

/// The inventory as the product list shows it.
pub open spec fn spec_listing(data: Seq<u8>) -> Option<Seq<(u32, Seq<char>, u64)>> {
    match spec_inventory(data) {
        None => None,
        Some((last, items)) => spec_decode_items(items),
    }
}

/// The views of a sequence of entries.
pub open spec fn entries_view(v: Seq<InventoryEntry>) -> Seq<(u32, Seq<char>, u64)> {
    v.map_values(|e: InventoryEntry| e@)
}

/// The header fields, when the file is long enough to hold them (what the
/// walks over the records start from).
fn read_header(data: &[u8]) -> (r: Option<InventoryHeader>)
    ensures
        match r {
            Some(h) => spec_header(data@) == Some((h.last_number, h.number_items)),
            None => spec_header(data@) is None,
        },
{
    if data.len() < 8 {
        None
    } else {
        Some(InventoryHeader { last_number: read_u32(data, 0), number_items: read_u32(data, 4) })
    }
}

/// The byte at `i` of the buffer after the first read of the header: the
/// file's byte where the file has one, else the buffer's starting zero.
pub open spec fn first_read_byte(data: Seq<u8>, i: int) -> u8 {
    if i < data.len() {
        data[i]
    } else {
        0u8
    }
}

/// The byte at `i` of the buffer after the second read of the header: the
/// file's byte `4 + i` where the file has one, else what the first read left.
pub open spec fn second_read_byte(data: Seq<u8>, i: int) -> u8 {
    if 4 + i < data.len() {
        data[4 + i]
    } else {
        first_read_byte(data, i)
    }
}

/// The header as two reads of four bytes into one buffer give it: the buffer
/// starts as zeros, and a read that finds fewer than four bytes fills only
/// the start of the buffer and leaves the rest as it was. On a file of at
/// least 8 bytes these are the two stored numbers.
pub open spec fn spec_header_read(data: Seq<u8>) -> (u32, u32) {
    (
        le_u32(
            first_read_byte(data, 0),
            first_read_byte(data, 1),
            first_read_byte(data, 2),
            first_read_byte(data, 3),
        ),
        le_u32(
            second_read_byte(data, 0),
            second_read_byte(data, 1),
            second_read_byte(data, 2),
            second_read_byte(data, 3),
        ),
    )
}

/// Reads the header of the inventory file: the last product number, then
/// the number of records (see `spec_header_read`).
pub fn get_inv_header(data: &[u8]) -> (r: InventoryHeader)
    ensures
        (r.last_number, r.number_items) == spec_header_read(data@),
        data@.len() >= 8 ==> spec_header(data@) == Some((r.last_number, r.number_items)),
{
    let a0 = if data.len() > 0 { data[0] } else { 0 };
    let a1 = if data.len() > 1 { data[1] } else { 0 };
    let a2 = if data.len() > 2 { data[2] } else { 0 };
    let a3 = if data.len() > 3 { data[3] } else { 0 };
    let b0 = if data.len() > 4 { data[4] } else { a0 };
    let b1 = if data.len() > 5 { data[5] } else { a1 };
    let b2 = if data.len() > 6 { data[6] } else { a2 };
    let b3 = if data.len() > 7 { data[7] } else { a3 };
    let last_number = a0 as u32 + 256 * (a1 as u32) + 65536 * (a2 as u32) + 16777216 * (a3 as u32);
    let number_items = b0 as u32 + 256 * (b1 as u32) + 65536 * (b2 as u32) + 16777216 * (b3 as u32);
    InventoryHeader { last_number, number_items }
}

/// The bytes of a header.
pub fn encode_inv_header(h: InventoryHeader) -> (r: Vec<u8>)
    ensures
        r@ == spec_header_bytes(h.last_number, h.number_items),
{
    let mut r: Vec<u8> = Vec::new();
    push_u32(&mut r, h.last_number);
    push_u32(&mut r, h.number_items);
    assert(r@ =~= spec_header_bytes(h.last_number, h.number_items));
    r
}

/// The file with its header replaced.
pub fn write_inv_header(data: &[u8], h: InventoryHeader) -> (r: Vec<u8>)
    ensures
        r@ == spec_write_header(data@, h.last_number, h.number_items),
{
    let mut r = encode_inv_header(h);
    if data.len() >= 8 {
        push_range(&mut r, data, 8, data.len());
    } else {
        assert(r@ =~= r@ + Seq::<u8>::empty());
    }
    r
}

/// The bytes of a record.
pub fn encode_inv_record(id: u32, name: &[u8], price_bits: u64) -> (r: Vec<u8>)
    ensures
        r@ == spec_item_bytes(SpecItem { id, name: name@, price_bits }),
{
    let mut r: Vec<u8> = Vec::new();
    push_u32(&mut r, id);
    push_u32(&mut r, #[verifier::truncate] (name.len() as u32));
    push_bytes(&mut r, name);
    push_u64(&mut r, price_bits);
    assert(r@ =~= spec_item_bytes(SpecItem { id, name: name@, price_bits }));
    r
}

/// Reads the record at `pos`, and where the next one starts.
pub fn read_inv_record(data: &[u8], pos: usize) -> (r: Option<(InventoryItem, usize)>)
    ensures
        match r {
            Some((it, next)) => spec_parse_item(data@, pos as int) == Some((it@, next as int)),
            None => spec_parse_item(data@, pos as int) is None,
        },
{
    reveal(spec_parse_item);
    if pos > data.len() || data.len() - pos < 8 {
        return None;
    }
    let n = read_u32(data, pos + 4) as usize;
    let room = data.len() - pos - 8;
    if n > room || room - n < 8 {
        return None;
    }
    let mut name: Vec<u8> = Vec::new();
    push_range(&mut name, data, pos + 8, pos + 8 + n);
    assert(name@ =~= data@.subrange(pos + 8, pos + 8 + n));
    let item = InventoryItem {
        id: read_u32(data, pos),
        name,
        price_bits: read_u64(data, pos + 8 + n),
    };
    Some((item, pos + 16 + n))
}

/// The search from `pos` over `count` records, as `spec_search_from`.
fn search_from(data: &[u8], start: usize, count: u32, id: &[char]) -> (r: Option<usize>)
    ensures
        match r {
            Some(p) => spec_search_from(data@, start as int, count as nat, id@) == Some(p as int),
            None => spec_search_from(data@, start as int, count as nat, id@) is None,
        },
{
    let ghost pos0 = start as int;
    let mut pos = start;
    let mut i: u32 = 0;
    while i < count
        invariant
            i <= count,
            pos0 == start as int,
            spec_search_from(data@, pos0, count as nat, id@) == spec_search_from(
                data@,
                pos as int,
                (count - i) as nat,
                id@,
            ),
        decreases count - i,
    {
        if pos > data.len() || data.len() - pos < 4 {
            assert(spec_search_from(data@, pos as int, (count - i) as nat, id@) is None);
            return None;
        }
        let number = to_decimal(read_u32(data, pos) as u64);
        if chars_equal(number.as_slice(), id) {
            return Some(pos + 4);
        }
        if data.len() - pos < 8 {
            return None;
        }
        let n = read_u32(data, pos + 4) as usize;
        if data.len() - pos < 16 || n > data.len() - pos - 16 {
            proof {
                if count - i > 1 {
                    assert(spec_search_from(
                        data@,
                        pos + 16 + n,
                        (count - i - 1) as nat,
                        id@,
                    ) is None);
                }
            }
            return None;
        }
        pos = pos + 16 + n;
        i = i + 1;
    }
    None
}

/// Where the record of the product `id` is: just after its number field;
/// `None` when no record carries the number.
pub fn search_id_inv_file(data: &[u8], id: &str) -> (r: Option<usize>)
    ensures
        match r {
            Some(p) => spec_search_id(data@, id@) == Some(p as int),
            None => spec_search_id(data@, id@) is None,
        },
{
    let idc = chars_of(id);
    match read_header(data) {
        None => None,
        Some(h) => search_from(data, 8, h.number_items, idc.as_slice()),
    }
}

/// The inventory file after deleting the product `id` (see `spec_delete`);
/// `None` when the header or a counted record cannot be read.
pub fn delete_id_inv_file(data: &[u8], id: &str) -> (r: Option<Vec<u8>>)
    ensures
        match r {
            Some(v) => spec_delete(data@, id@) == Some(v@),
            None => spec_delete(data@, id@) is None,
        },
{
    let idc = chars_of(id);
    let h = match read_header(data) {
        None => return None,
        Some(h) => h,
    };
    let found = search_from(data, 8, h.number_items, idc.as_slice());
    let ghost skip: int = match found {
        Some(p) => p - 4,
        None => -1,
    };
    let count = h.number_items;
    let mut body: Vec<u8> = Vec::new();
    let mut pos: usize = 8;
    let mut i: u32 = 0;
    while i < count
        invariant
            i <= count,
            skip == match found {
                Some(p) => p - 4,
                None => -1,
            },
            skip == match spec_search_from(data@, 8, count as nat, id@) {
                Some(p) => p - 4,
                None => -1,
            },
            spec_header(data@) == Some((h.last_number, count)),
            spec_rebuild(data@, 8, count as nat, skip) == match spec_rebuild(
                data@,
                pos as int,
                (count - i) as nat,
                skip,
            ) {
                None => None,
                Some(rest) => Some(body@ + rest),
            },
        decreases count - i,
    {
        match read_inv_record(data, pos) {
            None => {
                proof {
                    reveal(spec_rebuild);
                    assert(spec_rebuild(data@, pos as int, (count - i) as nat, skip) is None);
                    assert(spec_rebuild(data@, 8, count as nat, skip) is None);
                }
                return None;
            },
            Some((_item, next)) => {
                proof {
                    lemma_rebuild_step(data@, pos as int, (count - i) as nat, skip);
                    lemma_item_bytes_of_parse(data@, pos as int);
                }
                let at_skip = match found {
                    Some(p) => p >= 4 && pos == p - 4,
                    None => false,
                };
                if !at_skip {
                    let ghost before = body@;
                    push_range(&mut body, data, pos, next);
                    proof {
                        match spec_rebuild(data@, next as int, (count - i - 1) as nat, skip) {
                            None => {},
                            Some(rest) => {
                                assert(before + (data@.subrange(pos as int, next as int) + rest)
                                    =~= body@ + rest);
                            },
                        }
                    }
                }
                pos = next;
                i = i + 1;
            },
        }
    }
    proof {
        reveal(spec_rebuild);
        assert(body@ + Seq::<u8>::empty() =~= body@);
    }
    let mut out: Vec<u8> = Vec::new();
    push_range(&mut out, data, 0, 8);
    push_bytes(&mut out, body.as_slice());
    if out.len() <= data.len() {
        let l = out.len();
        push_range(&mut out, data, l, data.len());
    }
    Some(out)
}

/// The record of the product `id`, its name decoded: `NotFound` when no
/// record carries the number, `Corrupt` when the record is cut short or its
/// name is not UTF-8 (cases in which the record cannot be shown).
pub fn get_inv_item_details(data: &[u8], id: &str) -> (r: Result<InventoryEntry, LookupError>)
    ensures
        match r {
            Ok(e) => spec_item_details(data@, id@) == Ok::<_, LookupError>(e@),
            Err(err) => spec_item_details(data@, id@) == Err::<(u32, Seq<char>, u64), _>(err),
        },
{
    let p = match search_id_inv_file(data, id) {
        None => return Err(LookupError::NotFound),
        Some(p) => p,
    };
    proof {
        if p < 4 {
            let (last, count) = spec_header(data@).unwrap();
            lemma_search_position(data@, 8, count as nat, id@);
        }
    }
    match read_inv_record(data, p - 4) {
        None => Err(LookupError::Corrupt),
        Some((item, _next)) => match decode_utf8(item.name.as_slice()) {
            None => Err(LookupError::Corrupt),
            Some(name) => Ok(InventoryEntry { id: item.id, name, price_bits: item.price_bits }),
        },
    }
}

/// A position that the search returns lies past the number field it follows.
pub proof fn lemma_search_position(data: Seq<u8>, pos: int, count: nat, id: Seq<char>)
    requires
        pos >= 0,
    ensures
        spec_search_from(data, pos, count, id) matches Some(p) ==> pos + 4 <= p <= data.len(),
    decreases count,
{
    if count > 0 && pos + 4 <= data.len() && decimal(spec_read_u32(data, pos) as nat) != id && pos
        + 8 <= data.len() {
        lemma_search_position(
            data,
            pos + 16 + spec_read_u32(data, pos + 4) as int,
            (count - 1) as nat,
            id,
        );
    }
}

/// Whether the product number `id` is on file under the name `name`: false
/// when either text is empty, when no record carries the number, or when the
/// record's name is cut short; `Corrupt` when the stored name is not UTF-8.
pub fn id_corresponds_name(data: &[u8], id: &str, name: &str) -> (r: Result<bool, LookupError>)
    ensures
        r == spec_id_corresponds_name(data@, id@, name@),
{
    let idc = chars_of(id);
    let namec = chars_of(name);
    if idc.len() == 0 || namec.len() == 0 {
        return Ok(false);
    }
    let p = match search_id_inv_file(data, id) {
        None => return Ok(false),
        Some(p) => p,
    };
    proof {
        let (last, count) = spec_header(data@).unwrap();
        lemma_search_position(data@, 8, count as nat, id@);
    }
    let pos = p - 4;
    if data.len() - pos < 8 {
        return Ok(false);
    }
    let n = read_u32(data, pos + 4) as usize;
    if n > data.len() - pos - 8 {
        return Ok(false);
    }
    let mut bytes: Vec<u8> = Vec::new();
    push_range(&mut bytes, data, pos + 8, pos + 8 + n);
    match decode_utf8(bytes.as_slice()) {
        None => Err(LookupError::Corrupt),
        Some(inv_name) => {
            let number = to_decimal(read_u32(data, pos) as u64);
            Ok(chars_equal(number.as_slice(), idc.as_slice()) && chars_equal(
                namec.as_slice(),
                inv_name.as_slice(),
            ))
        },
    }
}

/// The inventory file after adding a product with the given name bytes and
/// price; also the product number handed out (see `spec_add_item`).
pub fn add_inventory_item(data: &[u8], name: &[u8], price_bits: u64) -> (r: Option<(Vec<u8>, u32)>)
    ensures
        match r {
            Some((v, id)) => spec_add_item(data@, name@, price_bits) == Some((v@, id)),
            None => spec_add_item(data@, name@, price_bits) is None,
        },
{
    let h = match read_header(data) {
        None => return None,
        Some(h) => h,
    };
    if h.last_number == u32::MAX || h.number_items == u32::MAX {
        return None;
    }
    let id = h.last_number + 1;
    let mut out = write_inv_header(
        data,
        InventoryHeader { last_number: id, number_items: h.number_items + 1 },
    );
    let record = encode_inv_record(id, name, price_bits);
    push_bytes(&mut out, record.as_slice());
    Some((out, id))
}

/// The inventory file after editing the product `id` (see `spec_update_item`);
/// `None` when no record carries the number.
pub fn update_inventory_record(data: &[u8], id: &str, name: &[u8], price_bits: u64) -> (r: Option<
    Vec<u8>,
>)
    ensures
        match r {
            Some(v) => spec_update_item(data@, id@, name@, price_bits) == Some(v@),
            None => spec_update_item(data@, id@, name@, price_bits) is None,
        },
{
    let p = match search_id_inv_file(data, id) {
        None => return None,
        Some(p) => p,
    };
    proof {
        let (last, count) = spec_header(data@).unwrap();
        lemma_search_position(data@, 8, count as nat, id@);
    }
    let mut b: Vec<u8> = Vec::new();
    push_u32(&mut b, #[verifier::truncate] (name.len() as u32));
    push_bytes(&mut b, name);
    push_u64(&mut b, price_bits);
    assert(b@ =~= spec_edit_bytes(name@, price_bits));
    let mut out: Vec<u8> = Vec::new();
    push_range(&mut out, data, 0, p);
    push_bytes(&mut out, b.as_slice());
    if b.len() <= data.len() - p {
        push_range(&mut out, data, p + b.len(), data.len());
    }
    Some(out)
}

/// Decoding a run with a first record.
pub proof fn lemma_decode_cons(it: SpecItem, rest: Seq<SpecItem>)
    ensures
        spec_decode_items(seq![it] + rest) == match utf8_decode(it.name) {
            None => None,
            Some(name) => match spec_decode_items(rest) {
                None => None,
                Some(d) => Some(seq![(it.id, name, it.price_bits)] + d),
            },
        },
{
    let s = seq![it] + rest;
    assert(s[0] == it);
    assert(s.drop_first() =~= rest);
}

/// The product list: every record the header counts, names decoded; `None`
/// when the file is cut short or a name is not UTF-8.
pub fn inventory_listing(data: &[u8]) -> (r: Option<Vec<InventoryEntry>>)
    ensures
        match r {
            Some(v) => spec_listing(data@) == Some(entries_view(v@)),
            None => spec_listing(data@) is None,
        },
{
    let h = match read_header(data) {
        None => return None,
        Some(h) => h,
    };
    let count = h.number_items;
    let mut out: Vec<InventoryEntry> = Vec::new();
    let mut pos: usize = 8;
    let mut i: u32 = 0;
    assert(entries_view(out@) =~= Seq::empty());
    assert(spec_listing(data@) == match spec_parse_items(data@, 8, count as nat) {
        None => None,
        Some((rest, end)) => match spec_decode_items(rest) {
            None => None,
            Some(dec) => Some(entries_view(out@) + dec),
        },
    }) by {
        match spec_parse_items(data@, 8, count as nat) {
            None => {},
            Some((rest, end)) => match spec_decode_items(rest) {
                None => {},
                Some(dec) => {
                    assert(entries_view(out@) + dec =~= dec);
                },
            },
        }
    }
    while i < count
        invariant
            i <= count,
            spec_listing(data@) == match spec_parse_items(data@, pos as int, (count - i) as nat) {
                None => None,
                Some((rest, end)) => match spec_decode_items(rest) {
                    None => None,
                    Some(dec) => Some(entries_view(out@) + dec),
                },
            },
        decreases count - i,
    {
        proof {
            reveal(spec_parse_items);
        }
        match read_inv_record(data, pos) {
            None => {
                return None;
            },
            Some((item, next)) => {
                let decoded = decode_utf8(item.name.as_slice());
                proof {
                    match spec_parse_items(data@, next as int, (count - i - 1) as nat) {
                        None => {},
                        Some((rest, end)) => {
                            lemma_decode_cons(item@, rest);
                        },
                    }
                }
                match decoded {
                    None => {
                        return None;
                    },
                    Some(name) => {
                        let ghost before = entries_view(out@);
                        let e = InventoryEntry { id: item.id, name, price_bits: item.price_bits };
                        out.push(e);
                        proof {
                            assert(entries_view(out@) =~= before + seq![e@]);
                            match spec_parse_items(data@, next as int, (count - i - 1) as nat) {
                                None => {},
                                Some((rest, end)) => {
                                    match spec_decode_items(rest) {
                                        None => {},
                                        Some(dec) => {
                                            assert(before + (seq![e@] + dec) =~= entries_view(
                                                out@,
                                            ) + dec);
                                        },
                                    }
                                },
                            }
                        }
                        pos = next;
                        i = i + 1;
                    },
                }
            },
        }
    }
    proof {
        reveal(spec_parse_items);
        assert(entries_view(out@) + Seq::empty() =~= entries_view(out@));
    }
    Some(out)
}

/// The first match after appending a record that carries the number.
pub proof fn lemma_first_match_push(items: Seq<SpecItem>, it: SpecItem, id: Seq<char>)
    requires
        spec_first_match(items, id) is None,
        decimal(it.id as nat) == id,
    ensures
        spec_first_match(items.push(it), id) == Some(items.len()),
    decreases items.len(),
{
    if items.len() == 0 {
        assert(items.push(it)[0] == it);
    } else {
        assert(items.push(it)[0] == items[0]);
        assert(items.push(it).drop_first() =~= items.drop_first().push(it));
        lemma_first_match_push(items.drop_first(), it, id);
    }
}

/// The header bytes read back as the header.
pub proof fn lemma_header_roundtrip(last_number: u32, number_items: u32, rest: Seq<u8>)
    ensures
        spec_header(spec_header_bytes(last_number, number_items) + rest) == Some(
            (last_number, number_items),
        ),
{
    let hb = spec_header_bytes(last_number, number_items);
    lemma_u32_roundtrip(last_number);
    lemma_u32_roundtrip(number_items);
    assert(hb.subrange(0, 4) =~= spec_u32_bytes(last_number));
    assert(hb.subrange(4, 8) =~= spec_u32_bytes(number_items));
    assert(spec_read_u32(hb, 0) == spec_read_u32(spec_u32_bytes(last_number), 0));
    assert(spec_read_u32(hb, 4) == spec_read_u32(spec_u32_bytes(number_items), 0));
    lemma_read_in_context(Seq::empty(), hb, rest);
    assert(Seq::<u8>::empty() + hb + rest =~= hb + rest);
}

/// An exact inventory file is its header followed by the bytes of its records.
pub proof fn lemma_exact_inventory_shape(data: Seq<u8>)
    requires
        is_exact_inventory(data),
    ensures
        ({
            let (last, items) = spec_inventory(data).unwrap();
            &&& data == spec_header_bytes(last, items.len() as u32) + spec_items_bytes(items)
            &&& names_fit(items)
            &&& items.len() <= u32::MAX
            &&& spec_header(data) == Some((last, items.len() as u32))
        }),
{
    let (last, count) = spec_header(data).unwrap();
    lemma_items_bytes_of_parse(data, 8, count as nat);
    let (items, end) = spec_parse_items(data, 8, count as nat).unwrap();
    lemma_u32_bytes_of_read(data, 0);
    lemma_u32_bytes_of_read(data, 4);
    assert(data.subrange(0, 8) =~= data.subrange(0, 4) + data.subrange(4, 8));
    assert(data =~= data.subrange(0, 8) + data.subrange(8, end));
}

/// Appending a record whose name fits keeps every name fitting.
pub proof fn lemma_names_fit_push(items: Seq<SpecItem>, it: SpecItem)
    requires
        names_fit(items),
        it.name.len() <= u32::MAX,
    ensures
        names_fit(items.push(it)),
{
    let all = items.push(it);
    assert forall|i: int| 0 <= i < all.len() implies (#[trigger] all[i]).name.len()
        <= u32::MAX by {
        if i < items.len() {
            assert(all[i] == items[i]);
        }
    }
}

/// The encoding of a run with one more record at its end.
pub proof fn lemma_items_bytes_push(items: Seq<SpecItem>, it: SpecItem)
    ensures
        spec_items_bytes(items.push(it)) == spec_items_bytes(items) + spec_item_bytes(it),
{
    lemma_items_bytes_concat(items, seq![it]);
    assert(spec_items_bytes(seq![it]) == spec_item_bytes(it)) by {
        reveal(spec_items_bytes);
        assert(seq![it][0] == it);
        reveal_with_fuel(spec_items_bytes, 2);
        assert(seq![it].drop_first() =~= Seq::<SpecItem>::empty());
        assert(spec_item_bytes(it) + Seq::<u8>::empty() =~= spec_item_bytes(it));
    }
    assert(items + seq![it] =~= items.push(it));
}

/// The bytes of an added product's file: the new header, then the records
/// with the new one at the end.
#[verifier::spinoff_prover]
pub proof fn lemma_add_shape(data: Seq<u8>, name: Seq<u8>, price_bits: u64)
    requires
        is_exact_inventory(data),
        name.len() <= u32::MAX,
        spec_add_item(data, name, price_bits) is Some,
    ensures
        ({
            let (last, items) = spec_inventory(data).unwrap();
            let (r, id) = spec_add_item(data, name, price_bits).unwrap();
            let all = items.push(SpecItem { id, name, price_bits });
            &&& id == last + 1
            &&& items.len() < u32::MAX
            &&& r == spec_header_bytes(id, all.len() as u32) + spec_items_bytes(all)
            &&& names_fit(all)
        }),
{
    lemma_exact_inventory_shape(data);
    let (last, items) = spec_inventory(data).unwrap();
    let (r, id) = spec_add_item(data, name, price_bits).unwrap();
    let it = SpecItem { id, name, price_bits };
    let all = items.push(it);
    let count = items.len() as u32;
    let hb = spec_header_bytes(id, (count + 1) as u32);
    let body = data.subrange(8, data.len() as int);
    assert(body =~= spec_items_bytes(items));
    assert(r == hb + body + spec_item_bytes(it));
    lemma_items_bytes_push(items, it);
    assert(hb + body + spec_item_bytes(it) =~= hb + (body + spec_item_bytes(it)));
    lemma_names_fit_push(items, it);
}

/// After adding a product whose number no earlier record carries, looking the
/// number up finds the new record, which starts where the old file ended.
#[verifier::spinoff_prover]
pub proof fn lemma_add_found(items: Seq<SpecItem>, it: SpecItem, r: Seq<u8>)
    requires
        spec_parse_items(r, 8, items.len() + 1) == Some((items.push(it), r.len() as int)),
        8 <= r.len(),
        spec_first_match(items, decimal(it.id as nat)) is None,
    ensures
        spec_search_from(r, 8, items.len() + 1, decimal(it.id as nat)) == Some(
            8 + spec_items_bytes(items).len() + 4int,
        ),
{
    let all = items.push(it);
    lemma_first_match_push(items, it, decimal(it.id as nat));
    lemma_search_matches_items(r, 8, all.len(), decimal(it.id as nat));
    assert(all.subrange(0, items.len() as int) =~= items);
}

/// The file of an added product is exact, and reads as the old records with
/// the new one at the end.
#[verifier::spinoff_prover]
pub proof fn lemma_add_exact(data: Seq<u8>, name: Seq<u8>, price_bits: u64)
    requires
        is_exact_inventory(data),
        name.len() <= u32::MAX,
        spec_add_item(data, name, price_bits) is Some,
    ensures
        ({
            let (last, items) = spec_inventory(data).unwrap();
            let (r, id) = spec_add_item(data, name, price_bits).unwrap();
            let all = items.push(SpecItem { id, name, price_bits });
            &&& spec_header(r) == Some((id, all.len() as u32))
            &&& all.len() <= u32::MAX
            &&& spec_parse_items(r, 8, all.len()) == Some((all, r.len() as int))
            &&& 8 <= r.len()
            &&& data.len() == 8 + spec_items_bytes(items).len()
        }),
{
    lemma_exact_inventory_shape(data);
    lemma_add_shape(data, name, price_bits);
    let items = spec_inventory(data).unwrap().1;
    let r = spec_add_item(data, name, price_bits).unwrap().0;
    let id = spec_add_item(data, name, price_bits).unwrap().1;
    let all = items.push(SpecItem { id, name, price_bits });
    let hb = spec_header_bytes(id, all.len() as u32);
    let body = spec_items_bytes(all);
    assert(r == hb + body);
    assert(hb.len() == 8);
    lemma_header_roundtrip(id, all.len() as u32, body);
    assert(hb + body + Seq::empty() =~= hb + body);
    lemma_parse_items_bytes(hb, all, Seq::empty());
    assert(spec_parse_items(r, 8, all.len()) == Some((all, r.len() as int)));
}

/// Adding a product to an exact inventory file succeeds unless a count is at
/// its limit; it hands out the number after the last one, and the file is the
/// old records followed by the new one, under a header that counts it. When
/// no earlier record reads as the new number, looking the number up finds the
/// new record.
#[verifier::spinoff_prover]
pub proof fn law_add_appends_record(data: Seq<u8>, name: Seq<u8>, price_bits: u64)
    requires
        is_exact_inventory(data),
        name.len() <= u32::MAX,
    ensures
        ({
            let (last, items) = spec_inventory(data).unwrap();
            let added = spec_add_item(data, name, price_bits);
            &&& added is Some <==> (last < u32::MAX && items.len() < u32::MAX)
            &&& added is Some ==> {
                let (r, id) = added.unwrap();
                let it = SpecItem { id, name, price_bits };
                &&& id == last + 1
                &&& is_exact_inventory(r)
                &&& spec_inventory(r) == Some((id, items.push(it)))
                &&& (spec_first_match(items, decimal(id as nat)) is None ==> spec_search_id(
                    r,
                    decimal(id as nat),
                ) == Some(data.len() + 4int))
            }
        }),
{
    lemma_exact_inventory_shape(data);
    if spec_add_item(data, name, price_bits) is Some {
        lemma_add_shape(data, name, price_bits);
        lemma_add_exact(data, name, price_bits);
        let (last, items) = spec_inventory(data).unwrap();
        let (r, id) = spec_add_item(data, name, price_bits).unwrap();
        let it = SpecItem { id, name, price_bits };
        if spec_first_match(items, decimal(id as nat)) is None {
            lemma_add_found(items, it, r);
        }
    }
}

/// The encoding of a run split around record `k`.
pub proof fn lemma_items_bytes_split(items: Seq<SpecItem>, k: int)
    requires
        0 <= k < items.len(),
    ensures
        spec_items_bytes(items) == spec_items_bytes(items.subrange(0, k)) + spec_item_bytes(
            items[k],
        ) + spec_items_bytes(items.subrange(k + 1, items.len() as int)),
        spec_items_bytes(items.subrange(0, k)).len() == spec_item_offset(items, k),
{
    let head = items.subrange(0, k);
    let tail = items.subrange(k + 1, items.len() as int);
    assert(items =~= head + (seq![items[k]] + tail));
    lemma_items_bytes_concat(head, seq![items[k]] + tail);
    lemma_items_bytes_cons(items[k], tail);
    assert(spec_items_bytes(head) + (spec_item_bytes(items[k]) + spec_items_bytes(tail))
        =~= spec_items_bytes(head) + spec_item_bytes(items[k]) + spec_items_bytes(tail));
}

/// Names fit after replacing a record by one whose name fits.
pub proof fn lemma_names_fit_update(items: Seq<SpecItem>, k: int, it: SpecItem)
    requires
        names_fit(items),
        0 <= k < items.len(),
        it.name.len() <= u32::MAX,
    ensures
        names_fit(items.update(k, it)),
{
    let u = items.update(k, it);
    assert forall|i: int| 0 <= i < u.len() implies (#[trigger] u[i]).name.len() <= u32::MAX by {
        if i != k {
            assert(u[i] == items[i]);
        }
    }
}

/// Cutting a sequence into three pieces and joining them back.
pub proof fn lemma_three_pieces(d: Seq<u8>, a: int, b: int)
    requires
        0 <= a <= b <= d.len(),
    ensures
        d == d.subrange(0, a) + d.subrange(a, b) + d.subrange(b, d.len() as int),
{
    assert(d =~= d.subrange(0, a) + d.subrange(a, b) + d.subrange(b, d.len() as int));
}

/// The bytes of an edited file, when the new name is as long as the old one.
#[verifier::spinoff_prover]
pub proof fn lemma_update_shape(
    data: Seq<u8>,
    items: Seq<SpecItem>,
    end: int,
    k: int,
    name: Seq<u8>,
    price_bits: u64,
    r: Seq<u8>,
)
    requires
        8 <= end <= data.len(),
        data.subrange(8, end) == spec_items_bytes(items),
        0 <= k < items.len(),
        name.len() == items[k].name.len(),
        r == ({
            let p = 8 + spec_item_offset(items, k) + 4;
            let b = spec_edit_bytes(name, price_bits);
            data.subrange(0, p) + b + data.subrange(p + b.len(), data.len() as int)
        }),
    ensures
        r == data.subrange(0, 8) + spec_items_bytes(
            items.update(k, SpecItem { id: items[k].id, name, price_bits }),
        ) + data.subrange(end, data.len() as int),
{
    let old_it = items[k];
    let edited = SpecItem { id: old_it.id, name, price_bits };
    lemma_items_bytes_split(items, k);
    let upd = items.update(k, edited);
    lemma_items_bytes_split(upd, k);
    assert(upd.subrange(0, k) =~= items.subrange(0, k));
    assert(upd.subrange(k + 1, upd.len() as int) =~= items.subrange(k + 1, items.len() as int));
    let hb = spec_items_bytes(items.subrange(0, k));
    let tb = spec_items_bytes(items.subrange(k + 1, items.len() as int));
    let ob = spec_item_bytes(old_it);
    let b = spec_edit_bytes(name, price_bits);
    let idb = spec_u32_bytes(old_it.id);
    assert(ob =~= idb + spec_edit_bytes(old_it.name, old_it.price_bits));
    assert(spec_item_bytes(edited) =~= idb + b);
    assert(b.len() == spec_edit_bytes(old_it.name, old_it.price_bits).len());
    let p = (8 + hb.len() + 4) as int;
    let q = p + b.len();
    assert(q == 8 + hb.len() + ob.len());
    let mid = data.subrange(8, end);
    assert(mid == hb + ob + tb);
    lemma_three_pieces(data, 8, end);
    let pre = data.subrange(0, 8);
    let post = data.subrange(end, data.len() as int);
    assert(data.subrange(0, p) =~= pre + mid.subrange(0, p - 8));
    assert(mid.subrange(0, p - 8) =~= hb + idb);
    assert(data.subrange(q, data.len() as int) =~= mid.subrange(q - 8, mid.len() as int) + post);
    assert(mid.subrange(q - 8, mid.len() as int) =~= tb);
    assert(r == pre + (hb + idb) + b + (tb + post));
    assert(r =~= pre + (hb + (idb + b) + tb) + post);
}

/// Editing a product whose new name is as long as the old one rewrites that
/// record alone: the file keeps its length and reads as the same records, the
/// edited one with the new name and price.
#[verifier::spinoff_prover]
pub proof fn law_update_in_place(data: Seq<u8>, id: Seq<char>, name: Seq<u8>, price_bits: u64)
    requires
        spec_inventory(data) is Some,
        spec_first_match(spec_inventory(data).unwrap().1, id) is Some,
        name.len() == spec_inventory(data).unwrap().1[spec_first_match(
            spec_inventory(data).unwrap().1,
            id,
        ).unwrap() as int].name.len(),
    ensures
        spec_update_item(data, id, name, price_bits) is Some,
        spec_update_item(data, id, name, price_bits).unwrap().len() == data.len(),
        spec_inventory(spec_update_item(data, id, name, price_bits).unwrap()) == Some(
            (
                spec_inventory(data).unwrap().0,
                spec_inventory(data).unwrap().1.update(
                    spec_first_match(spec_inventory(data).unwrap().1, id).unwrap() as int,
                    SpecItem {
                        id: spec_inventory(data).unwrap().1[spec_first_match(
                            spec_inventory(data).unwrap().1,
                            id,
                        ).unwrap() as int].id,
                        name,
                        price_bits,
                    },
                ),
            ),
        ),
{
    let count = spec_header(data).unwrap().1;
    let last = spec_header(data).unwrap().0;
    let items = spec_parse_items(data, 8, count as nat).unwrap().0;
    let end = spec_parse_items(data, 8, count as nat).unwrap().1;
    lemma_items_bytes_of_parse(data, 8, count as nat);
    lemma_search_matches_items(data, 8, count as nat, id);
    lemma_first_match_found(items, id);
    let k = spec_first_match(items, id).unwrap() as int;
    let edited = SpecItem { id: items[k].id, name, price_bits };
    let r = spec_update_item(data, id, name, price_bits).unwrap();
    lemma_items_bytes_split(items, k);
    let b = spec_edit_bytes(name, price_bits);
    assert(spec_item_bytes(items[k]).len() == 16 + name.len());
    assert(b.len() == 12 + name.len());
    assert(data.subrange(8, end).len() == end - 8);
    assert(8 + spec_item_offset(items, k) + 4 + b.len() <= end);
    lemma_update_shape(data, items, end, k, name, price_bits, r);
    let upd = items.update(k, edited);
    lemma_names_fit_update(items, k, edited);
    lemma_parse_items_bytes(data.subrange(0, 8), upd, data.subrange(end, data.len() as int));
    assert(spec_header(r) == spec_header(data)) by {
        assert(r[0] == data[0] && r[1] == data[1] && r[2] == data[2] && r[3] == data[3]);
        assert(r[4] == data[4] && r[5] == data[5] && r[6] == data[6] && r[7] == data[7]);
    }
}

} // verus!
