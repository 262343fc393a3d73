//! The sales file: a 4-byte count of sales, then one record per sale (the
//! length of its control number, the control number's bytes, the number of
//! items, a product number and a quantity for each item, then the bits of the
//! total, the amount tendered and the change, each an `f64`). Every integer
//! is stored least significant byte first (see `codec`).
use crate::codec::{
    lemma_read_in_context, lemma_read_u32_at, lemma_read_u32_sub, lemma_read_u64_at,
    lemma_read_u64_sub, lemma_sub_of_sub, lemma_u32_roundtrip, lemma_u64_roundtrip, push_bytes, push_u32,
    push_range, push_u64, read_u32, read_u64, spec_read_u32, spec_read_u64, spec_u32_bytes, spec_u64_bytes,
};
use crate::text::{
    all_digits, char_field, chars_equal, chars_field, decimal, is_digit, lemma_decimal_digits,
    lemma_decimal_len, lemma_decimal_len_u32, lemma_pad_zeros_digits, pad_with_zeros, pad_zeros,
    pow10, to_decimal, trim, trim_chars,
};
use crate::unicode::{
    ascii_chars, chars_of, decode_utf8, extended_graphemes, grapheme_clusters, one_char_clusters,
    utf8_decode,
};
use vstd::prelude::*;

verus! {

/// Why a sales file could not be used.
#[derive(Clone, Copy, Debug, PartialEq, Eq, Structural)]
pub enum SalesError {
    /// A control number in the file is not UTF-8.
    NotUtf8,
    /// A counted sale is cut short.
    Truncated,
    /// The count of sales, or a sale number, would pass `u32::MAX`.
    Overflow,
}

/// A sale as a mathematical value.
pub struct SpecSale {
    pub control_number: Seq<u8>,
    /// (product number, quantity) for each item.
    pub items: Seq<(u32, u32)>,
    pub total_bits: u64,
    pub tendered_bits: u64,
    pub change_bits: u64,
}

/// The bytes of the item pairs, in order.
#[verifier::opaque]
pub open spec fn spec_pairs_bytes(items: Seq<(u32, u32)>) -> Seq<u8>
    decreases items.len(),
{
    if items.len() == 0 {
        Seq::empty()
    } else {
        spec_pairs_bytes(items.drop_last()) + spec_u32_bytes(items.last().0) + spec_u32_bytes(
            items.last().1,
        )
    }
}

/// The `m` item pairs stored from `pos`.
pub open spec fn spec_read_pairs(data: Seq<u8>, pos: int, m: nat) -> Seq<(u32, u32)> {
    Seq::new(m, |j: int| (spec_read_u32(data, pos + 8 * j), spec_read_u32(data, pos + 8 * j + 4)))
}

/// The bytes of a sale. The length fields hold the lengths cut to 32 bits.
pub open spec fn spec_sale_bytes(s: SpecSale) -> Seq<u8> {
    spec_u32_bytes(s.control_number.len() as u32) + s.control_number + spec_u32_bytes(
        s.items.len() as u32,
    ) + spec_pairs_bytes(s.items) + spec_u64_bytes(s.total_bits) + spec_u64_bytes(
        s.tendered_bits,
    ) + spec_u64_bytes(s.change_bits)
}

/// The first fields of the sale at `pos`: its control number's bytes, its
/// number of items, and where the next sale starts (as the file is walked,
/// the items and amounts are stepped over without being read).
pub open spec fn spec_sale_head(data: Seq<u8>, pos: int) -> Option<(Seq<u8>, u32, int)> {
    if 0 <= pos && pos + 4 <= data.len() && pos + 8 + spec_read_u32(data, pos) <= data.len() {
        let n = spec_read_u32(data, pos) as int;
        let m = spec_read_u32(data, pos + 4 + n);
        Some((data.subrange(pos + 4, pos + 4 + n), m, pos + 8 + n + 8 * m + 24))
    } else {
        None
    }
}

/// The sale that starts at `pos`, and where the next one starts.
#[verifier::opaque]
pub open spec fn spec_parse_sale(data: Seq<u8>, pos: int) -> Option<(SpecSale, int)> {
    match spec_sale_head(data, pos) {
        None => None,
        Some((cn, m, end)) => if end <= data.len() {
            let q = pos + 8 + cn.len();
            Some(
                (
                    SpecSale {
                        control_number: cn,
                        items: spec_read_pairs(data, q, m as nat),
                        total_bits: spec_read_u64(data, end - 24),
                        tendered_bits: spec_read_u64(data, end - 16),
                        change_bits: spec_read_u64(data, end - 8),
                    },
                    end,
                ),
            )
        } else {
            None
        },
    }
}

/// The `count` sales that start at `pos`, and where they end.
#[verifier::opaque]
pub open spec fn spec_parse_sales(data: Seq<u8>, pos: int, count: nat) -> Option<
    (Seq<SpecSale>, int),
>
    decreases count,
{
    if count == 0 {
        Some((Seq::empty(), pos))
    } else {
        match spec_parse_sale(data, pos) {
            None => None,
            Some((s, next)) => match spec_parse_sales(data, next, (count - 1) as nat) {
                None => None,
                Some((rest, end)) => Some((seq![s] + rest, end)),
            },
        }
    }
}

/// The bytes of a run of sales.
#[verifier::opaque]
pub open spec fn spec_sales_bytes(sales: Seq<SpecSale>) -> Seq<u8>
    decreases sales.len(),
{
    if sales.len() == 0 {
        Seq::empty()
    } else {
        spec_sale_bytes(sales[0]) + spec_sales_bytes(sales.drop_first())
    }
}

/// Whether a sale's lengths fit their 32-bit fields.
pub open spec fn sale_fits(s: SpecSale) -> bool {
    s.control_number.len() <= u32::MAX && s.items.len() <= u32::MAX
}

/// Whether every sale's lengths fit.
pub open spec fn sales_fit(sales: Seq<SpecSale>) -> bool {
    forall|i: int| 0 <= i < sales.len() ==> sale_fits(#[trigger] sales[i])
}

/// The count at the start of the file, as a read into a zeroed 4-byte buffer
/// gives it: the bytes that are there, zeros for those that are not.
pub open spec fn spec_sales_count(data: Seq<u8>) -> u32 {
    let b = |i: int| if i < data.len() {
        data[i]
    } else {
        0u8
    };
    (b(0) as int + 256 * b(1) as int + 65536 * b(2) as int + 16777216 * b(3) as int) as u32
}

/// The sales of the file, when every counted sale can be read.
pub open spec fn spec_sales_file(data: Seq<u8>) -> Option<Seq<SpecSale>> {
    if data.len() >= 4 {
        match spec_parse_sales(data, 4, spec_read_u32(data, 0) as nat) {
            None => None,
            Some((sales, end)) => Some(sales),
        }
    } else {
        None
    }
}

/// Whether the file is exactly the count and the sales it counts.
pub open spec fn is_exact_sales_file(data: Seq<u8>) -> bool {
    data.len() >= 4 && match spec_parse_sales(data, 4, spec_read_u32(data, 0) as nat) {
        None => false,
        Some((sales, end)) => end == data.len(),
    }
}

/// The pair bytes: 8 per pair, pair `j` at `8 * j`.
pub proof fn lemma_pairs_bytes_index(items: Seq<(u32, u32)>, j: int)
    requires
        0 <= j < items.len(),
    ensures
        spec_pairs_bytes(items).len() == 8 * items.len(),
        spec_pairs_bytes(items).subrange(8 * j, 8 * j + 8) == spec_u32_bytes(items[j].0)
            + spec_u32_bytes(items[j].1),
    decreases items.len(),
{
    reveal(spec_pairs_bytes);
    let pre = spec_pairs_bytes(items.drop_last());
    let last = spec_u32_bytes(items.last().0) + spec_u32_bytes(items.last().1);
    assert(spec_pairs_bytes(items) =~= pre + last);
    if items.len() == 1 {
        assert(items.drop_last().len() == 0);
        assert(pre =~= Seq::<u8>::empty());
        assert(spec_pairs_bytes(items).subrange(0, 8) =~= last);
    } else {
        if j < items.len() - 1 {
            lemma_pairs_bytes_index(items.drop_last(), j);
            assert(spec_pairs_bytes(items).subrange(8 * j, 8 * j + 8) =~= pre.subrange(
                8 * j,
                8 * j + 8,
            ));
        } else {
            lemma_pairs_bytes_index(items.drop_last(), 0);
            assert(spec_pairs_bytes(items).subrange(8 * j, 8 * j + 8) =~= last);
        }
    }
}

/// The length of the pair bytes.
pub proof fn lemma_pairs_bytes_len(items: Seq<(u32, u32)>)
    ensures
        spec_pairs_bytes(items).len() == 8 * items.len(),
    decreases items.len(),
{
    reveal(spec_pairs_bytes);
    if items.len() > 0 {
        lemma_pairs_bytes_len(items.drop_last());
    }
}

/// Where each field of a sale's bytes lies.
#[verifier::spinoff_prover]
pub proof fn lemma_sale_layout(s: SpecSale)
    ensures
        ({
            let sb = spec_sale_bytes(s);
            let n = s.control_number.len() as int;
            let m = s.items.len() as int;
            let e = 8 + n + 8 * m + 24;
            &&& sb.len() == e
            &&& sb.subrange(0, 4) == spec_u32_bytes(n as u32)
            &&& sb.subrange(4, 4 + n) == s.control_number
            &&& sb.subrange(4 + n, 8 + n) == spec_u32_bytes(m as u32)
            &&& sb.subrange(8 + n, 8 + n + 8 * m) == spec_pairs_bytes(s.items)
            &&& sb.subrange(e - 24, e - 16) == spec_u64_bytes(s.total_bits)
            &&& sb.subrange(e - 16, e - 8) == spec_u64_bytes(s.tendered_bits)
            &&& sb.subrange(e - 8, e) == spec_u64_bytes(s.change_bits)
        }),
{
    lemma_pairs_bytes_len(s.items);
    let n = s.control_number.len() as int;
    let m = s.items.len() as int;
    let a = spec_u32_bytes(n as u32);
    let b = s.control_number;
    let c = spec_u32_bytes(m as u32);
    let d = spec_pairs_bytes(s.items);
    let t = spec_u64_bytes(s.total_bits);
    let u = spec_u64_bytes(s.tendered_bits);
    let v = spec_u64_bytes(s.change_bits);
    let sb = spec_sale_bytes(s);
    let e = 8 + n + 8 * m + 24;
    assert(sb == a + b + c + d + t + u + v);
    assert(sb.subrange(0, 4) =~= a);
    assert(sb.subrange(4, 4 + n) =~= b);
    assert(sb.subrange(4 + n, 8 + n) =~= c);
    assert(sb.subrange(8 + n, 8 + n + 8 * m) =~= d);
    assert(sb.subrange(e - 24, e - 16) =~= t);
    assert(sb.subrange(e - 16, e - 8) =~= u);
    assert(sb.subrange(e - 8, e) =~= v);
}

/// Item pairs read where their bytes stand.
pub proof fn lemma_read_pairs_sub(data: Seq<u8>, q: int, items: Seq<(u32, u32)>)
    requires
        0 <= q,
        q + 8 * items.len() <= data.len(),
        data.subrange(q, q + 8 * items.len()) == spec_pairs_bytes(items),
    ensures
        spec_read_pairs(data, q, items.len()) == items,
{
    let pb = spec_pairs_bytes(items);
    assert forall|j: int| 0 <= j < items.len() implies #[trigger] spec_read_pairs(
        data,
        q,
        items.len(),
    )[j] == items[j] by {
        lemma_pairs_bytes_index(items, j);
        let chunk = pb.subrange(8 * j, 8 * j + 8);
        assert(data.subrange(q + 8 * j, q + 8 * j + 4) =~= chunk.subrange(0, 4));
        assert(data.subrange(q + 8 * j + 4, q + 8 * j + 8) =~= chunk.subrange(4, 8));
        assert(chunk.subrange(0, 4) =~= spec_u32_bytes(items[j].0));
        assert(chunk.subrange(4, 8) =~= spec_u32_bytes(items[j].1));
        lemma_read_u32_sub(data, q + 8 * j, spec_u32_bytes(items[j].0));
        lemma_read_u32_sub(data, q + 8 * j + 4, spec_u32_bytes(items[j].1));
        lemma_u32_roundtrip(items[j].0);
        lemma_u32_roundtrip(items[j].1);
    }
    assert(spec_read_pairs(data, q, items.len()) =~= items);
}

/// The length fields and control number of a sale read where its bytes stand.
#[verifier::spinoff_prover]
pub proof fn lemma_sale_fields_sub(data: Seq<u8>, p: int, s: SpecSale)
    requires
        sale_fits(s),
        0 <= p,
        p + spec_sale_bytes(s).len() <= data.len(),
        data.subrange(p, p + spec_sale_bytes(s).len()) == spec_sale_bytes(s),
    ensures
        spec_read_u32(data, p) == s.control_number.len(),
        spec_read_u32(data, p + 4 + s.control_number.len()) == s.items.len(),
        data.subrange(p + 4, p + 4 + s.control_number.len()) == s.control_number,
{
    lemma_sale_layout(s);
    let sb = spec_sale_bytes(s);
    let n = s.control_number.len() as int;
    let m = s.items.len() as int;
    lemma_u32_roundtrip(n as u32);
    lemma_u32_roundtrip(m as u32);
    lemma_sub_of_sub(data, p, sb, 0, 4);
    lemma_read_u32_sub(data, p, sb.subrange(0, 4));
    lemma_sub_of_sub(data, p, sb, 4, 4 + n);
    lemma_sub_of_sub(data, p, sb, 4 + n, 8 + n);
    lemma_read_u32_sub(data, p + 4 + n, sb.subrange(4 + n, 8 + n));
}

/// The amounts of a sale read where its bytes stand.
#[verifier::spinoff_prover]
pub proof fn lemma_sale_amounts_sub(data: Seq<u8>, p: int, s: SpecSale)
    requires
        sale_fits(s),
        0 <= p,
        p + spec_sale_bytes(s).len() <= data.len(),
        data.subrange(p, p + spec_sale_bytes(s).len()) == spec_sale_bytes(s),
    ensures
        ({
            let e = p + spec_sale_bytes(s).len();
            &&& spec_read_u64(data, e - 24) == s.total_bits
            &&& spec_read_u64(data, e - 16) == s.tendered_bits
            &&& spec_read_u64(data, e - 8) == s.change_bits
        }),
{
    lemma_sale_layout(s);
    let sb = spec_sale_bytes(s);
    let e = sb.len() as int;
    lemma_u64_roundtrip(s.total_bits);
    lemma_u64_roundtrip(s.tendered_bits);
    lemma_u64_roundtrip(s.change_bits);
    lemma_sub_of_sub(data, p, sb, e - 24, e - 16);
    lemma_read_u64_sub(data, p + e - 24, sb.subrange(e - 24, e - 16));
    lemma_sub_of_sub(data, p, sb, e - 16, e - 8);
    lemma_read_u64_sub(data, p + e - 16, sb.subrange(e - 16, e - 8));
    lemma_sub_of_sub(data, p, sb, e - 8, e);
    lemma_read_u64_sub(data, p + e - 8, sb.subrange(e - 8, e));
}

/// A sale reads where its bytes stand.
#[verifier::spinoff_prover]
pub proof fn lemma_parse_sale_sub(data: Seq<u8>, p: int, s: SpecSale)
    requires
        sale_fits(s),
        0 <= p,
        p + spec_sale_bytes(s).len() <= data.len(),
        data.subrange(p, p + spec_sale_bytes(s).len()) == spec_sale_bytes(s),
    ensures
        spec_parse_sale(data, p) == Some((s, p + spec_sale_bytes(s).len())),
        spec_sale_head(data, p) == Some(
            (s.control_number, s.items.len() as u32, p + spec_sale_bytes(s).len()),
        ),
{
    reveal(spec_parse_sale);
    lemma_sale_layout(s);
    lemma_sale_fields_sub(data, p, s);
    lemma_sale_amounts_sub(data, p, s);
    let sb = spec_sale_bytes(s);
    let n = s.control_number.len() as int;
    let m = s.items.len() as int;
    lemma_sub_of_sub(data, p, sb, 8 + n, 8 + n + 8 * m);
    lemma_read_pairs_sub(data, p + 8 + n, s.items);
}

/// The characters of the clusters `g[skip..skip + take]`, put together
/// (what `s.graphemes(true).skip(skip).take(take).collect::<String>()` gives).
pub open spec fn grapheme_field(g: Seq<Seq<char>>, skip: nat, take: nat) -> Seq<char> {
    let a = if skip <= g.len() {
        skip as int
    } else {
        g.len() as int
    };
    let b = if skip + take <= g.len() {
        (skip + take) as int
    } else {
        g.len() as int
    };
    g.subrange(a, b).flatten()
}

/// Whether a sale's control number is of the given date: its first two
/// grapheme clusters are the month, the next two the day, the next four the
/// year; the month and day are padded with `0` to two characters, and both
/// sides are trimmed of white space before they are compared.
pub open spec fn sale_on_date(cn: Seq<char>, year: Seq<char>, month: Seq<char>, day: Seq<char>) -> bool {
    let g = extended_graphemes(cn);
    &&& trim(pad_zeros(month, 2)) == trim(grapheme_field(g, 0, 2))
    &&& trim(pad_zeros(day, 2)) == trim(grapheme_field(g, 2, 2))
    &&& trim(year) == trim(grapheme_field(g, 4, 4))
}

/// The number of sales of the given date among `remaining` sales from `pos`;
/// the walk stops where the file ends. `None` when a control number that is
/// read is not UTF-8.
pub open spec fn spec_count_from(
    data: Seq<u8>,
    pos: int,
    remaining: nat,
    year: Seq<char>,
    month: Seq<char>,
    day: Seq<char>,
) -> Option<nat>
    decreases remaining,
{
    if remaining == 0 {
        Some(0)
    } else {
        match spec_sale_head(data, pos) {
            None => Some(0),
            Some((cn, m, next)) => match utf8_decode(cn) {
                None => None,
                Some(c) => match spec_count_from(data, next, (remaining - 1) as nat, year, month, day) {
                    None => None,
                    Some(k) => Some(
                        k + if sale_on_date(c, year, month, day) {
                            1nat
                        } else {
                            0nat
                        },
                    ),
                },
            },
        }
    }
}

/// The number of sales of the given date in the sales file.
pub open spec fn spec_last_sales_number(
    data: Seq<u8>,
    year: Seq<char>,
    month: Seq<char>,
    day: Seq<char>,
) -> Option<nat> {
    spec_count_from(data, 4, spec_sales_count(data) as nat, year, month, day)
}

/// Whether the fields of two control numbers agree: characters 0-1 (month),
/// 2-3 (day), 4-7 (year) and 8-11 (number).
pub open spec fn same_control_fields(a: Seq<char>, b: Seq<char>) -> bool {
    &&& char_field(a, 4, 4) == char_field(b, 4, 4)
    &&& char_field(a, 0, 2) == char_field(b, 0, 2)
    &&& char_field(a, 2, 2) == char_field(b, 2, 2)
    &&& char_field(a, 8, 4) == char_field(b, 8, 4)
}

/// Where the search for a control number stops among `remaining` sales from
/// `pos`: just after the control number of the first sale whose fields agree
/// with `target`.
pub open spec fn spec_find_from(data: Seq<u8>, pos: int, remaining: nat, target: Seq<char>) -> Result<
    Option<int>,
    SalesError,
>
    decreases remaining,
{
    if remaining == 0 {
        Ok(None)
    } else {
        match spec_sale_head(data, pos) {
            None => Ok(None),
            Some((cn, m, next)) => match utf8_decode(cn) {
                None => Err(SalesError::NotUtf8),
                Some(c) => if same_control_fields(target, c) {
                    Ok(Some(pos + 4 + cn.len()))
                } else {
                    spec_find_from(data, next, (remaining - 1) as nat, target)
                },
            },
        }
    }
}

/// The position just after the control number of the first sale whose
/// fields agree with `target`.
pub open spec fn spec_search_control_number(data: Seq<u8>, target: Seq<char>) -> Result<
    Option<int>,
    SalesError,
> {
    spec_find_from(data, 4, spec_sales_count(data) as nat, target)
}

/// The control number `MMDDYYYYNNNN`: month and day padded with `0` to two
/// characters, the year as given, the sale number padded to four.
pub open spec fn spec_control_number(month: Seq<char>, day: Seq<char>, year: Seq<char>, n: nat) -> Seq<
    char,
> {
    pad_zeros(month, 2) + pad_zeros(day, 2) + year + pad_zeros(decimal(n), 4)
}

/// The first fields of the sale at `pos` (see `spec_sale_head`); `None` for
/// the next position when it lies past the end of the file.
fn sale_head(data: &[u8], pos: usize) -> (r: Option<(Vec<u8>, u32, Option<usize>)>)
    ensures
        match r {
            None => spec_sale_head(data@, pos as int) is None,
            Some((cn, m, next)) => spec_sale_head(data@, pos as int) matches Some((c2, m2, n2)) && cn@
                == c2 && m == m2 && match next {
                Some(nx) => nx == n2,
                None => n2 > data@.len(),
            } && n2 == pos + 4 + cn@.len() + 4 + 8 * m + 24,
        },
{
    if pos > data.len() || data.len() - pos < 4 {
        return None;
    }
    let n = read_u32(data, pos) as usize;
    if n > data.len() - pos - 4 || data.len() - pos - 4 - n < 4 {
        return None;
    }
    let mut cn: Vec<u8> = Vec::new();
    push_range(&mut cn, data, pos + 4, pos + 4 + n);
    assert(cn@ =~= data@.subrange(pos + 4, pos + 4 + n));
    let m = read_u32(data, pos + 4 + n);
    let next: u128 = pos as u128 + 8 + n as u128 + 8 * (m as u128) + 24;
    if next <= data.len() as u128 {
        Some((cn, m, Some(next as usize)))
    } else {
        Some((cn, m, None))
    }
}

/// The count of sales at the start of the file (0 where the file is empty).
pub fn number_of_sales(data: &[u8]) -> (r: u32)
    ensures
        r == spec_sales_count(data@),
{
    let b0 = if data.len() > 0 { data[0] } else { 0 };
    let b1 = if data.len() > 1 { data[1] } else { 0 };
    let b2 = if data.len() > 2 { data[2] } else { 0 };
    let b3 = if data.len() > 3 { data[3] } else { 0 };
    b0 as u32 + 256 * (b1 as u32) + 65536 * (b2 as u32) + 16777216 * (b3 as u32)
}

/// The characters of the clusters `g[skip..skip + take]`, put together.
fn join_clusters(g: &Vec<Vec<char>>, skip: usize, take: usize) -> (r: Vec<char>)
    ensures
        r@ == grapheme_field(g.deep_view(), skip as nat, take as nat),
{
    let a = if skip <= g.len() {
        skip
    } else {
        g.len()
    };
    let b = if take <= g.len() - a {
        a + take
    } else {
        g.len()
    };
    let ghost gv = g.deep_view();
    let mut out: Vec<char> = Vec::new();
    let mut i = a;
    assert(gv.subrange(a as int, a as int) =~= Seq::<Seq<char>>::empty());
    while i < b
        invariant
            a <= i <= b,
            b <= g@.len(),
            gv == g.deep_view(),
            out@ == gv.subrange(a as int, i as int).flatten(),
        decreases b - i,
    {
        let ghost before = gv.subrange(a as int, i as int);
        let ghost start = out@;
        let c = &g[i];
        let mut k: usize = 0;
        while k < c.len()
            invariant
                k <= c@.len(),
                out@ == start + c@.subrange(0, k as int),
            decreases c@.len() - k,
        {
            out.push(c[k]);
            k = k + 1;
            assert(out@ =~= start + c@.subrange(0, k as int));
        }
        proof {
            assert(c@.subrange(0, k as int) =~= c@);
            assert(gv[i as int] =~= c@);
            assert(gv.subrange(a as int, i + 1) =~= before.push(gv[i as int]));
            before.lemma_flatten_push(gv[i as int]);
        }
        i = i + 1;
    }
    out
}

/// Whether a sale's control number is of the given date (see `sale_on_date`).
fn control_number_on_date(cn: &[char], year: &[char], month: &[char], day: &[char]) -> (r: bool)
    ensures
        r == sale_on_date(cn@, year@, month@, day@),
{
    let g = grapheme_clusters(cn);
    let file_month = join_clusters(&g, 0, 2);
    let file_day = join_clusters(&g, 2, 2);
    let file_year = join_clusters(&g, 4, 4);
    let m = trim_chars(pad_with_zeros(month, 2).as_slice());
    let d = trim_chars(pad_with_zeros(day, 2).as_slice());
    let y = trim_chars(year);
    let fm = trim_chars(file_month.as_slice());
    let fd = trim_chars(file_day.as_slice());
    let fy = trim_chars(file_year.as_slice());
    chars_equal(m.as_slice(), fm.as_slice()) && chars_equal(d.as_slice(), fd.as_slice())
        && chars_equal(y.as_slice(), fy.as_slice())
}

/// The number of sales of the given date in the sales file (see
/// `spec_last_sales_number`); `None` when a control number that is read is
/// not UTF-8, so that the count cannot be made.
pub fn get_last_sales_number(data: &[u8], year: &str, month: &str, day: &str) -> (r: Option<u32>)
    ensures
        match r {
            Some(k) => spec_last_sales_number(data@, year@, month@, day@) == Some(k as nat),
            None => spec_last_sales_number(data@, year@, month@, day@) is None,
        },
{
    let y = chars_of(year);
    let mo = chars_of(month);
    let d = chars_of(day);
    count_sales_on_date(data, y.as_slice(), mo.as_slice(), d.as_slice())
}

/// The count of `get_last_sales_number`, on characters.
fn count_sales_on_date(data: &[u8], y: &[char], mo: &[char], d: &[char]) -> (r: Option<u32>)
    ensures
        match r {
            Some(k) => spec_last_sales_number(data@, y@, mo@, d@) == Some(k as nat),
            None => spec_last_sales_number(data@, y@, mo@, d@) is None,
        },
{
    let ghost year = y@;
    let ghost month = mo@;
    let ghost day = d@;
    let count = number_of_sales(data);
    let mut acc: u32 = 0;
    let mut pos: usize = 4;
    let mut i: u32 = 0;
    while i < count
        invariant
            i <= count,
            acc <= i,
            y@ == year,
            mo@ == month,
            d@ == day,
            spec_last_sales_number(data@, year, month, day) == match spec_count_from(
                data@,
                pos as int,
                (count - i) as nat,
                year,
                month,
                day,
            ) {
                None => None,
                Some(k) => Some((acc + k) as nat),
            },
            count == spec_sales_count(data@),
        decreases count - i,
    {
        match sale_head(data, pos) {
            None => {
                return Some(acc);
            },
            Some((cn, m, next)) => {
                match decode_utf8(cn.as_slice()) {
                    None => {
                        return None;
                    },
                    Some(c) => {
                        let hit = control_number_on_date(c.as_slice(), y, mo, d);
                        if hit {
                            acc = acc + 1;
                        }
                        match next {
                            None => {
                                proof {
                                    let n2 = spec_sale_head(data@, pos as int).unwrap().2;
                                    if count - i > 1 {
                                        assert(spec_sale_head(data@, n2) is None);
                                    }
                                    assert(spec_count_from(
                                        data@,
                                        n2,
                                        (count - i - 1) as nat,
                                        year,
                                        month,
                                        day,
                                    ) == Some(0nat));
                                }
                                return Some(acc);
                            },
                            Some(nx) => {
                                pos = nx;
                            },
                        }
                        i = i + 1;
                    },
                }
            },
        }
    }
    Some(acc)
}

/// The position just after the control number of the first sale whose
/// fields agree with `control_number` (see `spec_search_control_number`);
/// `Ok(None)` when there is none.
pub fn search_control_number(data: &[u8], control_number: &str) -> (r: Result<
    Option<usize>,
    SalesError,
>)
    ensures
        match r {
            Ok(Some(p)) => spec_search_control_number(data@, control_number@) == Ok::<
                Option<int>,
                SalesError,
            >(Some(p as int)),
            Ok(None) => spec_search_control_number(data@, control_number@) == Ok::<
                Option<int>,
                SalesError,
            >(None),
            Err(e) => spec_search_control_number(data@, control_number@) == Err::<
                Option<int>,
                SalesError,
            >(e),
        },
{
    let target = chars_of(control_number);
    find_control_number(data, target.as_slice())
}

/// The search of `search_control_number`, on characters.
fn find_control_number(data: &[u8], target: &[char]) -> (r: Result<Option<usize>, SalesError>)
    ensures
        match r {
            Ok(Some(p)) => spec_search_control_number(data@, target@) == Ok::<
                Option<int>,
                SalesError,
            >(Some(p as int)),
            Ok(None) => spec_search_control_number(data@, target@) == Ok::<
                Option<int>,
                SalesError,
            >(None),
            Err(e) => spec_search_control_number(data@, target@) == Err::<
                Option<int>,
                SalesError,
            >(e),
        },
{
    let month = chars_field(target, 0, 2);
    let day = chars_field(target, 2, 2);
    let year = chars_field(target, 4, 4);
    let number = chars_field(target, 8, 4);
    let count = number_of_sales(data);
    let mut pos: usize = 4;
    let mut i: u32 = 0;
    while i < count
        invariant
            i <= count,
            count == spec_sales_count(data@),
            month@ == char_field(target@, 0, 2),
            day@ == char_field(target@, 2, 2),
            year@ == char_field(target@, 4, 4),
            number@ == char_field(target@, 8, 4),
            spec_search_control_number(data@, target@) == spec_find_from(
                data@,
                pos as int,
                (count - i) as nat,
                target@,
            ),
        decreases count - i,
    {
        match sale_head(data, pos) {
            None => {
                return Ok(None);
            },
            Some((cn, m, next)) => {
                match decode_utf8(cn.as_slice()) {
                    None => {
                        return Err(SalesError::NotUtf8);
                    },
                    Some(c) => {
                        let fm = chars_field(c.as_slice(), 0, 2);
                        let fd = chars_field(c.as_slice(), 2, 2);
                        let fy = chars_field(c.as_slice(), 4, 4);
                        let fnum = chars_field(c.as_slice(), 8, 4);
                        if chars_equal(year.as_slice(), fy.as_slice()) && chars_equal(
                            month.as_slice(),
                            fm.as_slice(),
                        ) && chars_equal(day.as_slice(), fd.as_slice()) && chars_equal(
                            number.as_slice(),
                            fnum.as_slice(),
                        ) {
                            assert(pos + 4 + cn@.len() <= data@.len());
                            let dl = data.len();
                            return Ok(Some(pos + 4 + cn.len()));
                        }
                        match next {
                            None => {
                                proof {
                                    let n2 = spec_sale_head(data@, pos as int).unwrap().2;
                                    if count - i > 1 {
                                        assert(spec_sale_head(data@, n2) is None);
                                    }
                                    assert(spec_find_from(
                                        data@,
                                        n2,
                                        (count - i - 1) as nat,
                                        target@,
                                    ) == Ok::<Option<int>, SalesError>(None));
                                }
                                return Ok(None);
                            },
                            Some(nx) => {
                                pos = nx;
                            },
                        }
                        i = i + 1;
                    },
                }
            },
        }
    }
    Ok(None)
}

/// The number of items and the total of the sale whose item count is at
/// `pos`, when they are in the file.
pub open spec fn spec_summary_at(data: Seq<u8>, pos: int) -> Option<(u32, u64)> {
    if 0 <= pos && pos + 4 <= data.len() && pos + 4 + 8 * spec_read_u32(data, pos) + 8
        <= data.len() {
        Some(
            (
                spec_read_u32(data, pos),
                spec_read_u64(data, pos + 4 + 8 * spec_read_u32(data, pos)),
            ),
        )
    } else {
        None
    }
}

/// The items and the amounts of the sale whose item count is at `pos`, when
/// they are in the file.
pub open spec fn spec_details_at(data: Seq<u8>, pos: int) -> Option<
    (Seq<(u32, u32)>, u64, u64, u64),
> {
    if 0 <= pos && pos + 4 <= data.len() && pos + 4 + 8 * spec_read_u32(data, pos) + 24
        <= data.len() {
        let q = pos + 4 + 8 * spec_read_u32(data, pos);
        Some(
            (
                spec_read_pairs(data, pos + 4, spec_read_u32(data, pos) as nat),
                spec_read_u64(data, q),
                spec_read_u64(data, q + 8),
                spec_read_u64(data, q + 16),
            ),
        )
    } else {
        None
    }
}

/// The number of items and the total of the sale whose item count is at `pos`.
pub fn sale_summary_at(data: &[u8], pos: usize) -> (r: Option<(u32, u64)>)
    ensures
        r == spec_summary_at(data@, pos as int),
{
    if pos > data.len() || data.len() - pos < 4 {
        return None;
    }
    let m = read_u32(data, pos) as usize;
    if (data.len() - pos - 4) / 8 < m || data.len() - pos - 4 - 8 * m < 8 {
        return None;
    }
    Some((m as u32, read_u64(data, pos + 4 + 8 * m)))
}

/// One sale's items, total, amount tendered and change.
#[derive(Clone, Debug, PartialEq, Eq)]
pub struct SaleDetails {
    /// (product number, quantity) for each item.
    pub items: Vec<(u32, u32)>,
    pub total_bits: u64,
    pub tendered_bits: u64,
    pub change_bits: u64,
}

impl View for SaleDetails {
    type V = (Seq<(u32, u32)>, u64, u64, u64);

    open spec fn view(&self) -> (Seq<(u32, u32)>, u64, u64, u64) {
        (self.items@, self.total_bits, self.tendered_bits, self.change_bits)
    }
}

/// The items and amounts of the sale whose item count is at `pos`.
pub fn sale_details_at(data: &[u8], pos: usize) -> (r: Option<SaleDetails>)
    ensures
        match r {
            Some(d) => spec_details_at(data@, pos as int) == Some(d@),
            None => spec_details_at(data@, pos as int) is None,
        },
{
    if pos > data.len() || data.len() - pos < 4 {
        return None;
    }
    let m = read_u32(data, pos) as usize;
    if (data.len() - pos - 4) / 8 < m || data.len() - pos - 4 - 8 * m < 24 {
        return None;
    }
    let mut items: Vec<(u32, u32)> = Vec::new();
    let mut j: usize = 0;
    while j < m
        invariant
            j <= m,
            pos + 4 + 8 * m + 24 <= data.len(),
            m == spec_read_u32(data@, pos as int),
            items@ == spec_read_pairs(data@, pos + 4, m as nat).subrange(0, j as int),
        decreases m - j,
    {
        let id = read_u32(data, pos + 4 + 8 * j);
        let qty = read_u32(data, pos + 8 + 8 * j);
        items.push((id, qty));
        j = j + 1;
        assert(items@ =~= spec_read_pairs(data@, pos + 4, m as nat).subrange(0, j as int));
    }
    assert(items@ =~= spec_read_pairs(data@, pos + 4, m as nat));
    let q = pos + 4 + 8 * m;
    Some(
        SaleDetails {
            items,
            total_bits: read_u64(data, q),
            tendered_bits: read_u64(data, q + 8),
            change_bits: read_u64(data, q + 16),
        },
    )
}

/// The details of the sale with the given control number: `Ok(None)` when
/// there is no such sale, `Truncated` when the sale is cut short.
pub open spec fn spec_sale_details(data: Seq<u8>, control_number: Seq<char>) -> Result<
    Option<(Seq<(u32, u32)>, u64, u64, u64)>,
    SalesError,
> {
    match spec_search_control_number(data, control_number) {
        Err(e) => Err(e),
        Ok(None) => Ok(None),
        Ok(Some(p)) => match spec_details_at(data, p) {
            None => Err(SalesError::Truncated),
            Some(d) => Ok(Some(d)),
        },
    }
}

/// The view of a details result.
pub open spec fn details_result_view(r: Result<Option<SaleDetails>, SalesError>) -> Result<
    Option<(Seq<(u32, u32)>, u64, u64, u64)>,
    SalesError,
> {
    match r {
        Err(e) => Err(e),
        Ok(None) => Ok(None),
        Ok(Some(d)) => Ok(Some(d@)),
    }
}

/// The details of the sale with the given control number (see
/// `spec_sale_details`).
pub fn sale_details(data: &[u8], control_number: &str) -> (r: Result<Option<SaleDetails>, SalesError>)
    ensures
        details_result_view(r) == spec_sale_details(data@, control_number@),
{
    match search_control_number(data, control_number) {
        Err(e) => Err(e),
        Ok(None) => Ok(None),
        Ok(Some(p)) => match sale_details_at(data, p) {
            None => Err(SalesError::Truncated),
            Some(d) => Ok(Some(d)),
        },
    }
}

/// A control number: month and day padded with `0` to two characters, the
/// year as given, the sale number padded to four (`{:0>2}{:0>2}{}{:0>4}`).
pub fn format_control_number(month: &[char], day: &[char], year: &[char], n: u32) -> (r: Vec<char>)
    ensures
        r@ == spec_control_number(month@, day@, year@, n as nat),
{
    let mut r = pad_with_zeros(month, 2);
    let d = pad_with_zeros(day, 2);
    let num = to_decimal(n as u64);
    let nn = pad_with_zeros(num.as_slice(), 4);
    let ghost start = r@;
    append_chars(&mut r, d.as_slice());
    append_chars(&mut r, year);
    append_chars(&mut r, nn.as_slice());
    r
}

/// Appends `b` to `a`.
fn append_chars(a: &mut Vec<char>, b: &[char])
    ensures
        final(a)@ == old(a)@ + b@,
{
    let ghost start = a@;
    let mut i: usize = 0;
    while i < b.len()
        invariant
            i <= b@.len(),
            a@ == start + b@.subrange(0, i as int),
        decreases b@.len() - i,
    {
        a.push(b[i]);
        i = i + 1;
        assert(a@ =~= start + b@.subrange(0, i as int));
    }
    assert(b@.subrange(0, i as int) =~= b@);
}

/// One line of the daily sales: the control number looked for, and the
/// number of items and total of the sale found under it.
#[derive(Clone, Debug, PartialEq, Eq)]
pub struct DailySale {
    pub control_number: Vec<char>,
    /// `None` when no sale, or only part of one, was found.
    pub summary: Option<(u32, u64)>,
}

impl View for DailySale {
    type V = (Seq<char>, Option<(u32, u64)>);

    open spec fn view(&self) -> (Seq<char>, Option<(u32, u64)>) {
        (self.control_number@, self.summary)
    }
}

/// Line `i` of the daily sales: the sale numbered `i + 1` on the date.
pub open spec fn spec_daily_row(
    data: Seq<u8>,
    month: Seq<char>,
    day: Seq<char>,
    year: Seq<char>,
    i: nat,
) -> Result<(Seq<char>, Option<(u32, u64)>), SalesError> {
    let cn = spec_control_number(month, day, year, i + 1);
    match spec_search_control_number(data, cn) {
        Err(e) => Err(e),
        Ok(None) => Ok((cn, None)),
        Ok(Some(p)) => Ok((cn, spec_summary_at(data, p))),
    }
}

/// The first `k` lines of the daily sales.
pub open spec fn spec_daily_rows(
    data: Seq<u8>,
    month: Seq<char>,
    day: Seq<char>,
    year: Seq<char>,
    k: nat,
) -> Result<Seq<(Seq<char>, Option<(u32, u64)>)>, SalesError>
    decreases k,
{
    if k == 0 {
        Ok(Seq::empty())
    } else {
        match spec_daily_rows(data, month, day, year, (k - 1) as nat) {
            Err(e) => Err(e),
            Ok(rows) => match spec_daily_row(data, month, day, year, (k - 1) as nat) {
                Err(e) => Err(e),
                Ok(row) => Ok(rows.push(row)),
            },
        }
    }
}

/// Once a line of the daily sales cannot be had, neither can the later ones.
pub proof fn lemma_daily_rows_err(
    data: Seq<u8>,
    month: Seq<char>,
    day: Seq<char>,
    year: Seq<char>,
    i: nat,
    k: nat,
)
    requires
        i < k,
        spec_daily_rows(data, month, day, year, i) is Ok,
        spec_daily_row(data, month, day, year, i) is Err,
    ensures
        spec_daily_rows(data, month, day, year, k) == Err::<Seq<(Seq<char>, Option<(u32, u64)>)>, _>(
            spec_daily_row(data, month, day, year, i)->Err_0,
        ),
    decreases k,
{
    if k > i + 1 {
        lemma_daily_rows_err(data, month, day, year, i, (k - 1) as nat);
    }
}

/// The daily sales of a date: one line for each sale number from 1 to the
/// number of sales of that date (no line when there is none).
pub open spec fn spec_daily_sales(data: Seq<u8>, month: Seq<char>, day: Seq<char>, year: Seq<char>) -> Result<
    Seq<(Seq<char>, Option<(u32, u64)>)>,
    SalesError,
> {
    match spec_last_sales_number(data, year, month, day) {
        None => Err(SalesError::NotUtf8),
        Some(k) => spec_daily_rows(data, month, day, year, k),
    }
}

/// The views of a sequence of daily lines.
pub open spec fn daily_view(v: Seq<DailySale>) -> Seq<(Seq<char>, Option<(u32, u64)>)> {
    v.map_values(|d: DailySale| d@)
}

/// The daily sales of a date (see `spec_daily_sales`).
pub fn daily_sales(data: &[u8], month: &str, day: &str, year: &str) -> (r: Result<
    Vec<DailySale>,
    SalesError,
>)
    ensures
        match r {
            Ok(v) => spec_daily_sales(data@, month@, day@, year@) == Ok::<_, SalesError>(
                daily_view(v@),
            ),
            Err(e) => spec_daily_sales(data@, month@, day@, year@) == Err::<
                Seq<(Seq<char>, Option<(u32, u64)>)>,
                _,
            >(e),
        },
{
    let last = match get_last_sales_number(data, year, month, day) {
        None => return Err(SalesError::NotUtf8),
        Some(k) => k,
    };
    let mo = chars_of(month);
    let d = chars_of(day);
    let y = chars_of(year);
    let mut rows: Vec<DailySale> = Vec::new();
    let mut i: u32 = 0;
    assert(daily_view(rows@) =~= Seq::empty());
    while i < last
        invariant
            i <= last,
            spec_last_sales_number(data@, year@, month@, day@) == Some(last as nat),
            mo@ == month@,
            d@ == day@,
            y@ == year@,
            spec_daily_rows(data@, month@, day@, year@, i as nat) == Ok::<_, SalesError>(
                daily_view(rows@),
            ),
        decreases last - i,
    {
        let cn = format_control_number(mo.as_slice(), d.as_slice(), y.as_slice(), i + 1);
        let found = find_control_number(data, cn.as_slice());
        let summary = match found {
            Err(e) => {
                proof {
                    lemma_daily_rows_err(data@, month@, day@, year@, i as nat, last as nat);
                }
                return Err(e);
            },
            Ok(None) => None,
            Ok(Some(p)) => sale_summary_at(data, p),
        };
        let ghost before = daily_view(rows@);
        let row = DailySale { control_number: cn, summary };
        rows.push(row);
        assert(daily_view(rows@) =~= before.push(row@));
        i = i + 1;
    }
    Ok(rows)
}

/// The sales list: the control number, number of items and total of each of
/// `remaining` sales from `pos`.
pub open spec fn spec_overview_from(data: Seq<u8>, pos: int, remaining: nat) -> Result<
    Seq<(Seq<char>, u32, u64)>,
    SalesError,
>
    decreases remaining,
{
    if remaining == 0 {
        Ok(Seq::empty())
    } else {
        match spec_sale_head(data, pos) {
            None => Err(SalesError::Truncated),
            Some((cn, m, next)) => if next - 16 > data.len() {
                Err(SalesError::Truncated)
            } else {
                match utf8_decode(cn) {
                    None => Err(SalesError::NotUtf8),
                    Some(c) => match spec_overview_from(data, next, (remaining - 1) as nat) {
                        Err(e) => Err(e),
                        Ok(rest) => Ok(seq![(c, m, spec_read_u64(data, next - 24))] + rest),
                    },
                }
            },
        }
    }
}

/// The sales list of the file.
pub open spec fn spec_sales_overview(data: Seq<u8>) -> Result<Seq<(Seq<char>, u32, u64)>, SalesError> {
    spec_overview_from(data, 4, spec_sales_count(data) as nat)
}

/// One line of the sales list.
#[derive(Clone, Debug, PartialEq, Eq)]
pub struct SaleSummary {
    pub control_number: Vec<char>,
    pub number_items: u32,
    pub total_bits: u64,
}

impl View for SaleSummary {
    type V = (Seq<char>, u32, u64);

    open spec fn view(&self) -> (Seq<char>, u32, u64) {
        (self.control_number@, self.number_items, self.total_bits)
    }
}

/// The views of a sequence of sales-list lines.
pub open spec fn summaries_view(v: Seq<SaleSummary>) -> Seq<(Seq<char>, u32, u64)> {
    v.map_values(|s: SaleSummary| s@)
}

/// The sales list of the file (see `spec_sales_overview`).
pub fn sales_overview(data: &[u8]) -> (r: Result<Vec<SaleSummary>, SalesError>)
    ensures
        match r {
            Ok(v) => spec_sales_overview(data@) == Ok::<_, SalesError>(summaries_view(v@)),
            Err(e) => spec_sales_overview(data@) == Err::<Seq<(Seq<char>, u32, u64)>, _>(e),
        },
{
    let count = number_of_sales(data);
    let mut out: Vec<SaleSummary> = Vec::new();
    let mut pos: usize = 4;
    let mut i: u32 = 0;
    assert(summaries_view(out@) + Seq::empty() =~= Seq::<(Seq<char>, u32, u64)>::empty());
    while i < count
        invariant
            i <= count,
            count == spec_sales_count(data@),
            spec_sales_overview(data@) == match spec_overview_from(
                data@,
                pos as int,
                (count - i) as nat,
            ) {
                Err(e) => Err(e),
                Ok(rest) => Ok(summaries_view(out@) + rest),
            },
        decreases count - i,
    {
        let (cn, m, next) = match sale_head(data, pos) {
            None => return Err(SalesError::Truncated),
            Some(h) => h,
        };
        let tpos: u128 = pos as u128 + 8 + cn.len() as u128 + 8 * (m as u128);
        if tpos + 8 > data.len() as u128 {
            return Err(SalesError::Truncated);
        }
        let c = match decode_utf8(cn.as_slice()) {
            None => return Err(SalesError::NotUtf8),
            Some(c) => c,
        };
        let ghost before = summaries_view(out@);
        let total = read_u64(data, tpos as usize);
        let line = SaleSummary { control_number: c, number_items: m, total_bits: total };
        out.push(line);
        let ghost n2 = spec_sale_head(data@, pos as int).unwrap().2;
        proof {
            assert(summaries_view(out@) =~= before.push(line@));
            match spec_overview_from(data@, n2, (count - i - 1) as nat) {
                Err(e) => {},
                Ok(rest) => {
                    assert(before + (seq![line@] + rest) =~= summaries_view(out@) + rest);
                },
            }
        }
        match next {
            None => {
                if i + 1 < count {
                    proof {
                        assert(spec_sale_head(data@, n2) is None);
                    }
                    return Err(SalesError::Truncated);
                }
                proof {
                    assert(summaries_view(out@) + Seq::empty() =~= summaries_view(out@));
                }
                return Ok(out);
            },
            Some(nx) => {
                pos = nx;
            },
        }
        i = i + 1;
    }
    proof {
        assert(summaries_view(out@) + Seq::empty() =~= summaries_view(out@));
    }
    Ok(out)
}

/// The bytes of characters that are all below 128.
pub open spec fn ascii_bytes(s: Seq<char>) -> Seq<u8> {
    s.map_values(|c: char| c as u8)
}

/// The file with the count of sales replaced (the first 4 bytes overwritten).
pub open spec fn spec_set_count(data: Seq<u8>, count: u32) -> Seq<u8> {
    spec_u32_bytes(count) + if data.len() >= 4 {
        data.subrange(4, data.len() as int)
    } else {
        Seq::empty()
    }
}

/// The sales file with its count raised by one, or a new file that counts
/// one sale; `None` when the count is at `u32::MAX`.
pub open spec fn spec_recorded_base(existing: Option<Seq<u8>>) -> Option<Seq<u8>> {
    match existing {
        None => Some(spec_u32_bytes(1)),
        Some(d) => if spec_sales_count(d) == u32::MAX {
            None
        } else {
            Some(spec_set_count(d, (spec_sales_count(d) + 1) as u32))
        },
    }
}

/// The record of a new sale.
pub open spec fn spec_new_sale(
    cn: Seq<char>,
    items: Seq<(u32, u32)>,
    total_bits: u64,
    tendered_bits: u64,
    change_bits: u64,
) -> SpecSale {
    SpecSale { control_number: ascii_bytes(cn), items, total_bits, tendered_bits, change_bits }
}

/// Recording a sale of the given date: the count goes up by one, the sale is
/// numbered one past the number of sales of that date already in the file
/// (counted after the count was raised, as the file is then), and its record
/// goes at the end. Also the sale's control number.
#[verifier::opaque]
pub open spec fn spec_record_sale(
    existing: Option<Seq<u8>>,
    month: u32,
    day: u32,
    year: u32,
    items: Seq<(u32, u32)>,
    total_bits: u64,
    tendered_bits: u64,
    change_bits: u64,
) -> Result<(Seq<u8>, Seq<char>), SalesError> {
    match spec_recorded_base(existing) {
        None => Err(SalesError::Overflow),
        Some(base) => match spec_last_sales_number(
            base,
            decimal(year as nat),
            decimal(month as nat),
            decimal(day as nat),
        ) {
            None => Err(SalesError::NotUtf8),
            Some(k) => if k >= u32::MAX {
                Err(SalesError::Overflow)
            } else {
                let cn = spec_control_number(
                    decimal(month as nat),
                    decimal(day as nat),
                    decimal(year as nat),
                    k + 1,
                );
                Ok(
                    (
                        base + spec_sale_bytes(
                            spec_new_sale(cn, items, total_bits, tendered_bits, change_bits),
                        ),
                        cn,
                    ),
                )
            },
        },
    }
}

/// A recorded sale: the new contents of the sales file and the control number.
#[derive(Clone, Debug, PartialEq, Eq)]
pub struct RecordedSale {
    pub file: Vec<u8>,
    pub control_number: Vec<char>,
}

/// The file with its count raised by one, or a new file (see
/// `spec_recorded_base`).
fn raise_count(existing: Option<&[u8]>) -> (r: Option<Vec<u8>>)
    ensures
        ({
            let ex = match existing {
                Some(d) => Some(d@),
                None => None,
            };
            match r {
                Some(v) => spec_recorded_base(ex) == Some(v@),
                None => spec_recorded_base(ex) is None,
            }
        }),
{
    let mut base: Vec<u8> = Vec::new();
    match existing {
        None => {
            push_u32(&mut base, 1);
            assert(base@ =~= spec_u32_bytes(1));
        },
        Some(d) => {
            let count = number_of_sales(d);
            if count == u32::MAX {
                return None;
            }
            push_u32(&mut base, count + 1);
            if d.len() >= 4 {
                push_range(&mut base, d, 4, d.len());
            } else {
                assert(base@ =~= base@ + Seq::<u8>::empty());
            }
        },
    }
    Some(base)
}

/// The bytes of a new sale's record.
fn encode_new_sale(
    cn: &[char],
    items: &[(u32, u32)],
    total_bits: u64,
    tendered_bits: u64,
    change_bits: u64,
) -> (r: Vec<u8>)
    ensures
        r@ == spec_sale_bytes(spec_new_sale(cn@, items@, total_bits, tendered_bits, change_bits)),
{
    let mut cn_bytes: Vec<u8> = Vec::new();
    let mut i: usize = 0;
    while i < cn.len()
        invariant
            i <= cn@.len(),
            cn_bytes@ == ascii_bytes(cn@.subrange(0, i as int)),
        decreases cn@.len() - i,
    {
        cn_bytes.push(cn[i] as u8);
        i = i + 1;
        assert(cn_bytes@ =~= ascii_bytes(cn@.subrange(0, i as int)));
    }
    assert(cn@.subrange(0, i as int) =~= cn@);
    let mut file: Vec<u8> = Vec::new();
    push_u32(&mut file, #[verifier::truncate] (cn_bytes.len() as u32));
    push_bytes(&mut file, cn_bytes.as_slice());
    push_u32(&mut file, #[verifier::truncate] (items.len() as u32));
    let ghost before_pairs = file@;
    let mut j: usize = 0;
    proof {
        reveal(spec_pairs_bytes);
        assert(items@.subrange(0, 0) =~= Seq::<(u32, u32)>::empty());
        assert(file@ =~= before_pairs + spec_pairs_bytes(items@.subrange(0, 0)));
    }
    while j < items.len()
        invariant
            j <= items@.len(),
            file@ == before_pairs + spec_pairs_bytes(items@.subrange(0, j as int)),
        decreases items@.len() - j,
    {
        let ghost prev = items@.subrange(0, j as int);
        push_u32(&mut file, items[j].0);
        push_u32(&mut file, items[j].1);
        proof {
            reveal(spec_pairs_bytes);
            let now = items@.subrange(0, j + 1);
            assert(now.drop_last() =~= prev);
            assert(now.last() == items@[j as int]);
            assert(file@ =~= before_pairs + spec_pairs_bytes(now));
        }
        j = j + 1;
    }
    assert(items@.subrange(0, j as int) =~= items@);
    push_u64(&mut file, total_bits);
    push_u64(&mut file, tendered_bits);
    push_u64(&mut file, change_bits);
    proof {
        let sale = spec_new_sale(cn@, items@, total_bits, tendered_bits, change_bits);
        assert(sale.control_number == cn_bytes@);
        assert(file@ =~= spec_sale_bytes(sale));
    }
    file
}

/// Records a sale (see `spec_record_sale`); `existing` is the sales file when
/// there is one.
pub fn record_sale(
    existing: Option<&[u8]>,
    month: u32,
    day: u32,
    year: u32,
    items: &[(u32, u32)],
    total_bits: u64,
    tendered_bits: u64,
    change_bits: u64,
) -> (r: Result<RecordedSale, SalesError>)
    ensures
        ({
            let ex = match existing {
                Some(d) => Some(d@),
                None => None,
            };
            match r {
                Ok(rec) => spec_record_sale(
                    ex,
                    month,
                    day,
                    year,
                    items@,
                    total_bits,
                    tendered_bits,
                    change_bits,
                ) == Ok::<_, SalesError>((rec.file@, rec.control_number@)),
                Err(e) => spec_record_sale(
                    ex,
                    month,
                    day,
                    year,
                    items@,
                    total_bits,
                    tendered_bits,
                    change_bits,
                ) == Err::<(Seq<u8>, Seq<char>), _>(e),
            }
        }),
{
    proof {
        reveal(spec_record_sale);
    }
    let mut file = match raise_count(existing) {
        None => return Err(SalesError::Overflow),
        Some(b) => b,
    };
    let y = to_decimal(year as u64);
    let mo = to_decimal(month as u64);
    let dd = to_decimal(day as u64);
    let k = match count_sales_on_date(file.as_slice(), y.as_slice(), mo.as_slice(), dd.as_slice()) {
        None => return Err(SalesError::NotUtf8),
        Some(k) => k,
    };
    if k == u32::MAX {
        return Err(SalesError::Overflow);
    }
    let cn = format_control_number(mo.as_slice(), dd.as_slice(), y.as_slice(), k + 1);
    let record = encode_new_sale(cn.as_slice(), items, total_bits, tendered_bits, change_bits);
    push_bytes(&mut file, record.as_slice());
    Ok(RecordedSale { file, control_number: cn })
}

/// A sale reads the same from any file that holds the same bytes where it stands.
#[verifier::spinoff_prover]
pub proof fn lemma_parse_sale_local(d: Seq<u8>, r: Seq<u8>, pos: int)
    requires
        spec_parse_sale(d, pos) is Some,
        r.len() >= spec_parse_sale(d, pos).unwrap().1,
        forall|i: int| pos <= i < spec_parse_sale(d, pos).unwrap().1 ==> r[i] == d[i],
    ensures
        spec_parse_sale(r, pos) == spec_parse_sale(d, pos),
        spec_sale_head(r, pos) == spec_sale_head(d, pos),
{
    reveal(spec_parse_sale);
    let next = spec_parse_sale(d, pos).unwrap().1;
    let n = spec_read_u32(d, pos) as int;
    assert(spec_read_u32(r, pos) == spec_read_u32(d, pos));
    let m = spec_read_u32(d, pos + 4 + n) as int;
    assert(spec_read_u32(r, pos + 4 + n) == m);
    assert(r.subrange(pos + 4, pos + 4 + n) =~= d.subrange(pos + 4, pos + 4 + n));
    assert(spec_sale_head(r, pos) == spec_sale_head(d, pos));
    let q = pos + 8 + n;
    assert forall|k: int| 0 <= k < m implies #[trigger] spec_read_pairs(r, q, m as nat)[k]
        == spec_read_pairs(d, q, m as nat)[k] by {
        assert(spec_read_u32(r, q + 8 * k) == spec_read_u32(d, q + 8 * k));
        assert(spec_read_u32(r, q + 8 * k + 4) == spec_read_u32(d, q + 8 * k + 4));
    }
    assert(spec_read_pairs(r, q, m as nat) =~= spec_read_pairs(d, q, m as nat));
    assert(spec_read_u64(r, next - 24) == spec_read_u64(d, next - 24));
    assert(spec_read_u64(r, next - 16) == spec_read_u64(d, next - 16));
    assert(spec_read_u64(r, next - 8) == spec_read_u64(d, next - 8));
}

/// What a sale that reads tells of where it lies.
pub proof fn lemma_parse_sale_bounds(d: Seq<u8>, pos: int)
    requires
        spec_parse_sale(d, pos) is Some,
    ensures
        0 <= pos < spec_parse_sale(d, pos).unwrap().1 <= d.len(),
{
    reveal(spec_parse_sale);
}

/// The first step of a run of sales that reads.
pub proof fn lemma_parse_sales_step(data: Seq<u8>, pos: int, count: nat)
    requires
        count > 0,
        spec_parse_sales(data, pos, count) is Some,
    ensures
        spec_parse_sale(data, pos) is Some,
        spec_parse_sales(data, spec_parse_sale(data, pos).unwrap().1, (count - 1) as nat) is Some,
        spec_parse_sales(data, pos, count).unwrap().0 == seq![spec_parse_sale(data, pos).unwrap().0]
            + spec_parse_sales(data, spec_parse_sale(data, pos).unwrap().1, (count - 1) as nat).unwrap().0,
        spec_parse_sales(data, pos, count).unwrap().1 == spec_parse_sales(
            data,
            spec_parse_sale(data, pos).unwrap().1,
            (count - 1) as nat,
        ).unwrap().1,
{
    reveal(spec_parse_sales);
}

/// Where a run of sales that reads ends.
pub proof fn lemma_parse_sales_bounds(data: Seq<u8>, pos: int, count: nat)
    requires
        spec_parse_sales(data, pos, count) is Some,
    ensures
        pos <= spec_parse_sales(data, pos, count).unwrap().1,
        count > 0 ==> spec_parse_sales(data, pos, count).unwrap().1 <= data.len(),
        spec_parse_sales(data, pos, count).unwrap().0.len() == count,
    decreases count,
{
    if count == 0 {
        reveal(spec_parse_sales);
    } else {
        lemma_parse_sales_step(data, pos, count);
        let next = spec_parse_sale(data, pos).unwrap().1;
        lemma_parse_sale_bounds(data, pos);
        lemma_parse_sales_bounds(data, next, (count - 1) as nat);
        if count == 1 {
            reveal(spec_parse_sales);
        }
    }
}

/// A run of sales reads the same from any file that holds the same bytes where it stands.
pub proof fn lemma_parse_sales_local(d: Seq<u8>, r: Seq<u8>, pos: int, count: nat)
    requires
        spec_parse_sales(d, pos, count) is Some,
        r.len() >= spec_parse_sales(d, pos, count).unwrap().1,
        forall|i: int| pos <= i < spec_parse_sales(d, pos, count).unwrap().1 ==> r[i] == d[i],
    ensures
        spec_parse_sales(r, pos, count) == spec_parse_sales(d, pos, count),
    decreases count,
{
    if count == 0 {
        reveal(spec_parse_sales);
    } else {
        lemma_parse_sales_step(d, pos, count);
        let next = spec_parse_sale(d, pos).unwrap().1;
        lemma_parse_sale_bounds(d, pos);
        lemma_parse_sales_bounds(d, next, (count - 1) as nat);
        lemma_parse_sale_local(d, r, pos);
        lemma_parse_sales_local(d, r, next, (count - 1) as nat);
        reveal(spec_parse_sales);
    }
}

/// A run of sales followed by one more sale is a run one longer.
pub proof fn lemma_parse_sales_extend(data: Seq<u8>, pos: int, count: nat)
    requires
        spec_parse_sales(data, pos, count) is Some,
        spec_parse_sale(data, spec_parse_sales(data, pos, count).unwrap().1) is Some,
    ensures
        spec_parse_sales(data, pos, count + 1) == Some(
            (
                spec_parse_sales(data, pos, count).unwrap().0.push(
                    spec_parse_sale(data, spec_parse_sales(data, pos, count).unwrap().1).unwrap().0,
                ),
                spec_parse_sale(data, spec_parse_sales(data, pos, count).unwrap().1).unwrap().1,
            ),
        ),
    decreases count,
{
    reveal(spec_parse_sales);
    let end = spec_parse_sales(data, pos, count).unwrap().1;
    let x = spec_parse_sale(data, end).unwrap().0;
    if count == 0 {
        reveal_with_fuel(spec_parse_sales, 2);
        assert(seq![x] + Seq::<SpecSale>::empty() =~= Seq::<SpecSale>::empty().push(x));
    } else {
        lemma_parse_sales_step(data, pos, count);
        let next = spec_parse_sale(data, pos).unwrap().1;
        lemma_parse_sales_extend(data, next, (count - 1) as nat);
        let first = spec_parse_sale(data, pos).unwrap().0;
        let rest = spec_parse_sales(data, next, (count - 1) as nat).unwrap().0;
        assert(seq![first] + rest.push(x) =~= (seq![first] + rest).push(x));
    }
}

/// The head of a sale that reads is its first fields.
pub proof fn lemma_head_of_parse(d: Seq<u8>, pos: int)
    requires
        spec_parse_sale(d, pos) is Some,
    ensures
        spec_sale_head(d, pos) is Some,
        spec_sale_head(d, pos).unwrap().2 == spec_parse_sale(d, pos).unwrap().1,
        spec_sale_head(d, pos).unwrap().0 == spec_parse_sale(d, pos).unwrap().0.control_number,
{
    reveal(spec_parse_sale);
}

/// The search reads the same from any file that holds the same bytes where
/// the sales it walks stand.
pub proof fn lemma_find_local(d: Seq<u8>, r: Seq<u8>, pos: int, count: nat, t: Seq<char>)
    requires
        spec_parse_sales(d, pos, count) is Some,
        r.len() >= spec_parse_sales(d, pos, count).unwrap().1,
        forall|i: int| pos <= i < spec_parse_sales(d, pos, count).unwrap().1 ==> r[i] == d[i],
    ensures
        spec_find_from(r, pos, count, t) == spec_find_from(d, pos, count, t),
    decreases count,
{
    if count > 0 {
        lemma_parse_sales_step(d, pos, count);
        let next = spec_parse_sale(d, pos).unwrap().1;
        lemma_parse_sale_bounds(d, pos);
        lemma_parse_sales_bounds(d, next, (count - 1) as nat);
        lemma_parse_sale_local(d, r, pos);
        lemma_head_of_parse(d, pos);
        lemma_find_local(d, r, next, (count - 1) as nat, t);
    }
}

/// A search that finds nothing among the first sales of a run goes on with
/// the sale after them.
pub proof fn lemma_find_extend(r: Seq<u8>, pos: int, count: nat, t: Seq<char>)
    requires
        spec_parse_sales(r, pos, count) is Some,
        spec_find_from(r, pos, count, t) == Ok::<Option<int>, SalesError>(None),
    ensures
        spec_find_from(r, pos, count + 1, t) == spec_find_from(
            r,
            spec_parse_sales(r, pos, count).unwrap().1,
            1,
            t,
        ),
    decreases count,
{
    if count == 0 {
        reveal(spec_parse_sales);
    } else {
        lemma_parse_sales_step(r, pos, count);
        let next = spec_parse_sale(r, pos).unwrap().1;
        lemma_head_of_parse(r, pos);
        lemma_find_extend(r, next, (count - 1) as nat, t);
    }
}

/// A control number made of numbers is digits only, at most 40 of them, and
/// its bytes are the codes of its characters.
pub proof fn lemma_control_number_digits(month: u32, day: u32, year: u32, n: u32)
    ensures
        ({
            let cn = spec_control_number(
                decimal(month as nat),
                decimal(day as nat),
                decimal(year as nat),
                n as nat,
            );
            &&& all_digits(cn)
            &&& cn.len() <= 40
            &&& ascii_bytes(cn).len() == cn.len()
            &&& ascii_chars(ascii_bytes(cn)) == cn
        }),
{
    let a = pad_zeros(decimal(month as nat), 2);
    let b = pad_zeros(decimal(day as nat), 2);
    let c = decimal(year as nat);
    let e = pad_zeros(decimal(n as nat), 4);
    lemma_decimal_digits(month as nat);
    lemma_decimal_digits(day as nat);
    lemma_decimal_digits(year as nat);
    lemma_decimal_digits(n as nat);
    lemma_decimal_len_u32(month);
    lemma_decimal_len_u32(day);
    lemma_decimal_len_u32(year);
    lemma_decimal_len_u32(n);
    lemma_pad_zeros_digits(decimal(month as nat), 2);
    lemma_pad_zeros_digits(decimal(day as nat), 2);
    lemma_pad_zeros_digits(decimal(n as nat), 4);
    let cn = a + b + c + e;
    assert forall|i: int| 0 <= i < cn.len() implies is_digit(#[trigger] cn[i]) by {
        if i < a.len() {
            assert(cn[i] == a[i]);
        } else if i < a.len() + b.len() {
            assert(cn[i] == b[i - a.len()]);
        } else if i < a.len() + b.len() + c.len() {
            assert(cn[i] == c[i - a.len() - b.len()]);
        } else {
            assert(cn[i] == e[i - a.len() - b.len() - c.len()]);
        }
    }
    assert(ascii_chars(ascii_bytes(cn)) =~= cn);
}

/// The sales of the file before recording (none when there is no file).
pub open spec fn spec_old_sales(existing: Option<Seq<u8>>) -> Seq<SpecSale> {
    match existing {
        Some(d) => match spec_sales_file(d) {
            Some(s) => s,
            None => Seq::empty(),
        },
        None => Seq::empty(),
    }
}

/// Where the records of the file before recording end.
pub open spec fn spec_old_end(existing: Option<Seq<u8>>) -> int {
    match existing {
        Some(d) => d.len() as int,
        None => 4,
    }
}

/// Recording a sale on an exact sales file (or on no file) gives an exact
/// file whose sales are the old ones followed by the new one, its control
/// number's bytes, items and amounts as given.
#[verifier::spinoff_prover]
pub proof fn law_record_sale_appends(
    existing: Option<Seq<u8>>,
    month: u32,
    day: u32,
    year: u32,
    items: Seq<(u32, u32)>,
    total_bits: u64,
    tendered_bits: u64,
    change_bits: u64,
)
    requires
        existing matches Some(d) ==> is_exact_sales_file(d),
        items.len() <= u32::MAX,
        spec_record_sale(existing, month, day, year, items, total_bits, tendered_bits, change_bits)
            is Ok,
    ensures
        ({
            let rec = spec_record_sale(
                existing,
                month,
                day,
                year,
                items,
                total_bits,
                tendered_bits,
                change_bits,
            ).unwrap();
            let sale = spec_new_sale(rec.1, items, total_bits, tendered_bits, change_bits);
            &&& is_exact_sales_file(rec.0)
            &&& spec_sales_file(rec.0) == Some(spec_old_sales(existing).push(sale))
            &&& spec_parse_sales(rec.0, 4, spec_old_sales(existing).len()) == Some(
                (spec_old_sales(existing), spec_old_end(existing)),
            )
            &&& spec_parse_sale(rec.0, spec_old_end(existing)) == Some((sale, rec.0.len() as int))
            &&& spec_read_u32(rec.0, 0) == spec_old_sales(existing).len() + 1
            &&& spec_old_end(existing) <= rec.0.len()
            &&& existing matches Some(d) ==> spec_old_sales(existing).len() == spec_read_u32(d, 0)
            &&& existing matches Some(d) ==> forall|i: int|
                4 <= i < d.len() ==> #[trigger] rec.0[i] == d[i]
        }),
{
    reveal(spec_record_sale);
    let rec = spec_record_sale(
        existing,
        month,
        day,
        year,
        items,
        total_bits,
        tendered_bits,
        change_bits,
    ).unwrap();
    let r = rec.0;
    let cn = rec.1;
    let base = spec_recorded_base(existing).unwrap();
    let k = spec_last_sales_number(
        base,
        decimal(year as nat),
        decimal(month as nat),
        decimal(day as nat),
    ).unwrap();
    lemma_control_number_digits(month, day, year, (k + 1) as u32);
    let sale = spec_new_sale(cn, items, total_bits, tendered_bits, change_bits);
    let sb = spec_sale_bytes(sale);
    assert(r == base + sb);
    let old_end = spec_old_end(existing);
    let old = spec_old_sales(existing);
    match existing {
        None => {
            reveal(spec_parse_sales);
            assert(old =~= Seq::<SpecSale>::empty());
            assert(spec_parse_sales(r, 4, 0) == Some((old, 4int)));
        },
        Some(d) => {
            let cnt = spec_read_u32(d, 0);
            assert(spec_sales_count(d) == cnt);
            lemma_parse_sales_bounds(d, 4, cnt as nat);
            assert forall|i: int| 4 <= i < d.len() implies r[i] == d[i] by {
                assert(r[i] == base[i]);
            }
            lemma_parse_sales_local(d, r, 4, cnt as nat);
        },
    }
    lemma_parse_sales_bounds(r, 4, old.len());
    assert(r.subrange(old_end, old_end + sb.len()) =~= sb);
    lemma_parse_sale_sub(r, old_end, sale);
    lemma_parse_sales_extend(r, 4, old.len());
    assert(base =~= spec_u32_bytes((old.len() + 1) as u32) + base.subrange(4, base.len() as int));
    lemma_read_u32_at(Seq::empty(), (old.len() + 1) as u32, base.subrange(4, base.len() as int) + sb);
    assert(r =~= Seq::<u8>::empty() + spec_u32_bytes((old.len() + 1) as u32) + (base.subrange(
        4,
        base.len() as int,
    ) + sb));
}

/// A recorded sale is found by its control number: when no sale already in
/// the file carries the same fields (and the control number's bytes decode as
/// itself, which the UTF-8 decoder states of ASCII), searching the new file
/// for the control number stops just after the new sale's control number.
#[verifier::spinoff_prover]
pub proof fn law_recorded_sale_found(
    existing: Option<Seq<u8>>,
    month: u32,
    day: u32,
    year: u32,
    items: Seq<(u32, u32)>,
    total_bits: u64,
    tendered_bits: u64,
    change_bits: u64,
)
    requires
        existing matches Some(d) ==> is_exact_sales_file(d),
        items.len() <= u32::MAX,
        spec_record_sale(existing, month, day, year, items, total_bits, tendered_bits, change_bits)
            is Ok,
        ({
            let cn = spec_record_sale(
                existing,
                month,
                day,
                year,
                items,
                total_bits,
                tendered_bits,
                change_bits,
            ).unwrap().1;
            &&& utf8_decode(ascii_bytes(cn)) == Some(cn)
            &&& existing matches Some(d) ==> spec_find_from(
                d,
                4,
                spec_old_sales(existing).len(),
                cn,
            ) == Ok::<Option<int>, SalesError>(None)
        }),
    ensures
        ({
            let rec = spec_record_sale(
                existing,
                month,
                day,
                year,
                items,
                total_bits,
                tendered_bits,
                change_bits,
            ).unwrap();
            spec_search_control_number(rec.0, rec.1) == Ok::<Option<int>, SalesError>(
                Some(spec_old_end(existing) + 4 + rec.1.len()),
            )
        }),
{
    law_record_sale_appends(
        existing,
        month,
        day,
        year,
        items,
        total_bits,
        tendered_bits,
        change_bits,
    );
    let rec = spec_record_sale(
        existing,
        month,
        day,
        year,
        items,
        total_bits,
        tendered_bits,
        change_bits,
    ).unwrap();
    let r = rec.0;
    let cn = rec.1;
    let old = spec_old_sales(existing);
    let old_end = spec_old_end(existing);
    assert(spec_sales_count(r) == spec_read_u32(r, 0));
    match existing {
        None => {
            reveal(spec_parse_sales);
            assert(spec_find_from(r, 4, 0, cn) == Ok::<Option<int>, SalesError>(None));
        },
        Some(d) => {
            let cnt = spec_read_u32(d, 0);
            lemma_parse_sales_bounds(d, 4, cnt as nat);
            lemma_find_local(d, r, 4, cnt as nat, cn);
        },
    }
    lemma_find_extend(r, 4, old.len(), cn);
    lemma_head_of_parse(r, old_end);
    assert(same_control_fields(cn, cn));
    assert(ascii_bytes(cn).len() == cn.len());
}

/// The count over a run of sales followed by one more sale adds the count
/// over that sale.
pub proof fn lemma_count_extend(
    r: Seq<u8>,
    pos: int,
    count: nat,
    year: Seq<char>,
    month: Seq<char>,
    day: Seq<char>,
)
    requires
        spec_parse_sales(r, pos, count) is Some,
    ensures
        spec_count_from(r, pos, count + 1, year, month, day) == match (
            spec_count_from(r, pos, count, year, month, day),
            spec_count_from(r, spec_parse_sales(r, pos, count).unwrap().1, 1, year, month, day),
        ) {
            (Some(a), Some(b)) => Some(a + b),
            _ => None,
        },
    decreases count,
{
    if count == 0 {
        reveal(spec_parse_sales);
    } else {
        lemma_parse_sales_step(r, pos, count);
        let next = spec_parse_sale(r, pos).unwrap().1;
        lemma_head_of_parse(r, pos);
        lemma_count_extend(r, next, (count - 1) as nat, year, month, day);
    }
}

/// The count reads the same from any file that holds the same bytes where
/// the sales it walks stand.
pub proof fn lemma_count_local(
    d: Seq<u8>,
    r: Seq<u8>,
    pos: int,
    count: nat,
    year: Seq<char>,
    month: Seq<char>,
    day: Seq<char>,
)
    requires
        spec_parse_sales(d, pos, count) is Some,
        r.len() >= spec_parse_sales(d, pos, count).unwrap().1,
        forall|i: int| pos <= i < spec_parse_sales(d, pos, count).unwrap().1 ==> r[i] == d[i],
    ensures
        spec_count_from(r, pos, count, year, month, day) == spec_count_from(
            d,
            pos,
            count,
            year,
            month,
            day,
        ),
    decreases count,
{
    if count > 0 {
        lemma_parse_sales_step(d, pos, count);
        let next = spec_parse_sale(d, pos).unwrap().1;
        lemma_parse_sale_bounds(d, pos);
        lemma_parse_sales_bounds(d, next, (count - 1) as nat);
        lemma_parse_sale_local(d, r, pos);
        lemma_head_of_parse(d, pos);
        lemma_count_local(d, r, next, (count - 1) as nat, year, month, day);
    }
}

/// One-character clusters put back together give the characters.
pub proof fn lemma_one_char_clusters_field(s: Seq<char>, a: int, b: int)
    requires
        0 <= a <= b <= s.len(),
    ensures
        one_char_clusters(s).subrange(a, b).flatten() == s.subrange(a, b),
    decreases b - a,
{
    let t = one_char_clusters(s).subrange(a, b);
    if a < b {
        lemma_one_char_clusters_field(s, a + 1, b);
        assert(t.drop_first() =~= one_char_clusters(s).subrange(a + 1, b));
        assert(t.first() =~= seq![s[a]]);
        assert(s.subrange(a, b) =~= seq![s[a]] + s.subrange(a + 1, b));
    } else {
        assert(s.subrange(a, b) =~= Seq::<char>::empty());
    }
}

/// A number from 1000 to 9999 has four digits.
pub proof fn lemma_four_digits(n: nat)
    requires
        1000 <= n < 10000,
    ensures
        decimal(n).len() == 4,
{
    let a = n / 10;
    let b = a / 10;
    let c = b / 10;
    assert(1 <= c < 10);
    assert(decimal(c).len() == 1);
    assert(decimal(b).len() == 2);
    assert(decimal(a).len() == 3);
}

/// A control number is of its own date when the year has four digits, the
/// month and day at most two, and it splits into one-character clusters.
pub proof fn lemma_control_number_on_date(month: u32, day: u32, year: u32, n: nat)
    requires
        month < 100,
        day < 100,
        1000 <= year < 10000,
        ({
            let cn = spec_control_number(
                decimal(month as nat),
                decimal(day as nat),
                decimal(year as nat),
                n,
            );
            extended_graphemes(cn) == one_char_clusters(cn)
        }),
    ensures
        sale_on_date(
            spec_control_number(decimal(month as nat), decimal(day as nat), decimal(year as nat), n),
            decimal(year as nat),
            decimal(month as nat),
            decimal(day as nat),
        ),
{
    let m = decimal(month as nat);
    let d = decimal(day as nat);
    let y = decimal(year as nat);
    let cn = spec_control_number(m, d, y, n);
    let pm = pad_zeros(m, 2);
    let pd = pad_zeros(d, 2);
    let pn = pad_zeros(decimal(n), 4);
    reveal_with_fuel(pow10, 3);
    lemma_decimal_len(month as nat, 2);
    lemma_decimal_len(day as nat, 2);
    lemma_four_digits(year as nat);
    assert(pm.len() == 2);
    assert(pd.len() == 2);
    assert(cn == pm + pd + y + pn);
    let g = extended_graphemes(cn);
    assert(g.len() == cn.len());
    lemma_one_char_clusters_field(cn, 0, 2);
    lemma_one_char_clusters_field(cn, 2, 4);
    lemma_one_char_clusters_field(cn, 4, 8);
    assert(cn.subrange(0, 2) =~= pm);
    assert(cn.subrange(2, 4) =~= pd);
    assert(cn.subrange(4, 8) =~= y);
}

/// Raising the count of a file for a sale not yet written leaves the count
/// of the sales of a date as it was (the walk stops where the file ends).
pub proof fn lemma_raised_count_same(
    existing: Option<Seq<u8>>,
    year: Seq<char>,
    month: Seq<char>,
    day: Seq<char>,
)
    requires
        existing matches Some(f) ==> is_exact_sales_file(f),
        spec_recorded_base(existing) is Some,
    ensures
        spec_last_sales_number(spec_recorded_base(existing).unwrap(), year, month, day) == match existing {
            Some(f) => spec_last_sales_number(f, year, month, day),
            None => Some(0nat),
        },
{
    let base = spec_recorded_base(existing).unwrap();
    match existing {
        None => {
            lemma_u32_roundtrip(1);
            assert(spec_sales_count(base) == 1);
            assert(spec_sale_head(base, 4) is None);
        },
        Some(f) => {
            let cnt = spec_read_u32(f, 0);
            assert(spec_sales_count(f) == cnt);
            let rest = f.subrange(4, f.len() as int);
            lemma_u32_roundtrip((cnt + 1) as u32);
            lemma_read_u32_at(Seq::empty(), (cnt + 1) as u32, rest);
            assert(base =~= Seq::<u8>::empty() + spec_u32_bytes((cnt + 1) as u32) + rest);
            assert(spec_sales_count(base) == cnt + 1);
            lemma_parse_sales_bounds(f, 4, cnt as nat);
            assert forall|i: int| 4 <= i < f.len() implies base[i] == f[i] by {
                assert(base[i] == rest[i - 4]);
            }
            lemma_parse_sales_local(f, base, 4, cnt as nat);
            lemma_count_local(f, base, 4, cnt as nat, year, month, day);
            lemma_count_extend(base, 4, cnt as nat, year, month, day);
            assert(spec_sale_head(base, f.len() as int) is None);
        },
    }
}

/// The count over a file whose last sale is of the date is one more than the
/// count over the sales before it.
pub proof fn lemma_last_sale_counted(
    r: Seq<u8>,
    n: nat,
    cn: Seq<char>,
    year: Seq<char>,
    month: Seq<char>,
    day: Seq<char>,
)
    requires
        spec_parse_sales(r, 4, n) is Some,
        spec_parse_sale(r, spec_parse_sales(r, 4, n).unwrap().1) is Some,
        spec_parse_sale(r, spec_parse_sales(r, 4, n).unwrap().1).unwrap().0.control_number
            == ascii_bytes(cn),
        utf8_decode(ascii_bytes(cn)) == Some(cn),
        sale_on_date(cn, year, month, day),
    ensures
        spec_count_from(r, 4, n + 1, year, month, day) == match spec_count_from(
            r,
            4,
            n,
            year,
            month,
            day,
        ) {
            Some(a) => Some(a + 1),
            None => None,
        },
{
    let end = spec_parse_sales(r, 4, n).unwrap().1;
    lemma_count_extend(r, 4, n, year, month, day);
    lemma_head_of_parse(r, end);
    let next = spec_sale_head(r, end).unwrap().2;
    assert(spec_count_from(r, next, 0, year, month, day) == Some(0nat));
    assert(spec_count_from(r, end, 1, year, month, day) == Some(1nat));
}

/// A recorded sale is counted for its date: when the year has four digits
/// and the month and day at most two, counting the sales of that date in the
/// new file gives one more than in the file before, and that count is the
/// number in the new sale's control number. The control number is digits, so
/// its bytes decode as itself and it splits into one-character clusters, as
/// the decoder and the segmenter state of ASCII text; the law takes those two
/// facts about the named results as given.
#[verifier::spinoff_prover]
pub proof fn law_recorded_sale_counted(
    existing: Option<Seq<u8>>,
    month: u32,
    day: u32,
    year: u32,
    items: Seq<(u32, u32)>,
    total_bits: u64,
    tendered_bits: u64,
    change_bits: u64,
)
    requires
        existing matches Some(d) ==> is_exact_sales_file(d),
        items.len() <= u32::MAX,
        spec_record_sale(existing, month, day, year, items, total_bits, tendered_bits, change_bits)
            is Ok,
        month < 100,
        day < 100,
        1000 <= year < 10000,
        ({
            let cn = spec_record_sale(
                existing,
                month,
                day,
                year,
                items,
                total_bits,
                tendered_bits,
                change_bits,
            ).unwrap().1;
            &&& utf8_decode(ascii_bytes(cn)) == Some(cn)
            &&& extended_graphemes(cn) == one_char_clusters(cn)
        }),
    ensures
        ({
            let rec = spec_record_sale(
                existing,
                month,
                day,
                year,
                items,
                total_bits,
                tendered_bits,
                change_bits,
            ).unwrap();
            let y = decimal(year as nat);
            let m = decimal(month as nat);
            let d = decimal(day as nat);
            let before = match existing {
                Some(f) => spec_last_sales_number(f, y, m, d),
                None => Some(0nat),
            };
            &&& before is Some
            &&& spec_last_sales_number(rec.0, y, m, d) == Some(before.unwrap() + 1)
            &&& rec.1 == spec_control_number(m, d, y, before.unwrap() + 1)
        }),
{
    law_record_sale_appends(
        existing,
        month,
        day,
        year,
        items,
        total_bits,
        tendered_bits,
        change_bits,
    );
    let rec = spec_record_sale(
        existing,
        month,
        day,
        year,
        items,
        total_bits,
        tendered_bits,
        change_bits,
    ).unwrap();
    let r = rec.0;
    let cn = rec.1;
    let y = decimal(year as nat);
    let m = decimal(month as nat);
    let dd = decimal(day as nat);
    let before = match existing {
        Some(f) => spec_last_sales_number(f, y, m, dd),
        None => Some(0nat),
    };
    lemma_raised_count_same(existing, y, m, dd);
    assert(before is Some && cn == spec_control_number(m, dd, y, before.unwrap() + 1)) by {
        reveal(spec_record_sale);
    }
    let k = before.unwrap();
    let n = spec_old_sales(existing).len();
    lemma_control_number_on_date(month, day, year, k + 1);
    lemma_last_sale_counted(r, n, cn, y, m, dd);
    assert(spec_sales_count(r) == n + 1);
    match existing {
        None => {
            reveal(spec_parse_sales);
        },
        Some(f) => {
            let cnt = spec_read_u32(f, 0);
            lemma_parse_sales_bounds(f, 4, cnt as nat);
            lemma_count_local(f, r, 4, cnt as nat, y, m, dd);
        },
    }
}

/// Whether the sale whose head is at `q` has a control number that decodes
/// to characters agreeing with `target` in all four fields (month, day,
/// year, number), and `p` is the position just after that control number.
pub open spec fn sale_agrees_at(data: Seq<u8>, q: int, p: int, target: Seq<char>) -> bool {
    &&& spec_sale_head(data, q) matches Some((cn, m, next))
    &&& p == q + 4 + cn.len()
    &&& utf8_decode(cn) matches Some(c)
    &&& char_field(c, 0, 2) == char_field(target, 0, 2)
    &&& char_field(c, 2, 2) == char_field(target, 2, 2)
    &&& char_field(c, 4, 4) == char_field(target, 4, 4)
    &&& char_field(c, 8, 4) == char_field(target, 8, 4)
}

/// A position that the walk of the search stops at lies just after a
/// control number that agrees with the target in all four fields.
pub proof fn lemma_find_agrees(data: Seq<u8>, pos: int, remaining: nat, target: Seq<char>)
    ensures
        spec_find_from(data, pos, remaining, target) matches Ok(Some(p)) ==> exists|q: int|
            #[trigger] sale_agrees_at(data, q, p, target),
    decreases remaining,
{
    let r = spec_find_from(data, pos, remaining, target);
    if r is Ok && r->Ok_0 is Some {
        let p = r->Ok_0->Some_0;
        let (cn, m, next) = spec_sale_head(data, pos).unwrap();
        let c = utf8_decode(cn).unwrap();
        if same_control_fields(target, c) {
            assert(p == pos + 4 + cn.len());
            assert(sale_agrees_at(data, pos, p, target));
        } else {
            assert(r == spec_find_from(data, next, (remaining - 1) as nat, target));
            lemma_find_agrees(data, next, (remaining - 1) as nat, target);
        }
    }
}

/// A sale is found by a control number only when its own control number
/// agrees with it in every field: month, day, year and number. So a control
/// number whose day differs from the day of every sale is not found.
pub proof fn law_search_agrees_in_all_fields(data: Seq<u8>, target: Seq<char>)
    ensures
        spec_search_control_number(data, target) matches Ok(Some(p)) ==> exists|q: int|
            #[trigger] sale_agrees_at(data, q, p, target),
{
    lemma_find_agrees(data, 4, spec_sales_count(data) as nat, target);
}

/// The first `k` daily lines carry the control numbers of sales 1 to `k` of
/// the date, one line each, with the summary of the sale each is found at.
pub proof fn lemma_daily_rows_shape(
    data: Seq<u8>,
    month: Seq<char>,
    day: Seq<char>,
    year: Seq<char>,
    k: nat,
)
    ensures
        spec_daily_rows(data, month, day, year, k) matches Ok(rows) ==> {
            &&& rows.len() == k
            &&& forall|i: int|
                0 <= i < k ==> (#[trigger] rows[i]).0 == spec_control_number(
                    month,
                    day,
                    year,
                    (i + 1) as nat,
                )
            &&& forall|i: int|
                0 <= i < k ==> (#[trigger] rows[i]).1 == match spec_search_control_number(
                    data,
                    rows[i].0,
                ) {
                    Ok(Some(p)) => spec_summary_at(data, p),
                    _ => None,
                }
        },
    decreases k,
{
    if k > 0 {
        lemma_daily_rows_shape(data, month, day, year, (k - 1) as nat);
    }
}

/// The daily listing of a date has one line per sale of that date, as many
/// as counting that date's sales gives; line `i` carries the control number
/// of sale `i + 1` of the date, and the item count and total of the sale
/// that searching for that control number finds (none when none is found).
pub proof fn law_daily_lines_are_the_dates_sales(
    data: Seq<u8>,
    month: Seq<char>,
    day: Seq<char>,
    year: Seq<char>,
)
    ensures
        spec_daily_sales(data, month, day, year) matches Ok(lines) ==> {
            &&& spec_last_sales_number(data, year, month, day) == Some(lines.len())
            &&& forall|i: int|
                0 <= i < lines.len() ==> (#[trigger] lines[i]).0 == spec_control_number(
                    month,
                    day,
                    year,
                    (i + 1) as nat,
                )
            &&& forall|i: int|
                0 <= i < lines.len() ==> (#[trigger] lines[i]).1 == match spec_search_control_number(
                    data,
                    lines[i].0,
                ) {
                    Ok(Some(p)) => spec_summary_at(data, p),
                    _ => None,
                }
        },
{
    match spec_last_sales_number(data, year, month, day) {
        None => {},
        Some(k) => {
            lemma_daily_rows_shape(data, month, day, year, k);
        },
    }
}

/// Where the walk over the sales from `pos` puts sale `j` (0 for the first).
pub open spec fn walk_pos(data: Seq<u8>, pos: int, j: nat) -> int
    decreases j,
{
    if j == 0 {
        pos
    } else {
        match spec_sale_head(data, pos) {
            Some((cn, m, next)) => walk_pos(data, next, (j - 1) as nat),
            None => pos,
        }
    }
}

/// A walk over readable sales among which one agrees with the target in all
/// fields does not come back empty-handed.
pub proof fn lemma_find_complete(
    data: Seq<u8>,
    pos: int,
    count: nat,
    target: Seq<char>,
    j: nat,
    p: int,
)
    requires
        spec_parse_sales(data, pos, count) is Some,
        j < count,
        sale_agrees_at(data, walk_pos(data, pos, j), p, target),
    ensures
        spec_find_from(data, pos, count, target) != Ok::<Option<int>, SalesError>(None),
    decreases j,
{
    lemma_parse_sales_step(data, pos, count);
    lemma_head_of_parse(data, pos);
    let (cn, m, next) = spec_sale_head(data, pos).unwrap();
    if j > 0 {
        if utf8_decode(cn) is Some && !same_control_fields(target, utf8_decode(cn).unwrap()) {
            lemma_find_complete(data, next, (count - 1) as nat, target, (j - 1) as nat, p);
        }
    }
}

/// When every counted sale reads and one of them has a control number that
/// agrees with the target in all four fields, the search finds a sale (or
/// stops at a control number that is not UTF-8): it never reports "not
/// found" then.
pub proof fn law_search_finds_agreeing_sale(data: Seq<u8>, target: Seq<char>, j: nat, p: int)
    requires
        spec_parse_sales(data, 4, spec_sales_count(data) as nat) is Some,
        j < spec_sales_count(data),
        sale_agrees_at(data, walk_pos(data, 4, j), p, target),
    ensures
        spec_search_control_number(data, target) != Ok::<Option<int>, SalesError>(None),
{
    lemma_find_complete(data, 4, spec_sales_count(data) as nat, target, j, p);
}

} // verus!
