# ministore_pos

A point-of-sale program for a small store: an inventory of products, a
sales screen where items are punched in and paid for, and views of the
recorded sales. The store's rules live in a library verified with Verus;
a terminal program around it draws the screens and reads and writes the
files.

- `src/codec.rs`: little-endian integers in byte sequences.
- `src/text.rs`: decimal text, trimming, padding and character fields.
- `src/unicode.rs`: a string's characters, UTF-8 decoding and grapheme
  clusters (the last two through `std` and `unicode_segmentation`).
- `src/inventory.rs`: the inventory file (header, records; look-up,
  adding, editing, deleting, listing).
- `src/sales.rs`: the sales file (control numbers, recording a sale,
  searching, daily and overall listings).
- `src/screens.rs`: the decisions of the sales and edit screens over the
  rows of a table.
- `app/main.rs`: the terminal screens (`cursive`), the clock (`chrono`),
  the files, and the prices, which are floating point.
- `tests/`: tests of the library on concrete values.
