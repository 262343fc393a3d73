//! Text as characters: a string's characters, UTF-8 decoding and extended
//! grapheme clusters. The decoding and the clustering call std's
//! `str::from_utf8` and `unicode_segmentation`; those two are trusted
//! wrappers, whose contracts are believed, not proved, and say only what the
//! called code's source or documentation shows.
use unicode_segmentation::UnicodeSegmentation;
use vstd::prelude::*;

verus! {

/// What `std::str::from_utf8` makes of `bytes`: the characters of the string
/// when `bytes` are valid UTF-8, `None` otherwise.
pub uninterp spec fn utf8_decode(bytes: Seq<u8>) -> Option<Seq<char>>;

/// The extended grapheme clusters of `s`, in order, as
/// `unicode_segmentation::UnicodeSegmentation::graphemes(s, true)` yields them.
pub uninterp spec fn extended_graphemes(s: Seq<char>) -> Seq<Seq<char>>;

/// Whether every byte is below 128.
pub open spec fn all_ascii(bytes: Seq<u8>) -> bool {
    forall|i: int| 0 <= i < bytes.len() ==> #[trigger] bytes[i] < 128
}

/// The characters whose codes are the given bytes.
pub open spec fn ascii_chars(bytes: Seq<u8>) -> Seq<char> {
    bytes.map_values(|b: u8| b as char)
}

/// The characters of `s`, in order.
pub(crate) fn chars_of(s: &str) -> (r: Vec<char>)
    ensures
        r@ == s@,
{
    broadcast use vstd::string::axiom_spec_iter;

    let mut out: Vec<char> = Vec::new();
    for c in it: s.chars()
        invariant
            it.seq() == s@,
            out@ == s@.take(it.index()),
    {
        out.push(c);
        assert(out@ =~= s@.take(it.index() + 1));
    }
    assert(out@ =~= s@);
    out
}

/// Decodes `bytes` as UTF-8.
///
/// Trusted: calls `std::str::from_utf8` and collects the characters of the
/// string it returns. Claimed: the result is the named result `utf8_decode`
/// of the bytes, and bytes that are all ASCII (below 128) decode to the
/// characters with the same codes, as the documentation of UTF-8 in `str`
/// states (ASCII is a subset of UTF-8). Nothing else about which byte
/// sequences are valid is stated.
#[verifier::external_body]
pub(crate) fn decode_utf8(bytes: &[u8]) -> (r: Option<Vec<char>>)
    ensures
        match r {
            Some(v) => utf8_decode(bytes@) == Some(v@),
            None => utf8_decode(bytes@) is None,
        },
        all_ascii(bytes@) ==> r.deep_view() == Some(ascii_chars(bytes@)),
{
    match std::str::from_utf8(bytes) {
        Ok(s) => Some(s.chars().collect()),
        Err(_) => None,
    }
}

/// Whether every character is printable ASCII (from `' '` to `'~'`).
pub open spec fn printable_ascii(s: Seq<char>) -> bool {
    forall|i: int| 0 <= i < s.len() ==> ' ' <= #[trigger] s[i] && s[i] <= '~'
}

/// Each character of `s` as a cluster of its own.
pub open spec fn one_char_clusters(s: Seq<char>) -> Seq<Seq<char>> {
    s.map_values(|c: char| seq![c])
}

/// Splits `s` into its extended grapheme clusters.
///
/// Trusted: calls `UnicodeSegmentation::graphemes(s, true)` of
/// `unicode_segmentation` and collects each cluster's characters. Claimed: the
/// result is the named result `extended_graphemes` of the characters; the
/// clusters are non-empty and, put together in order, give back `s` (the
/// iterator's `next` returns the slice between two successive boundaries,
/// from the start of the string to its end). Where the boundaries fall is
/// not stated, but for text that is printable ASCII: the crate gives every
/// character from `' '` to `'~'` the category `GC_Any`, and its `check_pair`
/// puts a boundary between two `GC_Any` characters, so each such character
/// is a cluster of its own.
#[verifier::external_body]
pub(crate) fn grapheme_clusters(s: &[char]) -> (r: Vec<Vec<char>>)
    ensures
        r.deep_view() == extended_graphemes(s@),
        r.deep_view().flatten() == s@,
        forall|i: int| 0 <= i < r@.len() ==> (#[trigger] r@[i])@.len() > 0,
        printable_ascii(s@) ==> r.deep_view() == one_char_clusters(s@),
{
    let text: String = s.iter().collect();
    text.graphemes(true).map(|g| g.chars().collect()).collect()
}

} // verus!
