//! Text taken out of raw bytes.

use vstd::prelude::*;
use vstd::utf8::{decode_utf8, valid_utf8};

verus! {

/// What [`String::from_utf8_lossy`] makes of bytes that are not UTF-8: each
/// maximal part that is not becomes one U+FFFD.
pub uninterp spec fn lossy_text(bytes: Seq<u8>) -> Seq<char>;

/// The text that bytes stand for, however broken.
pub open spec fn text_of(bytes: Seq<u8>) -> Seq<char> {
    if valid_utf8(bytes) {
        decode_utf8(bytes)
    } else {
        lossy_text(bytes)
    }
}

/// [`std::str::from_utf8`]: the text that `bytes` encode, if they are UTF-8.
#[verifier::external_body]
pub(crate) fn utf8_text(bytes: &[u8]) -> (r: Option<&str>)
    ensures
        r is Some <==> valid_utf8(bytes@),
        r matches Some(s) ==> s@ == decode_utf8(bytes@),
{
    std::str::from_utf8(bytes).ok()
}

/// [`String::from_utf8_lossy`]: bytes that are UTF-8 give exactly the text they
/// encode; of others only that the same bytes give the same text.
#[verifier::external_body]
pub(crate) fn utf8_lossy(bytes: &[u8]) -> (r: String)
    ensures
        valid_utf8(bytes@) ==> r@ == decode_utf8(bytes@),
        !valid_utf8(bytes@) ==> r@ == lossy_text(bytes@),
{
    String::from_utf8_lossy(bytes).into_owned()
}

/// Whether `text` ends in `tail`.
pub open spec fn has_suffix(text: Seq<char>, tail: Seq<char>) -> bool {
    tail.len() <= text.len() && text.skip(text.len() - tail.len()) == tail
}

/// Whether `text` ends in `tail`.
pub fn ends_with(text: &str, tail: &str) -> (r: bool)
    ensures
        r == has_suffix(text@, tail@),
{
    let n: usize = text.unicode_len();
    let m: usize = tail.unicode_len();
    if m > n {
        return false;
    }
    let mut i: usize = 0;
    while i < m
        invariant
            n == text@.len(),
            m == tail@.len(),
            m <= n,
            i <= m,
            forall|k: int| 0 <= k < i ==> text@[n - m + k] == tail@[k],
        decreases m - i,
    {
        if text.get_char(n - m + i) != tail.get_char(i) {
            assert(text@.skip(n - m)[i as int] != tail@[i as int]);
            return false;
        }
        i = i + 1;
    }
    assert(text@.skip(n - m) =~= tail@);
    true
}

} // verus!
