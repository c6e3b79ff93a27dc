//! Text preparation: each chunk's text is canonically composed (NFC) before
//! it is measured and laid out, so combining sequences become the
//! precomposed characters the glyph service is asked for.

use vstd::prelude::*;

use unicode_normalization::UnicodeNormalization;

verus! {

/// The canonical composition (NFC) of a character sequence.
pub uninterp spec fn nfc_of(s: Seq<char>) -> Seq<char>;

/// Relies on unicode_normalization's `nfc` iterator over `&str`: the
/// canonical composition of the text, a function of the characters alone.
#[verifier::external_body]
fn nfc_chars(s: &str) -> (r: String)
    ensures
        r@ == nfc_of(s@),
{
    s.nfc().collect()
}

/// The text of one chunk, canonically composed for layout.
pub fn normalize_text(s: &String) -> (r: String)
    ensures
        r@ == nfc_of(s@),
{
    nfc_chars(s.as_str())
}

/// Every chunk text of a document, canonically composed, in order.
pub fn normalize_texts(texts: &Vec<String>) -> (r: Vec<String>)
    ensures
        r@.len() == texts@.len(),
        forall|i: int| 0 <= i < texts@.len() ==> (#[trigger] r@[i])@ == nfc_of(texts@[i]@),
{
    let mut r: Vec<String> = Vec::new();
    let mut i: usize = 0;
    while i < texts.len()
        invariant
            i <= texts@.len(),
            r@.len() == i,
            forall|t: int| 0 <= t < i ==> (#[trigger] r@[t])@ == nfc_of(texts@[t]@),
        decreases texts@.len() - i,
    {
        let n = normalize_text(&texts[i]);
        r.push(n);
        i = i + 1;
    }
    r
}

} // verus!
