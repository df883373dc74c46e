//! Bytes as text.
use vstd::prelude::*;

verus! {

/// Every byte is below `0x80`.
pub open spec fn all_ascii(bytes: Seq<u8>) -> bool {
    forall|i: int| 0 <= i < bytes.len() ==> #[trigger] bytes[i] < 0x80
}

/// The characters that ASCII bytes stand for, one per byte.
pub open spec fn ascii_text(bytes: Seq<u8>) -> Seq<char> {
    Seq::new(bytes.len(), |i: int| bytes[i] as char)
}

/// Decodes bytes with `String::from_utf8_lossy`.
///
/// Trusted: on bytes that are all ASCII the lossy decoder replaces nothing, so the
/// text has one character per byte, each with the byte's code.  Nothing is claimed
/// of other input, which `requires` leaves out.
#[verifier::external_body]
pub(crate) fn decode_ascii(bytes: &[u8]) -> (text: String)
    requires
        all_ascii(bytes@),
    ensures
        text@ == ascii_text(bytes@),
{
    String::from_utf8_lossy(bytes).into_owned()
}

} // verus!
