//! Access to the system clipboard, as a trait so that the watcher can be
//! driven without a GUI session, and the content hash used everywhere.

use vstd::prelude::*;
use sha2::{Digest, Sha256};

verus! {

/// Lower-case hexadecimal SHA-256 digest of the UTF-8 bytes of `text`.
pub uninterp spec fn sha256_hex(text: Seq<char>) -> Seq<char>;

/// A lower-case hexadecimal digit.
pub open spec fn is_lower_hex(c: char) -> bool {
    ('0' <= c && c <= '9') || ('a' <= c && c <= 'f')
}

/// Content hash of a text: SHA-256 of its UTF-8 bytes, as 64 lower-case
/// hexadecimal digits.
///
/// Trusted: wraps `sha2::Sha256` (`new`, `update`, `finalize`) and formats
/// the digest with `{:x}`. Claims that the result is the named function
/// `sha256_hex` of the text, and what the `LowerHex` formatting of a 32-byte
/// digest writes: 64 characters, each `0-9` or `a-f`.
#[verifier::external_body]
pub fn hash_text(text: &str) -> (r: String)
    ensures
        r@ == sha256_hex(text@),
        r@.len() == 64,
        forall|i: int| 0 <= i < 64 ==> is_lower_hex(#[trigger] r@[i]),
{
    let mut h = Sha256::new();
    h.update(text.as_bytes());
    format!("{:x}", h.finalize())
}

/// A clipboard write that failed, with the reason.
#[derive(Debug)]
pub struct ClipboardError(pub String);

/// A clipboard the watcher polls and writes.
pub trait Clipboard {
    /// `None` when the clipboard is empty or does not hold text.
    fn get_text(&mut self) -> Option<String>;

    fn set_text(&mut self, text: &str) -> Result<(), ClipboardError>;

    /// Whether the current content is marked sensitive (a password manager's
    /// concealed type). Sensitive content is never recorded, not even its
    /// hash. A clipboard that cannot tell says `false`.
    fn nhay_cam(&mut self) -> bool {
        false
    }
}

} // verus!
