//! Lowercase folding.

use vstd::prelude::*;
use vstd::string::*;
use vstd::utf8::*;

verus! {

/// The lowercase form of `text` under Unicode's locale-independent lowercase
/// mapping. The mapping is not spelled out here: it follows the Unicode
/// character tables, and one character may fold to several.
pub uninterp spec fn lowercase(text: Seq<char>) -> Seq<char>;

/// The bytes of the lowercase form of the text that `bytes` encodes. The
/// empty text is its own lowercase form.
pub open spec fn folded(bytes: Seq<u8>) -> Seq<u8> {
    if bytes.len() == 0 {
        bytes
    } else {
        encode_utf8(lowercase(decode_utf8(bytes)))
    }
}

/// Folds `text` to lowercase with `str::to_lowercase`.
///
/// Believed, not proved: the result is the lowercase form that `lowercase`
/// names, which depends on the characters of `text` alone.
#[verifier::external_body]
fn to_lowercase(text: &str) -> (lowered: String)
    ensures
        lowered@ == lowercase(text@),
{
    text.to_lowercase()
}

/// The lowercase form of `text`, as a new string.
pub fn lowercased(text: &str) -> (lowered: String)
    ensures
        lowered@ == if text@.len() == 0 {
            text@
        } else {
            lowercase(text@)
        },
        encode_utf8(lowered@) == folded(text.spec_bytes()),
{
    broadcast use group_utf8_lib;

    if text.is_empty() {
        proof {
            assert(text@ =~= Seq::<char>::empty());
            assert(text.spec_bytes() =~= Seq::<u8>::empty());
        }
        String::new()
    } else {
        proof {
            assert(encode_scalar(text@[0] as u32).len() > 0);
            assert(text.spec_bytes().len() > 0);
        }
        to_lowercase(text)
    }
}

} // verus!
