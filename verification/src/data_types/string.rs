use vstd::prelude::*;
use vstd::utf8::{decode_utf8, encode_utf8, valid_utf8};

use crate::data_types::data_types::{DBDataType, Loadable, Savable};
use crate::utils::append_bytes;

verus! {

/// Calls `String::from_utf8` on a copy of `b`. Claimed of it: a string comes back exactly when `b`
/// is valid UTF-8, and then it is the string that `b` encodes.
#[verifier::external_body]
pub(crate) fn utf8_to_string(b: &[u8]) -> (r: Option<String>)
    ensures
        r is Some <==> valid_utf8(b@),
        r matches Some(s) ==> s@ == decode_utf8(b@),
{
    String::from_utf8(b.to_vec()).ok()
}

impl Savable for String {
    open spec fn spec_to_bin(&self) -> Seq<u8> {
        encode_utf8(self@)
    }

    open spec fn spec_to_string_bin(&self) -> Seq<u8> {
        encode_utf8(self@)
    }

    open spec fn spec_signature(&self) -> u8 {
        0
    }

    fn to_bin(&self) -> (r: &[u8]) {
        self.as_str().as_bytes()
    }

    fn signature(&self) -> (r: u8) {
        0
    }

    fn to_string_bin(&self) -> (r: Vec<u8>) {
        let mut out: Vec<u8> = Vec::new();
        append_bytes(&mut out, self.to_bin());
        out
    }
}

impl Loadable for String {
    open spec fn loads_from_str(s: Seq<char>) -> bool {
        true
    }

    open spec fn loaded_from_str(s: Seq<char>, r: String) -> bool {
        r@ == s
    }

    open spec fn loads_from_bin(b: Seq<u8>) -> bool {
        valid_utf8(b)
    }

    open spec fn loaded_from_bin(b: Seq<u8>, r: String) -> bool {
        r@ == decode_utf8(b)
    }

    fn from_str(s: &str) -> (r: String) {
        s.to_owned()
    }

    fn from_bin(b: &[u8]) -> (r: String) {
        match utf8_to_string(b) {
            Some(s) => s,
            None => String::new(),
        }
    }
}

impl DBDataType for String {

}

} // verus!
