//! Equality of compiled patterns: by their pattern texts.

use crate::regex::regex_wrapper::RegexWrapper;
use crate::vocab::span_map::span_eq;
use vstd::prelude::*;
use vstd::std_specs::cmp::PartialEqSpecImpl;
use vstd::utf8::{decode_utf8, encode_utf8};

verus! {

impl PartialEq for RegexWrapper {
    fn eq(&self, other: &Self) -> (r: bool) {
        broadcast use vstd::utf8::encode_utf8_decode_utf8;

        let a = self.as_str();
        let b = other.as_str();
        proof {
            assert(decode_utf8(encode_utf8(a@)) == a@);
            assert(decode_utf8(encode_utf8(b@)) == b@);
        }
        span_eq(a.as_bytes(), b.as_bytes())
    }
}

impl PartialEqSpecImpl for RegexWrapper {
    open spec fn obeys_eq_spec() -> bool {
        true
    }

    open spec fn eq_spec(&self, other: &Self) -> bool {
        self.pattern() == other.pattern()
    }
}

} // verus!
