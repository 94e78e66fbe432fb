//! The interface of whatever hands out a compiled pattern.

use crate::regex::regex_wrapper::RegexWrapper;
use std::sync::Arc;
use vstd::prelude::*;

verus! {

/// A compiled pattern behind a shared handle.
pub type RegexWrapperHandle = Arc<RegexWrapper>;

/// Hands out a compiled pattern.
pub trait RegexSupplier {
    /// The pattern text of the pattern that is handed out.
    spec fn supplied_pattern(&self) -> Seq<char>;

    /// The compiled pattern.
    fn get_regex(&self) -> (re: &RegexWrapper)
        ensures
            re.pattern() == self.supplied_pattern(),
    ;

    /// The pattern text.
    fn get_pattern(&self) -> (p: String)
        ensures
            p@ == self.supplied_pattern(),
    ;
}

impl RegexSupplier for RegexWrapper {
    open spec fn supplied_pattern(&self) -> Seq<char> {
        self.pattern()
    }

    fn get_regex(&self) -> (re: &RegexWrapper) {
        self
    }

    fn get_pattern(&self) -> (p: String) {
        self.as_str().to_owned()
    }
}

impl RegexSupplier for RegexWrapperHandle {
    open spec fn supplied_pattern(&self) -> Seq<char> {
        self.pattern()
    }

    fn get_regex(&self) -> (re: &RegexWrapper) {
        self
    }

    fn get_pattern(&self) -> (p: String) {
        self.as_str().to_owned()
    }
}

} // verus!
