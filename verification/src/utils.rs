use vstd::prelude::*;
use crate::dom::Element;
use crate::error::{Error, ErrorKind};
use crate::selector::{parse_selector, select_first, select_first_in, spec_parse_selector};

verus! {

/// A byte count.
#[derive(Debug, Clone, Copy, PartialEq, Eq, Structural)]
pub struct Size(pub u64);

impl Size {
    /// The count itself.
    pub fn bytes(self) -> (r: u64)
        ensures
            r == self.0,
    {
        self.0
    }
}

impl From<u64> for Size {
    fn from(v: u64) -> (r: Size)
        ensures
            r == (Size(v)),
    {
        Size(v)
    }
}

impl vstd::std_specs::convert::FromSpecImpl<u64> for Size {
    open spec fn obeys_from_spec() -> bool {
        true
    }

    open spec fn from_spec(v: u64) -> Size {
        Size(v)
    }
}

impl From<Size> for u64 {
    fn from(s: Size) -> (r: u64)
        ensures
            r == s.0,
    {
        s.0
    }
}

impl vstd::std_specs::convert::FromSpecImpl<Size> for u64 {
    open spec fn obeys_from_spec() -> bool {
        true
    }

    open spec fn from_spec(s: Size) -> u64 {
        s.0
    }
}

/// Whether any descendant of `elem` answers the selector string. A string
/// outside the supported grammar is a configuration defect, reported as
/// `Config` and kept distinct from "no match".
pub fn contain_selector(selector: &str, elem: &Element) -> (r: Result<bool, Error>)
    ensures
        match spec_parse_selector(selector@) {
            None => r matches Err(e) && e.kind == ErrorKind::Config,
            Some(q) => r matches Ok(b) && b == (select_first_in(*elem, q) is Some),
        },
{
    match parse_selector(selector) {
        None => Err(Error::config("invalid selector expression")),
        Some(sel) => Ok(select_first(elem, &sel).is_some()),
    }
}

} // verus!
