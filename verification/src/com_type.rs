//! Keys compared as numbers: a key that reads as a `usize` compares by that
//! number, and a key that does not read as one equals nothing and is
//! unordered against everything.

use vstd::prelude::*;

use core::cmp::Ordering;

use crate::chars::{parse_usize, spec_parse_usize, usize_decimal, usize_to_decimal};
use vstd::std_specs::cmp::{PartialEqSpec, PartialOrdSpec};

verus! {

/// A key as a number, when it reads as one.
#[derive(Debug)]
pub struct ComType {
    /// The key's value, or `None` when the key does not read as a `usize`.
    pub usize: Option<usize>,
    /// The key's text.
    pub string: Option<String>,
}

impl PartialEq for ComType {
    fn eq(&self, other: &Self) -> (r: bool) {
        match (self.usize, other.usize) {
            (Some(s), Some(o)) => s == o,
            _ => false,
        }
    }
}

impl vstd::std_specs::cmp::PartialEqSpecImpl for ComType {
    open spec fn obeys_eq_spec() -> bool {
        true
    }

    open spec fn eq_spec(&self, other: &Self) -> bool {
        match (self.usize, other.usize) {
            (Some(s), Some(o)) => s == o,
            _ => false,
        }
    }
}

impl PartialOrd for ComType {
    fn partial_cmp(&self, other: &Self) -> (r: Option<Ordering>) {
        match (self.usize, other.usize) {
            (Some(s), Some(o)) => if s > o {
                Some(Ordering::Greater)
            } else if s < o {
                Some(Ordering::Less)
            } else {
                Some(Ordering::Equal)
            },
            _ => None,
        }
    }
}

impl vstd::std_specs::cmp::PartialOrdSpecImpl for ComType {
    open spec fn obeys_partial_cmp_spec() -> bool {
        true
    }

    open spec fn partial_cmp_spec(&self, other: &Self) -> Option<Ordering> {
        match (self.usize, other.usize) {
            (Some(s), Some(o)) => if s > o {
                Some(Ordering::Greater)
            } else if s < o {
                Some(Ordering::Less)
            } else {
                Some(Ordering::Equal)
            },
            _ => None,
        }
    }
}

impl From<usize> for ComType {
    fn from(u: usize) -> (r: Self)
        ensures
            r.usize == Some(u),
            r.string matches Some(t) && t@ == usize_decimal(u),
    {
        ComType { usize: Some(u), string: Some(usize_to_decimal(u)) }
    }
}

impl vstd::std_specs::convert::FromSpecImpl<usize> for ComType {
    /// The text is a new `String` holding the decimal digits of `u`; which
    /// `String` value that is cannot be written down, so the conversion is
    /// specified by the `ensures` of `from` instead.
    open spec fn obeys_from_spec() -> bool {
        false
    }

    open spec fn from_spec(u: usize) -> Self {
        ComType { usize: Some(u), string: Some(choose|t: String| t@ == usize_decimal(u)) }
    }
}

impl<'a> From<&'a usize> for ComType {
    fn from(u: &'a usize) -> (r: Self)
        ensures
            r.usize == Some(*u),
            r.string matches Some(t) && t@ == usize_decimal(*u),
    {
        ComType { usize: Some(*u), string: Some(usize_to_decimal(*u)) }
    }
}

impl<'a> vstd::std_specs::convert::FromSpecImpl<&'a usize> for ComType {
    /// As for `usize`: specified by the `ensures` of `from`.
    open spec fn obeys_from_spec() -> bool {
        false
    }

    open spec fn from_spec(u: &'a usize) -> Self {
        ComType { usize: Some(*u), string: Some(choose|t: String| t@ == usize_decimal(*u)) }
    }
}

impl<'a> From<&'a mut usize> for ComType {
    fn from(u: &'a mut usize) -> (r: Self)
        ensures
            r.usize == Some(*old(u)),
            r.string matches Some(t) && t@ == usize_decimal(*old(u)),
            *final(u) == *old(u),
    {
        ComType::from(*u)
    }
}

impl<'a> vstd::std_specs::convert::FromSpecImpl<&'a mut usize> for ComType {
    /// As for `usize`: specified by the `ensures` of `from`.
    open spec fn obeys_from_spec() -> bool {
        false
    }

    open spec fn from_spec(u: &'a mut usize) -> Self {
        ComType { usize: Some(*u), string: Some(choose|t: String| t@ == usize_decimal(*u)) }
    }
}

impl From<String> for ComType {
    fn from(s: String) -> (r: Self)
        ensures
            r.usize == spec_parse_usize(s@),
            r.string == Some(s),
    {
        let n = parse_usize(s.as_str());
        ComType { usize: n, string: Some(s) }
    }
}

impl vstd::std_specs::convert::FromSpecImpl<String> for ComType {
    open spec fn obeys_from_spec() -> bool {
        true
    }

    open spec fn from_spec(s: String) -> Self {
        ComType { usize: spec_parse_usize(s@), string: Some(s) }
    }
}

impl<'a> From<&'a str> for ComType {
    fn from(s: &'a str) -> (r: Self)
        ensures
            r.usize == spec_parse_usize(s@),
            r.string matches Some(t) && t@ == s@,
    {
        ComType::from(s.to_owned())
    }
}

impl<'a> vstd::std_specs::convert::FromSpecImpl<&'a str> for ComType {
    /// The text is a new `String` holding the characters of `s`; which
    /// `String` value that is cannot be written down, so the conversion is
    /// specified by the `ensures` of `from` instead.
    open spec fn obeys_from_spec() -> bool {
        false
    }

    open spec fn from_spec(s: &'a str) -> Self {
        ComType { usize: spec_parse_usize(s@), string: Some(choose|t: String| t@ == s@) }
    }
}

/// Keys that read as numbers are equal and ordered as those numbers are.
pub proof fn law_numbers_compare_as_numbers(x: ComType, y: ComType)
    requires
        x.usize is Some,
        y.usize is Some,
    ensures
        x.eq_spec(&y) == (x.usize->0 == y.usize->0),
        (x.partial_cmp_spec(&y) == Some(Ordering::Less)) == (x.usize->0 < y.usize->0),
        (x.partial_cmp_spec(&y) == Some(Ordering::Equal)) == (x.usize->0 == y.usize->0),
        (x.partial_cmp_spec(&y) == Some(Ordering::Greater)) == (x.usize->0 > y.usize->0),
{
}

/// A key that does not read as a number equals nothing, itself included, and
/// is ordered against nothing.
pub proof fn law_non_numbers_compare_with_nothing(x: ComType, y: ComType)
    requires
        x.usize is None,
    ensures
        !x.eq_spec(&y),
        !y.eq_spec(&x),
        x.partial_cmp_spec(&y) is None,
        y.partial_cmp_spec(&x) is None,
{
}

} // verus!
