//! Log sequence numbers.

use crate::decimal::{decimal, push_decimal};
use std::cmp::Ordering;
use vstd::prelude::*;
use vstd::std_specs::cmp::{PartialOrdSpec, PartialOrdSpecImpl};
use vstd::std_specs::convert::FromSpec;

verus! {

/// A log sequence number: the byte offset at which a record begins.
///
/// Sequence numbers are unique and grow in append order, but they are not
/// consecutive: a record is followed by one whose number is larger by the framed
/// size of the first. The first record of a fresh log has the number zero.
#[derive(Debug, Clone, Copy, PartialEq, Eq, Ord, Hash, Structural)]
#[must_use]
pub struct Lsn(u64);

impl Lsn {
    /// The byte offset that this number stands for.
    pub closed spec fn offset(self) -> u64 {
        self.0
    }

    /// Construct a sequence number from its raw value.
    pub fn new(value: u64) -> (lsn: Self)
        ensures
            lsn.offset() == value,
    {
        Lsn(value)
    }

    /// The raw value.
    pub fn get(self) -> (value: u64)
        ensures
            value == self.offset(),
    {
        self.0
    }

    /// The number in decimal.
    pub fn to_string(&self) -> (text: String)
        ensures
            text@ == decimal(self.offset() as nat),
    {
        let mut text = String::new();
        push_decimal(&mut text, self.0);
        text
    }
}

/// Sequence numbers are ordered as the offsets are.
impl PartialOrd for Lsn {
    fn partial_cmp(&self, other: &Self) -> (order: Option<Ordering>) {
        if self.0 < other.0 {
            Some(Ordering::Less)
        } else if self.0 == other.0 {
            Some(Ordering::Equal)
        } else {
            Some(Ordering::Greater)
        }
    }
}

impl PartialOrdSpecImpl for Lsn {
    open spec fn obeys_partial_cmp_spec() -> bool {
        true
    }

    open spec fn partial_cmp_spec(&self, other: &Self) -> Option<Ordering> {
        if self.offset() < other.offset() {
            Some(Ordering::Less)
        } else if self.offset() == other.offset() {
            Some(Ordering::Equal)
        } else {
            Some(Ordering::Greater)
        }
    }
}

impl From<Lsn> for u64 {
    fn from(lsn: Lsn) -> (value: u64) {
        lsn.0
    }
}

impl vstd::std_specs::convert::FromSpecImpl<Lsn> for u64 {
    open spec fn obeys_from_spec() -> bool {
        true
    }

    open spec fn from_spec(lsn: Lsn) -> u64 {
        lsn.offset()
    }
}

/// Two sequence numbers are the same exactly if they stand for the same offset.
pub proof fn lsn_is_its_offset(a: Lsn, b: Lsn)
    ensures
        a == b <==> a.offset() == b.offset(),
{
}

/// Sequence numbers compare as the offsets they stand for.
pub proof fn lsns_compare_by_offset(a: Lsn, b: Lsn)
    ensures
        PartialOrdSpec::partial_cmp_spec(&a, &b) == Some(Ordering::Less) <==> a.offset() < b.offset(),
        PartialOrdSpec::partial_cmp_spec(&a, &b) == Some(Ordering::Equal) <==> a.offset() == b.offset(),
        PartialOrdSpec::partial_cmp_spec(&a, &b) == Some(Ordering::Greater) <==> a.offset() > b.offset(),
{
}

/// A sequence number converts to the offset it stands for.
pub proof fn lsn_converts_to_its_offset(lsn: Lsn)
    ensures
        <u64 as FromSpec<Lsn>>::from_spec(lsn) == lsn.offset(),
{
}

} // verus!
