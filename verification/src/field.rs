use vstd::prelude::*;
use crate::error::DecodeError;

verus! {

pub const MIN_FIELD_NUMBER: i32 = 1;
pub const FIRST_RESERVED_NUMBER: i32 = 19000;
pub const LAST_RESERVED_NUMBER: i32 = 19999;
pub const MAX_VALID_NUMBER: i32 = 0x1fffffff;

/// The set of legal protobuf field numbers:
/// `[1, 18999]` together with `[20000, 2^29 - 1]`.
pub open spec fn spec_field_number_valid(n: int) -> bool {
    (MIN_FIELD_NUMBER <= n && n < FIRST_RESERVED_NUMBER) || (LAST_RESERVED_NUMBER < n
        && n <= MAX_VALID_NUMBER)
}

/// A validated protobuf tag number.
#[derive(Clone, Copy, Debug, Hash, PartialEq, Eq, Structural)]
pub struct FieldNumber(i32);

impl FieldNumber {
    /// The number this value carries.
    pub closed spec fn spec_get(self) -> i32 {
        self.0
    }

    /// Every constructed `FieldNumber` lies in the legal range.
    pub open spec fn wf(self) -> bool {
        spec_field_number_valid(self.spec_get() as int)
    }

    /// Construction from a number the caller has already checked.
    pub fn new(n: i32) -> (r: Self)
        requires
            spec_field_number_valid(n as int),
        ensures
            r.spec_get() == n,
            r.wf(),
    {
        FieldNumber(n)
    }

    pub fn get(self) -> (r: i32)
        ensures
            r == self.spec_get(),
    {
        self.0
    }

    fn valid(n: i32) -> (r: bool)
        ensures
            r == spec_field_number_valid(n as int),
    {
        MIN_FIELD_NUMBER <= n && n < FIRST_RESERVED_NUMBER || LAST_RESERVED_NUMBER < n
            && n <= MAX_VALID_NUMBER
    }

    /// Fallible construction; the only gate on numbers read off the wire.
    pub fn try_from(v: i32) -> (r: Result<Self, DecodeError>)
        ensures
            match r {
                Ok(f) => spec_field_number_valid(v as int) && f.spec_get() == v && f.wf(),
                Err(e) => !spec_field_number_valid(v as int) && e
                    == DecodeError::InvalidFieldNumber(v),
            },
    {
        if FieldNumber::valid(v) {
            Ok(FieldNumber(v))
        } else {
            Err(DecodeError::InvalidFieldNumber(v))
        }
    }
}

impl Default for FieldNumber {
    /// The smallest legal field number.
    fn default() -> (r: Self)
        ensures
            r.spec_get() == 1,
            r.wf(),
    {
        FieldNumber(1)
    }
}

} // verus!
