//! Integers that are not 0.
use vstd::prelude::*;

verus! {

/// A 64-bit number that is not 0.
#[derive(Debug, Clone, Copy)]
pub struct NonZeroU64 {
    value: u64,
}

impl View for NonZeroU64 {
    type V = nat;

    closed spec fn view(&self) -> nat {
        self.value as nat
    }
}

impl NonZeroU64 {
    #[verifier::type_invariant]
    spec fn not_zero(self) -> bool {
        self.value != 0
    }

    /// The number, unless it is 0.
    pub fn new(value: u64) -> (r: Option<Self>)
        ensures
            match r {
                Some(n) => value != 0 && n@ == value,
                None => value == 0,
            },
    {
        if value == 0 {
            None
        } else {
            Some(NonZeroU64 { value })
        }
    }

    /// The number, which is not 0.
    pub fn get(self) -> (r: u64)
        ensures
            r == self@,
            r != 0,
    {
        proof {
            use_type_invariant(&self);
        }
        self.value
    }
}

/// A 32-bit number that is not 0.
#[derive(Debug, Clone, Copy)]
pub struct NonZeroU32 {
    value: u32,
}

impl View for NonZeroU32 {
    type V = nat;

    closed spec fn view(&self) -> nat {
        self.value as nat
    }
}

impl NonZeroU32 {
    #[verifier::type_invariant]
    spec fn not_zero(self) -> bool {
        self.value != 0
    }

    /// The number, unless it is 0.
    pub fn new(value: u32) -> (r: Option<Self>)
        ensures
            match r {
                Some(n) => value != 0 && n@ == value,
                None => value == 0,
            },
    {
        if value == 0 {
            None
        } else {
            Some(NonZeroU32 { value })
        }
    }

    /// The number, which is not 0.
    pub fn get(self) -> (r: u32)
        ensures
            r == self@,
            r != 0,
    {
        proof {
            use_type_invariant(&self);
        }
        self.value
    }
}

} // verus!
