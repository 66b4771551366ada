//! Small example types that can be stored in a settings cell.

use vstd::prelude::*;

verus! {

/// A storable wrapper around a `bool`.
#[derive(Debug, PartialEq, Eq, Structural, Clone, Copy)]
pub struct BoolStg {
    pub value: bool,
}

impl BoolStg {
    /// Wraps a `bool`.
    pub fn new(value: bool) -> (r: BoolStg)
        ensures
            r.value == value,
    {
        BoolStg { value }
    }

    /// Returns the wrapped `bool`.
    pub fn get(&self) -> (r: bool)
        ensures
            r == self.value,
    {
        self.value
    }
}

impl Default for BoolStg {
    fn default() -> (r: Self)
        ensures
            r.value == false,
    {
        BoolStg { value: false }
    }
}

/// A storable wrapper around an `i32`.
#[derive(Debug, PartialEq, Eq, Structural, Clone, Copy)]
pub struct I32Stg {
    pub value: i32,
}

impl I32Stg {
    /// Wraps an `i32`.
    pub fn new(value: i32) -> (r: I32Stg)
        ensures
            r.value == value,
    {
        I32Stg { value }
    }

    /// Returns the wrapped `i32`.
    pub fn get(&self) -> (r: i32)
        ensures
            r == self.value,
    {
        self.value
    }
}

impl Default for I32Stg {
    fn default() -> (r: Self)
        ensures
            r.value == 0,
    {
        I32Stg { value: 0 }
    }
}

} // verus!
