//! A value of which there is only one.

use vstd::prelude::*;

verus! {

/// The type of the single instance.
#[derive(Debug, PartialEq)]
pub struct Singleton;

/// The single instance.
pub const INSTANCE: &'static Singleton = &Singleton;

/// The single instance.
pub fn get_instance() -> (instance: &'static Singleton)
    ensures
        *instance == Singleton,
{
    INSTANCE
}

} // verus!
