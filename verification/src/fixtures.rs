//! Small functions whose compiled control flow is a known reference for the compiler
//! adapter: a branch, a plain return, scoped values around a call, a direct call and a
//! division.
use vstd::prelude::*;

verus! {

/// One of two constants, chosen by `flag`.
pub fn branch(flag: bool) -> (r: u8)
    ensures
        r == (if flag {
            11u8
        } else {
            22u8
        }),
{
    if flag {
        11
    } else {
        22
    }
}

/// Its argument, unchanged.
pub fn return_value(value: u32) -> (r: u32)
    ensures
        r == value,
{
    value
}

/// A value held across a call so that its scope ends after the call.
pub struct Guard;

/// Calls `callback` once while two guards are alive.
pub fn with_drop<F: Fn()>(callback: F)
    requires
        callback.requires(()),
{
    let first = Guard;
    let second = Guard;
    callback();
    let _ = (&first, &second);
}

/// `return_value` of its argument, through a direct call.
pub fn direct_call(value: u32) -> (r: u32)
    ensures
        r == value,
{
    return_value(value)
}

/// Integer quotient of `left` by a nonzero `right`.
pub fn divide(left: u32, right: u32) -> (r: u32)
    requires
        right != 0,
    ensures
        r == left / right,
{
    left / right
}

} // verus!
