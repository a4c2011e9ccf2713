//! Contracts of the few `std` functions that the library calls and that `vstd`
//! leaves unspecified. Verus takes these contracts on trust; each restates what
//! the documentation of the function says.

use vstd::prelude::*;

verus! {

/// `String::push`: "Appends the given `char` to the end of this `String`."
pub assume_specification[ String::push ](s: &mut String, ch: char)
    ensures
        final(s)@ == old(s)@.push(ch),
;

/// `String::from(&str)`: "Converts a `&str` into a `String`", so the two hold
/// the same characters.
pub assume_specification<'a, 'b>[ <String as From<&'a str>>::from ](s: &'b str) -> (text: String)
    ensures
        text@ == s@,
;

/// The reflexive conversion of `std`: "Returns the argument unchanged."
pub assume_specification<Value>[ <Value as From<Value>>::from ](value: Value) -> (same: Value)
    ensures
        same == value,
;

/// `Arc::from`: "Converts a `T` into an `Arc<T>`. The conversion moves the value
/// into a newly allocated `Arc`."
pub assume_specification<Value>[ <std::sync::Arc<Value> as From<Value>>::from ](
    value: Value,
) -> (shared: std::sync::Arc<Value>)
    ensures
        *shared == value,
;

} // verus!
