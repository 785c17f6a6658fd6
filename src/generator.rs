use vstd::prelude::*;
use crate::stringify_json::{nesting, render, stringify};
use crate::types::Value;

verus! {

/// Renders `val` as pretty-printed FSON text.
pub fn from(val: Value) -> (r: String)
    requires
        2 * nesting(val@) <= usize::MAX,
    ensures
        r@ == render(val@, 0, false),
{
    stringify(val, 0, false)
}

} // verus!
