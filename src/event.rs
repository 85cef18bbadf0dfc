use vstd::prelude::*;

use crate::value::Value;

verus! {

/// What the front end reacts to.
pub enum Event {
    MenuInit,
    MenuX,
    MenuY,
    MenuZ,
    Redoku,
    RedokuCursor(u8),
    RedokuGridValue(u8, Option<Value>),
}

} // verus!
