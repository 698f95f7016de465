//! Defaults for fields of the scoring item catalog.
//!
//! The catalog itself (its persisted encoding and the numeric scoring
//! formula) lives outside this library; only the default used when an item
//! gives no applicability ceiling is defined here, so that every consumer
//! fills the field the same way.

use vstd::prelude::*;

verus! {

/// The applicability ceiling assumed for a catalog item that states none.
pub fn default_max_level() -> (r: Option<u32>)
    ensures
        r == Some(100u32),
{
    Some(100)
}

} // verus!
