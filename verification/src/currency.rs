//! The tradable asset kinds.

use vstd::prelude::*;

verus! {

/// A tradable asset kind, used as a ledger key.
#[derive(PartialEq, Eq, Structural, Copy, Clone, Debug)]
pub enum Currency {
    USD,
    OSMO,
}

} // verus!
