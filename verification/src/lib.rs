//! Verified core of the portfolio forecast tool: container detection for
//! `.portfolio` files, the transaction ledger, the NAV timeline and the
//! integer parts of the forecast.

pub mod analysis;
pub mod calendar;
pub mod error;
pub mod format;
pub mod ledger;
pub mod model;
pub mod order;
pub mod orientation;
pub mod prices;
pub mod text;

use vstd::prelude::*;
use error::{meets, LoadError};
use format::load_outcome;

verus! {

/// Extract the protobuf payload of a client from the bytes of a
/// `.portfolio` file (e.g. read from an Android content URI). Accepts a
/// ZIP-wrapped binary file or a raw `PPPBV1` file.
pub fn load_from_bytes(bytes: &[u8]) -> (r: Result<Vec<u8>, LoadError>)
    ensures
        meets(r, load_outcome(bytes@)),
{
    format::load_bytes(bytes)
}

} // verus!
