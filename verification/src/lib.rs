//! A private, content-addressed, encrypted filesystem over a pluggable block
//! store, together with a public-key protocol for sharing read access to the
//! filesystem root without revealing the symmetric key material in transit.

pub mod blockstore;
pub mod codec;
pub mod crypto;
pub mod directory;
pub mod errors;
pub mod exchange;
pub mod forest;
pub mod private_forest;
pub mod sharing;

use vstd::prelude::*;

verus! {

} // verus!
