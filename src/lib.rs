//! Client side of a federated e-cash mint: blind-signature issuance, the decisions of the
//! peg-in broadcast and of redeeming, and the ordered record keys and atomic batches of the
//! coin store.

use vstd::prelude::*;

pub mod amount;
pub mod keys;
pub mod issuance;
pub mod gateway;
pub mod store;
pub mod client;

verus! {

} // verus!
