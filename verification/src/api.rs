//! The data shapes the HTTP surface answers with. The surface itself is a
//! thin collaborator that maps these onto its transport.
use vstd::prelude::*;

verus! {

/// The wallet's balance in satoshis: confirmed, and total including
/// unconfirmed.
pub struct BalanceResponse {
    pub confirmed: u64,
    pub unconfirmed: u64,
}

/// One address handed to a caller, or the error that stood in its place.
pub struct AddressResponse {
    pub success: bool,
    pub address: String,
    pub error: Option<String>,
}

/// The known addresses, each flagged as change or not.
pub struct AddressesResponse {
    pub addresses: Vec<(String, bool)>,
}

} // verus!
