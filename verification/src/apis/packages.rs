//! The package lookup endpoint's request shape (no processing logic yet).

use vstd::prelude::*;

verus! {

/// The package lookup endpoint.
pub struct CveApi;

/// A package lookup request.
#[derive(Debug)]
pub struct PackagesReq {
    pub package_list: Vec<String>,
}

} // verus!
