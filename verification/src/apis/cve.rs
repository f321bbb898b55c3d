//! The CVE lookup endpoint's request shape (no processing logic yet).

use vstd::prelude::*;
use crate::nevra::PagingInfo;

verus! {

/// The CVE lookup endpoint.
pub struct CveApi;

/// A CVE lookup request.
#[derive(Debug)]
pub struct CveReq {
    pub cve_list: Vec<String>,
    pub modified_since: Option<String>,
    pub published_since: Option<String>,
    pub paging: Option<PagingInfo>,
    pub rh_only: Option<bool>,
}

} // verus!
