//! The repository lookup endpoint's request shape (no processing logic yet).

use vstd::prelude::*;
use crate::nevra::PagingInfo;

verus! {

/// A repository lookup request.
#[derive(Debug)]
pub struct ReposReq {
    pub repository_list: Vec<String>,
    pub modified_since: Option<String>,
    pub paging: Option<PagingInfo>,
}

} // verus!
