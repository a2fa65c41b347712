//! The envelope a finished fetch travels in, and the status rule that decides
//! whether a response counts as fetched at all.
use crate::file::FileContent;
use vstd::prelude::*;

verus! {

/// The finished result of processing a response: the id the resource was
/// scraped under, together with its classified content.
#[derive(Debug)]
pub struct Conclusion {
    pub url_id: usize,
    pub content: FileContent,
}

/// An HTTP status counts as success exactly when it lies in the 2xx range;
/// any other status fails the fetch.
pub fn status_is_success(status: u16) -> (r: bool)
    ensures
        r == (200 <= status < 300),
{
    200 <= status && status < 300
}

} // verus!
