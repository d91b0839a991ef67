//! What the crawl reports after each page.

use vstd::prelude::*;
use crate::text::{decimal, decimal_string};

verus! {

/// A report handed to the statistics callback after a page is read.
#[derive(Clone)]
pub struct StatStruct {
    pub count: i32,
    pub data_string: String,
    pub link_vector: Vec<String>,
}

/// "Found {found} links; added {added}; links in vector {total}".
pub open spec fn links_message(found: nat, added: nat, total: nat) -> Seq<char> {
    "Found "@ + decimal(found) + " links; added "@ + decimal(added) + "; links in vector "@ + decimal(
        total,
    )
}

/// The line that reports a page: links found on it, links newly recorded,
/// and links recorded in all.
pub fn links_message_string(found: usize, added: usize, total: usize) -> (r: String)
    ensures
        r@ == links_message(found as nat, added as nat, total as nat),
{
    let mut r = String::from_str("Found ");
    r.append(decimal_string(found as u64).as_str());
    r.append(" links; added ");
    r.append(decimal_string(added as u64).as_str());
    r.append("; links in vector ");
    r.append(decimal_string(total as u64).as_str());
    r
}

} // verus!
