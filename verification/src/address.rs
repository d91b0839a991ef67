//! Addresses: completing the one the user gave, and the origin of a link.

use vstd::prelude::*;
use crate::text::{contains, has_infix};

verus! {

/// The address that the crawl starts from: `raw` itself where it already
/// holds "http://" or "https://", else `raw` behind "https://".
pub open spec fn with_scheme(raw: Seq<char>) -> Seq<char> {
    if has_infix(raw, "http://"@) || has_infix(raw, "https://"@) {
        raw
    } else {
        "https://"@ + raw
    }
}

/// Puts "https://" in front of an address that names no scheme.
pub fn parse_address(raw_address: String) -> (r: String)
    ensures
        r@ == with_scheme(raw_address@),
{
    if !(contains(raw_address.as_str(), "http://") || contains(raw_address.as_str(), "https://")) {
        let mut r = String::from_str("https://");
        r.append(raw_address.as_str());
        return r;
    }
    raw_address
}

/// Completing an address twice gives what completing it once gives, and the
/// result always names a scheme.
pub proof fn lemma_with_scheme_idempotent(raw: Seq<char>)
    ensures
        with_scheme(with_scheme(raw)) == with_scheme(raw),
        has_infix(with_scheme(raw), "http://"@) || has_infix(with_scheme(raw), "https://"@),
{
    if !(has_infix(raw, "http://"@) || has_infix(raw, "https://"@)) {
        let s = "https://"@ + raw;
        assert(s.subrange(0, "https://"@.len() as int) =~= "https://"@);
        assert(crate::text::occurs_at(s, "https://"@, 0));
    }
}

/// What the `http` crate's `Uri` parser makes of `text`: `None` where it
/// refuses the text, else the scheme and the authority, where present.
pub uninterp spec fn uri_parts(text: Seq<char>) -> Option<(Option<Seq<char>>, Option<Seq<char>>)>;

/// `text.parse::<hyper::Uri>()`, then `Uri::scheme_str` and `Uri::authority`
/// of the result. The contract claims only that the result is a function
/// of `text`, named `uri_parts`.
#[verifier::external_body]
fn parse_uri_parts(text: &str) -> (r: Option<(Option<String>, Option<String>)>)
    ensures
        r.deep_view() == uri_parts(text@),
{
    match text.parse::<hyper::Uri>() {
        Ok(uri) => Some((
            uri.scheme_str().map(|s| s.to_owned()),
            uri.authority().map(|a| a.as_str().to_owned()),
        )),
        Err(_) => None,
    }
}

/// The origin that `uri_parts` gives: scheme, "://" and authority; `None`
/// where the text is no URI or lacks either part.
pub open spec fn origin_of(parts: Option<(Option<Seq<char>>, Option<Seq<char>>)>) -> Option<Seq<char>> {
    match parts {
        Some((Some(scheme), Some(authority))) => Some(scheme + "://"@ + authority),
        _ => None,
    }
}

/// The origin ("scheme://authority") of `address`, which must be a URI with
/// a scheme and an authority.
pub fn get_link(address: &String) -> (r: String)
    requires
        origin_of(uri_parts(address@)) is Some,
    ensures
        origin_of(uri_parts(address@)) == Some(r@),
{
    match origin_from_parts(parse_uri_parts(address.as_str())) {
        Some(r) => r,
        None => {
            proof {
                assert(false);
            }
            String::new()
        },
    }
}

/// The origin of `address` where it is a URI with a scheme and an
/// authority (as `get_link` gives it), else `None`.
pub fn get_link_checked(address: &String) -> (r: Option<String>)
    ensures
        r.deep_view() == origin_of(uri_parts(address@)),
{
    let parts = parse_uri_parts(address.as_str());
    match parts {
        Some((Some(_), Some(_))) => Some(get_link(address)),
        _ => None,
    }
}

/// The origin that the parts of a URI give: scheme, "://" and authority;
/// `None` where the text was no URI or lacks either part.
pub fn origin_from_parts(parts: Option<(Option<String>, Option<String>)>) -> (r: Option<String>)
    ensures
        r.deep_view() == origin_of(parts.deep_view()),
{
    match parts {
        Some((Some(scheme), Some(authority))) => {
            let mut r = scheme;
            r.append("://");
            r.append(authority.as_str());
            Some(r)
        },
        _ => None,
    }
}

} // verus!
