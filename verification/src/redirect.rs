//! The decisions taken while a response redirects: follow its `Location`,
//! stop because it is no redirect, or give up on a loop.

use vstd::prelude::*;

verus! {

/// The most redirects followed from one response.
pub const MAX_REDIRECTS: u32 = 5;

/// The statuses that are followed: 301 Moved Permanently, 307 Temporary
/// Redirect and 308 Permanent Redirect.
pub open spec fn is_followed_redirect(status: u16) -> bool {
    status == 301 || status == 307 || status == 308
}

/// What to do with a response.
pub enum RedirectStep {
    /// It is no redirect: it is the answer.
    Finish,
    /// Five redirects were followed without an answer: a loop, and no
    /// response is the answer.
    GiveUp,
    /// Request its `Location`.
    Follow,
}

/// How many redirects were followed along one chain: the request and every
/// request made for a `Location` on the way share one value, so a cycle of
/// redirects ends in `GiveUp`.
pub struct Redirects {
    followed: u32,
}

impl Redirects {
    /// How many redirects were followed.
    pub closed spec fn followed(&self) -> nat {
        self.followed as nat
    }

    /// No redirect followed yet.
    pub fn new() -> (r: Redirects)
        ensures
            r.followed() == 0,
    {
        Redirects { followed: 0 }
    }

    /// Decides on a response with status `status`: `Finish` where it is no
    /// followed redirect, `GiveUp` once five were followed, else `Follow`,
    /// which counts one more. So no request follows more than five.
    pub fn decide(&mut self, status: u16) -> (r: RedirectStep)
        requires
            old(self).followed() <= MAX_REDIRECTS,
        ensures
            final(self).followed() <= MAX_REDIRECTS,
            !is_followed_redirect(status) ==> r is Finish && final(self).followed() == old(self).followed(),
            is_followed_redirect(status) && old(self).followed() == MAX_REDIRECTS ==> r is GiveUp
                && final(self).followed() == old(self).followed(),
            is_followed_redirect(status) && old(self).followed() < MAX_REDIRECTS ==> r is Follow
                && final(self).followed() == old(self).followed() + 1,
            !(status == 301 || status == 307 || status == 308) ==> r is Finish && final(self).followed()
                == old(self).followed(),
            (status == 301 || status == 307 || status == 308) ==> !(r is Finish),
    {
        if !(status == 301 || status == 307 || status == 308) {
            return RedirectStep::Finish;
        }
        if self.followed == MAX_REDIRECTS {
            return RedirectStep::GiveUp;
        }
        self.followed = self.followed + 1;
        RedirectStep::Follow
    }
}

/// The statuses followed are 301 Moved Permanently, 307 Temporary Redirect
/// and 308 Permanent Redirect, and no other: 302, 303 and every status that
/// is no redirect are answers.
pub proof fn lemma_followed_statuses(status: u16)
    ensures
        is_followed_redirect(status) <==> (status == 301 || status == 307 || status == 308),
        !is_followed_redirect(302),
        !is_followed_redirect(303),
{
}

} // verus!
