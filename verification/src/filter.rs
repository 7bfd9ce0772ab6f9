//! Caller-supplied allocation filters.
//!
//! A filter overlays the caller's own liveness knowledge on top of the
//! persisted bitmap: `true` means "acceptable to hand this page out", `false`
//! means "pretend it is taken". The bitmap consults the filter during search
//! only; it never marks a rejected id as allocated.

use vstd::prelude::*;

verus! {

/// A predicate on page ids, consulted during allocation search.
///
/// The executable `check` must agree with the specification-level `accepts`,
/// so the predicate is referentially transparent for the duration of a call,
/// as the allocator requires.
pub trait PageFilter: Sized {
    /// What the filter holds of each page id.
    spec fn accepts(&self, page_id: u32) -> bool;

    /// Decides `page_id`, agreeing with `accepts`.
    fn check(&self, page_id: u32) -> (r: bool)
        ensures
            r == self.accepts(page_id),
    ;
}

/// The filter that accepts every page id.
pub struct AcceptAll;

impl PageFilter for AcceptAll {
    open spec fn accepts(&self, page_id: u32) -> bool {
        true
    }

    fn check(&self, page_id: u32) -> (r: bool) {
        true
    }
}

/// The filter that rejects every page id.
pub struct RejectAll;

impl PageFilter for RejectAll {
    open spec fn accepts(&self, page_id: u32) -> bool {
        false
    }

    fn check(&self, page_id: u32) -> (r: bool) {
        false
    }
}

/// A filter that rejects exactly the page ids in a list.
pub struct RejectIds {
    ids: Vec<u32>,
}

impl RejectIds {
    /// The filter rejecting exactly the ids in `ids`.
    pub fn new(ids: Vec<u32>) -> (r: RejectIds)
        ensures
            r.rejected() == ids@,
    {
        RejectIds { ids }
    }

    /// The list of rejected page ids.
    pub closed spec fn rejected(&self) -> Seq<u32> {
        self.ids@
    }
}

impl PageFilter for RejectIds {
    open spec fn accepts(&self, page_id: u32) -> bool {
        !self.rejected().contains(page_id)
    }

    fn check(&self, page_id: u32) -> (r: bool) {
        let n = self.ids.len();
        let mut k: usize = 0;
        while k < n
            invariant
                n == self.ids.len(),
                0 <= k <= n,
                forall|j: int| 0 <= j < k ==> self.ids@[j] != page_id,
            decreases n - k,
        {
            if self.ids[k] == page_id {
                return false;
            }
            k += 1;
        }
        true
    }
}

/// A filter that accepts only page ids above a threshold.
pub struct AcceptAbove {
    threshold: u32,
}

impl AcceptAbove {
    /// The filter accepting exactly the ids greater than `threshold`.
    pub fn new(threshold: u32) -> (r: AcceptAbove)
        ensures
            r.threshold() == threshold,
    {
        AcceptAbove { threshold }
    }

    /// The threshold below or at which ids are rejected.
    pub closed spec fn threshold(&self) -> u32 {
        self.threshold
    }
}

impl PageFilter for AcceptAbove {
    open spec fn accepts(&self, page_id: u32) -> bool {
        page_id > self.threshold()
    }

    fn check(&self, page_id: u32) -> (r: bool) {
        page_id > self.threshold
    }
}

} // verus!
