//! Values kept under numbers, as images are kept under their handles.

use crate::text::{copy_text, decimal, push_decimal};
use std::collections::HashMap;
use vstd::prelude::*;

verus! {

broadcast use vstd::std_specs::hash::group_hash_axioms;

/// Values under handles, and the handle that comes next.
#[verifier::reject_recursive_types(T)]
pub struct Registry<T> {
    next: u64,
    items: HashMap<u64, T>,
}

impl<T> Registry<T> {
    /// The values under their handles.
    pub closed spec fn content(&self) -> Map<u64, T> {
        self.items@
    }

    /// The handle that comes next.
    pub closed spec fn upcoming(&self) -> u64 {
        self.next
    }

    /// Whether every handle in use came before the next one.
    pub open spec fn wf(&self) -> bool {
        forall|h: u64| #[trigger] self.content().dom().contains(h) ==> h < self.upcoming()
    }

    /// A registry without values; handles start at 1.
    pub fn new() -> (r: Self)
        ensures
            r.wf(),
            r.upcoming() == 1,
            r.content() == Map::<u64, T>::empty(),
    {
        let r = Registry { next: 1, items: HashMap::new() };
        assert(r.content() =~= Map::<u64, T>::empty());
        r
    }

    /// Keeps a value under the next handle. Handles count up, and start again at 0 behind
    /// the largest.
    pub fn insert_image(&mut self, t: T) -> (h: u64)
        ensures
            h == old(self).upcoming(),
            final(self).content() == old(self).content().insert(h, t),
            final(self).upcoming() == (if h == u64::MAX {
                0
            } else {
                (h + 1) as u64
            }),
            old(self).wf() && h < u64::MAX ==> final(self).wf(),
    {
        let h = self.next;
        self.next = h.wrapping_add(1);
        self.items.insert(h, t);
        h
    }

    /// The value under a handle.
    pub fn with_image(&self, h: u64) -> (r: Result<&T, String>)
        ensures
            match r {
                Ok(t) => self.content().dom().contains(h) && *t == self.content()[h],
                Err(e) => !self.content().dom().contains(h) && e@ == unknown_handle(h),
            },
    {
        match self.items.get(&h) {
            Some(t) => Ok(t),
            None => Err(name_unknown(h)),
        }
    }

    /// Takes the value under a handle out, to be changed and put back.
    pub fn take_image(&mut self, h: u64) -> (r: Result<T, String>)
        ensures
            final(self).content() == old(self).content().remove(h),
            final(self).upcoming() == old(self).upcoming(),
            old(self).wf() ==> final(self).wf(),
            match r {
                Ok(t) => old(self).content().dom().contains(h) && t == old(self).content()[h],
                Err(e) => !old(self).content().dom().contains(h) && e@ == unknown_handle(h),
            },
    {
        let ghost before = self.items@;
        let r = match self.items.remove(&h) {
            Some(t) => Ok(t),
            None => {
                assert(self.items@ =~= before.remove(h));
                Err(name_unknown(h))
            },
        };
        proof {
            assert forall|k: u64| #[trigger] self.content().dom().contains(k) implies old(
                self,
            ).content().dom().contains(k) by {}
        }
        r
    }

    /// Puts a value back under its handle.
    pub fn put_image(&mut self, h: u64, t: T)
        ensures
            final(self).content() == old(self).content().insert(h, t),
            final(self).upcoming() == old(self).upcoming(),
            old(self).wf() && h < old(self).upcoming() ==> final(self).wf(),
    {
        self.items.insert(h, t);
    }

    /// Lets the value under a handle go; says whether there was one.
    pub fn op_img_close(&mut self, h: u64) -> (closed: bool)
        ensures
            closed == old(self).content().dom().contains(h),
            final(self).content() == old(self).content().remove(h),
            final(self).upcoming() == old(self).upcoming(),
            old(self).wf() ==> final(self).wf(),
    {
        self.take_image(h).is_ok()
    }
}

/// The complaint about a handle that is not in use.
pub open spec fn unknown_handle(h: u64) -> Seq<char> {
    "unknown image handle: "@ + decimal(h as nat)
}

fn name_unknown(h: u64) -> (r: String)
    ensures
        r@ == unknown_handle(h),
{
    let mut s = copy_text("unknown image handle: ");
    push_decimal(&mut s, h);
    s
}

/// A new handle is not in use, and every other value stays where it is.
pub proof fn new_handles_are_fresh<T>(before: Registry<T>, h: u64, t: T, other: u64)
    requires
        before.wf(),
        h == before.upcoming(),
        other != h,
    ensures
        !before.content().dom().contains(h),
        before.content().insert(h, t).dom().contains(other) == before.content().dom().contains(
            other,
        ),
        before.content().dom().contains(other) ==> before.content().insert(h, t)[other]
            == before.content()[other],
{
}

} // verus!
