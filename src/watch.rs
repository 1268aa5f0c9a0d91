use vstd::prelude::*;

use crate::models::PathStatus;

verus! {

/// One change notification: the paths that a single filesystem event touched.
#[derive(Debug, Clone, PartialEq, Eq)]
pub struct ChangeEvent {
    pub paths: Vec<String>,
}

/// Why a watch could not be started.
#[derive(Debug, Clone, Copy, PartialEq, Eq, Structural)]
pub enum WatchError {
    /// The root does not exist.
    NotFound,
    /// The root is not a directory.
    InvalidArgument,
    /// Every subscription id has been handed out.
    IdsExhausted,
}

/// The live subscription: its id, the root it covers and the handle that keeps
/// it alive.
pub struct Subscription<H> {
    pub id: u64,
    pub root: String,
    pub handle: H,
}

/// The single slot that holds the active subscription. Ids are handed out in
/// increasing order, so a subscription that has been replaced can never be
/// mistaken for the one in the slot.
pub struct WatchSlot<H> {
    pub active: Option<Subscription<H>>,
    /// The last id handed out; 0 before the first.
    pub issued: u64,
}

impl<H> WatchSlot<H> {
    /// The slot never holds an id that was not handed out.
    pub open spec fn wf(&self) -> bool {
        self.active matches Some(s) ==> 0 < s.id <= self.issued
    }

    /// Events that a subscription with id `id` raises are delivered.
    pub open spec fn admits_spec(&self, id: u64) -> bool {
        self.active matches Some(s) && s.id == id
    }

    /// An empty slot: nothing is watched.
    pub fn new() -> (r: Self)
        ensures
            r.wf(),
            r.active is None,
            r.issued == 0,
    {
        WatchSlot { active: None, issued: 0 }
    }

    /// Hands out the id for the next subscription.
    pub fn reserve(&mut self) -> (r: Result<u64, WatchError>)
        requires
            old(self).wf(),
        ensures
            final(self).wf(),
            old(self).issued < u64::MAX ==> r == Ok::<u64, WatchError>((old(self).issued + 1) as u64)
                && final(self).issued == old(self).issued + 1,
            old(self).issued == u64::MAX ==> r == Err::<u64, WatchError>(WatchError::IdsExhausted)
                && final(self).issued == old(self).issued,
            final(self).active == old(self).active,
    {
        if self.issued == u64::MAX {
            return Err(WatchError::IdsExhausted);
        }
        self.issued = self.issued + 1;
        Ok(self.issued)
    }

    /// Installs a new subscription in place of the active one, and hands the
    /// one it replaces back so that its resources can be released.
    pub fn install(&mut self, id: u64, root: String, handle: H) -> (r: Option<H>)
        requires
            old(self).wf(),
            0 < id <= old(self).issued,
        ensures
            final(self).wf(),
            final(self).issued == old(self).issued,
            final(self).active matches Some(s) && s.id == id && s.root@ == root@ && s.handle == handle,
            r == (match old(self).active {
                Some(s) => Some(s.handle),
                None => None::<H>,
            }),
    {
        let previous = self.active.take();
        self.active = Some(Subscription { id, root, handle });
        match previous {
            Some(s) => Some(s.handle),
            None => None,
        }
    }

    /// Whether events that a subscription with id `id` raises are delivered.
    pub fn admits(&self, id: u64) -> (r: bool)
        ensures
            r == self.admits_spec(id),
    {
        match &self.active {
            Some(s) => s.id == id,
            None => false,
        }
    }

    /// The event to deliver for the paths that one notification of
    /// subscription `id` touched: `None` unless that subscription is active.
    pub fn route(&self, id: u64, paths: Vec<String>) -> (r: Option<ChangeEvent>)
        ensures
            r is Some <==> self.admits_spec(id),
            r matches Some(e) ==> e.paths@ == paths@,
    {
        if self.admits(id) {
            Some(ChangeEvent { paths })
        } else {
            None
        }
    }

    /// The root of the active subscription, if any.
    pub fn watched_root(&self) -> (r: Option<&String>)
        ensures
            r matches Some(s) ==> self.active matches Some(a) && s@ == a.root@,
            r is None <==> self.active is None,
    {
        match &self.active {
            Some(s) => Some(&s.root),
            None => None,
        }
    }
}

/// Whether a watch may start on a root of the given status.
pub fn check_watch_root(status: PathStatus) -> (r: Result<(), WatchError>)
    ensures
        status == PathStatus::Missing <==> r == Err::<(), WatchError>(WatchError::NotFound),
        status == PathStatus::NotDirectory <==> r == Err::<(), WatchError>(
            WatchError::InvalidArgument,
        ),
        status == PathStatus::Directory <==> r is Ok,
{
    match status {
        PathStatus::Missing => Err(WatchError::NotFound),
        PathStatus::NotDirectory => Err(WatchError::InvalidArgument),
        PathStatus::Directory => Ok(()),
    }
}

/// Once a new subscription has replaced another, events of the replaced one,
/// whatever root it covered, are no longer delivered: only the new
/// subscription's are. Ids come from `reserve`, so the replaced id is smaller.
pub proof fn lemma_replacement_silences_old<H>(
    before: WatchSlot<H>,
    after: WatchSlot<H>,
    old_id: u64,
    new_id: u64,
)
    requires
        before.wf(),
        before.admits_spec(old_id),
        new_id > before.issued,
        after.wf(),
        after.active matches Some(s) && s.id == new_id,
    ensures
        !after.admits_spec(old_id),
        after.admits_spec(new_id),
        forall|id: u64| #[trigger] after.admits_spec(id) ==> id == new_id,
{
}

} // verus!
