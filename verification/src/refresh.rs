use crate::item::CacheItem;
use vstd::prelude::*;

verus! {

/// The refresher's state: waiting for the next cycle, or fetching.
pub enum RefreshState {
    Idle,
    Refreshing,
}

/// What the surrounding loop reports to the refresher.
pub enum RefreshEvent {
    /// The refresh interval elapsed.
    TimerFired,
    /// The remote source answered with a full snapshot.
    FetchSucceeded(Vec<CacheItem>),
    /// The remote source failed; this cycle is skipped.
    FetchFailed,
}

/// What the surrounding loop must do next.
pub enum RefreshAction {
    /// Ask the remote source for a fresh snapshot.
    StartFetch,
    /// Replace the item snapshot with these items, then compact the access
    /// log into the score snapshot.
    WriteSnapshotAndCompact(Vec<CacheItem>),
    /// Wait for the next timer; both snapshots stay as they are.
    Sleep,
}

/// The refresher's transition relation, in full: a timer starts a fetch; a
/// successful fetch is written and compacted; a failed fetch only sleeps, so
/// stale data is preferred over no data; any other event leaves the state
/// alone and sleeps. No transition ends the loop and none panics.
pub open spec fn spec_refresh_step(state: RefreshState, event: RefreshEvent) -> (
    RefreshState,
    RefreshAction,
) {
    match (state, event) {
        (RefreshState::Idle, RefreshEvent::TimerFired) => (
            RefreshState::Refreshing,
            RefreshAction::StartFetch,
        ),
        (RefreshState::Refreshing, RefreshEvent::FetchSucceeded(items)) => (
            RefreshState::Idle,
            RefreshAction::WriteSnapshotAndCompact(items),
        ),
        (RefreshState::Refreshing, RefreshEvent::FetchFailed) => (
            RefreshState::Idle,
            RefreshAction::Sleep,
        ),
        (s, _) => (s, RefreshAction::Sleep),
    }
}

/// One step of the refresh loop. The caller performs the returned action,
/// hands the resulting event back in, and repeats forever.
pub fn refresh_step(state: RefreshState, event: RefreshEvent) -> (r: (RefreshState, RefreshAction))
    ensures
        r == spec_refresh_step(state, event),
{
    match (state, event) {
        (RefreshState::Idle, RefreshEvent::TimerFired) => (
            RefreshState::Refreshing,
            RefreshAction::StartFetch,
        ),
        (RefreshState::Refreshing, RefreshEvent::FetchSucceeded(items)) => (
            RefreshState::Idle,
            RefreshAction::WriteSnapshotAndCompact(items),
        ),
        (RefreshState::Refreshing, RefreshEvent::FetchFailed) => (
            RefreshState::Idle,
            RefreshAction::Sleep,
        ),
        (s, _) => (s, RefreshAction::Sleep),
    }
}

/// A failed fetch never asks for a write: the snapshots on disk outlive any
/// number of failed cycles.
pub proof fn lemma_failed_fetch_writes_nothing(state: RefreshState)
    ensures
        !(spec_refresh_step(state, RefreshEvent::FetchFailed).1 is WriteSnapshotAndCompact),
{
}

} // verus!
