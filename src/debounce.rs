//! Debounced saving of the region cache: a save runs once fetches have
//! been quiet for five seconds.
use vstd::prelude::*;

verus! {

/// Quiet time, in milliseconds, before a pending save runs.
pub const DEBOUNCE_MS: u64 = 5_000;

/// What the save task does next.
#[derive(Debug, Clone, Copy, PartialEq, Eq, Structural)]
pub enum DebounceAction {
    /// Sleep this many milliseconds, then ask again.
    Wait(u64),
    /// Write the cache now.
    Save,
}

/// The state of the debounced save: when the last fetch finished (in
/// milliseconds on a monotonic clock), and whether a save task is pending.
#[derive(Debug, Clone, Copy, PartialEq, Eq, Structural)]
pub struct SaveDebounce {
    pub last_fetch_ms: Option<u64>,
    pub pending: bool,
}

/// The save task's step at `now`, given the last fetch: time elapsed since
/// it (none if the clock reads earlier), then wait for the rest of the quiet
/// period or save.
pub open spec fn action_at(last: Option<u64>, now: u64) -> DebounceAction {
    match last {
        Some(t) => {
            let since: int = if now >= t {
                now - t
            } else {
                0
            };
            if since < DEBOUNCE_MS {
                DebounceAction::Wait((DEBOUNCE_MS - since) as u64)
            } else {
                DebounceAction::Save
            }
        },
        None => DebounceAction::Save,
    }
}

impl SaveDebounce {
    /// No fetch seen, no save pending.
    pub fn new() -> (r: SaveDebounce)
        ensures
            r.last_fetch_ms is None,
            !r.pending,
    {
        SaveDebounce { last_fetch_ms: None, pending: false }
    }

    /// A fetch finished at `now_ms`: the quiet period restarts, and the
    /// result says whether a new save task must be started (none pending).
    pub fn on_fetch(&mut self, now_ms: u64) -> (start_task: bool)
        ensures
            final(self).last_fetch_ms == Some(now_ms),
            final(self).pending,
            start_task == !old(self).pending,
    {
        self.last_fetch_ms = Some(now_ms);
        if self.pending {
            false
        } else {
            self.pending = true;
            true
        }
    }

    /// What the pending save task does at `now_ms`: wait out the rest of the
    /// quiet period since the last fetch, or save.
    pub fn poll(&self, now_ms: u64) -> (r: DebounceAction)
        ensures
            r == action_at(self.last_fetch_ms, now_ms),
    {
        match self.last_fetch_ms {
            Some(t) => {
                let since: u64 = if now_ms >= t { now_ms - t } else { 0 };
                if since < DEBOUNCE_MS {
                    DebounceAction::Wait(DEBOUNCE_MS - since)
                } else {
                    DebounceAction::Save
                }
            },
            None => DebounceAction::Save,
        }
    }

    /// The save ran: nothing is pending and the quiet period is forgotten.
    pub fn on_saved(&mut self)
        ensures
            final(self).last_fetch_ms is None,
            !final(self).pending,
    {
        self.pending = false;
        self.last_fetch_ms = None;
    }
}

} // verus!
