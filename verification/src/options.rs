//! The settings of a tracker.

use vstd::prelude::*;

verus! {

/// The settings of a tracker.
#[derive(Debug, Clone)]
pub struct WatchOptions {
    /// Only source files are tracked.
    pub only_source: bool,
    /// The application whose own ignore file is read too.
    pub app_name: Option<String>,
    /// How long to wait for changes to settle, in nanoseconds.
    pub settle_delay: u128,
    /// How many events may wait to be read.
    pub event_channel_capacity: usize,
}

impl Default for WatchOptions {
    fn default() -> (res: Self)
        ensures
            !res.only_source,
            res.app_name is None,
            res.settle_delay == 50_000_000,
            res.event_channel_capacity == 1024,
    {
        WatchOptions {
            only_source: false,
            app_name: None,
            settle_delay: 50_000_000,
            event_channel_capacity: 1024,
        }
    }
}

impl WatchOptions {
    /// Whether only source files are tracked.
    pub fn only_source(&self) -> (res: bool)
        ensures
            res == self.only_source,
    {
        self.only_source
    }
}

} // verus!
