//! The configuration that the monitor is started with.

use crate::store::{optional_url, resolved_url};
use vstd::prelude::*;

verus! {

/// Seconds between two ticks where the configuration names none.
pub const DEFAULT_POLL_INTERVAL: u64 = 60;

/// Seconds after which a check that has not answered counts as unreachable.
pub const DEFAULT_CHECK_TIMEOUT: u64 = 10;

/// One endpoint to monitor.
#[derive(Clone, Debug)]
pub struct Entry {
    pub name: String,
    pub public_url: String,
    pub polling_url: Option<String>,
}

/// What an `Entry` stands for in contracts.
pub struct EntryView {
    pub name: Seq<char>,
    pub public_url: Seq<char>,
    pub polling_url: Option<Seq<char>>,
}

impl View for Entry {
    type V = EntryView;

    open spec fn view(&self) -> EntryView {
        EntryView {
            name: self.name@,
            public_url: self.public_url@,
            polling_url: optional_url(self.polling_url),
        }
    }
}

impl Entry {
    /// The URL that is checked: the polling URL where one is given, else the
    /// public URL.
    pub fn check_url(&self) -> (url: &String)
        ensures
            url@ == resolved_url(self@.public_url, self@.polling_url),
    {
        match &self.polling_url {
            Some(url) => url,
            None => &self.public_url,
        }
    }
}

/// The endpoints to monitor and the seconds between two ticks.
#[derive(Clone, Debug)]
pub struct Config {
    pub poll_interval: Option<u64>,
    pub entries: Vec<Entry>,
}

impl Config {
    /// Seconds between two ticks: those configured, else the default.
    pub fn interval_secs(&self) -> (secs: u64)
        ensures
            secs == match self.poll_interval {
                Some(configured) => configured,
                None => DEFAULT_POLL_INTERVAL,
            },
    {
        match self.poll_interval {
            Some(configured) => configured,
            None => DEFAULT_POLL_INTERVAL,
        }
    }
}

} // verus!
