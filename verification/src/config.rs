//! Scheduler configuration: dispatch pacing, the inclusion filter, the
//! blacklist, persistence switches, output directories, and the optional
//! ring of deferred waves.
use crate::pattern::{regex_match, Pattern};
use crate::ring::Ring;
use vstd::prelude::*;

verus! {

/// Default spacing between request dispatches, in milliseconds.
pub const DEFAULT_DELAY_MS: u64 = 500;

/// With `filter` unset every URL is admitted; with `blacklist` unset no URL
/// is excluded.
#[derive(Debug)]
pub struct SchedulerConfig {
    /// Minimum wall-clock spacing between successive dispatches, in
    /// milliseconds.
    pub delay: u64,
    /// URLs matching this go into the active pending queue; the rest are
    /// deferred to the ring.
    pub filter: Option<Pattern>,
    /// URLs matching this are interned, to prevent a revisit, but never
    /// scheduled.
    pub blacklist: Option<Pattern>,
    /// Do not persist HTML bodies.
    pub disregard_html: bool,
    /// Do not persist non-HTML bodies, and do not schedule images.
    pub disregard_other: bool,
    pub html_dir: String,
    pub other_dir: String,
    pub log_dir: String,
    /// The deferred-wave ring, when enabled.
    pub ring: Option<Ring>,
}

impl SchedulerConfig {
    /// A discovered URL goes into the active pending queue exactly when this
    /// holds.
    pub open spec fn filter_matches(&self, url: Seq<char>) -> bool {
        match self.filter {
            Some(p) => regex_match(p@, url),
            None => true,
        }
    }

    /// A discovered URL is interned but never scheduled exactly when this
    /// holds.
    pub open spec fn blacklist_matches(&self, url: Seq<char>) -> bool {
        match self.blacklist {
            Some(p) => regex_match(p@, url),
            None => false,
        }
    }

    pub fn url_in_filter(&self, url: &String) -> (r: bool)
        ensures
            r == self.filter_matches(url@),
    {
        match &self.filter {
            Some(p) => p.is_match(url.as_str()),
            None => true,
        }
    }

    pub fn url_in_blacklist(&self, url: &String) -> (r: bool)
        ensures
            r == self.blacklist_matches(url@),
    {
        match &self.blacklist {
            Some(p) => p.is_match(url.as_str()),
            None => false,
        }
    }

    pub fn delay(self, delay: u64) -> (r: Self)
        ensures
            r == (SchedulerConfig { delay, ..self }),
    {
        Self { delay, ..self }
    }

    pub fn filter(self, filter: Pattern) -> (r: Self)
        ensures
            r == (SchedulerConfig { filter: Some(filter), ..self }),
    {
        Self { filter: Some(filter), ..self }
    }

    pub fn blacklist(self, blacklist: Pattern) -> (r: Self)
        ensures
            r == (SchedulerConfig { blacklist: Some(blacklist), ..self }),
    {
        Self { blacklist: Some(blacklist), ..self }
    }

    pub fn disregard_html(self) -> (r: Self)
        ensures
            r == (SchedulerConfig { disregard_html: true, ..self }),
    {
        Self { disregard_html: true, ..self }
    }

    pub fn disregard_other(self) -> (r: Self)
        ensures
            r == (SchedulerConfig { disregard_other: true, ..self }),
    {
        Self { disregard_other: true, ..self }
    }

    pub fn html_dir(self, html_dir: String) -> (r: Self)
        ensures
            r == (SchedulerConfig { html_dir, ..self }),
    {
        Self { html_dir, ..self }
    }

    pub fn other_dir(self, other_dir: String) -> (r: Self)
        ensures
            r == (SchedulerConfig { other_dir, ..self }),
    {
        Self { other_dir, ..self }
    }

    pub fn log_dir(self, log_dir: String) -> (r: Self)
        ensures
            r == (SchedulerConfig { log_dir, ..self }),
    {
        Self { log_dir, ..self }
    }

    /// Enables the ring with the given wave budget.
    pub fn with_number_of_rings(self, number_of_rings: u8) -> (r: Self)
        ensures
            r.ring matches Some(ring) && ring.max == number_of_rings && ring.current == 0
                && ring.next@ == Seq::<usize>::empty(),
            r.delay == self.delay,
            r.filter == self.filter,
            r.blacklist == self.blacklist,
            r.disregard_html == self.disregard_html,
            r.disregard_other == self.disregard_other,
            r.html_dir == self.html_dir,
            r.other_dir == self.other_dir,
            r.log_dir == self.log_dir,
    {
        Self { ring: Some(Ring::new(number_of_rings)), ..self }
    }
}

impl Default for SchedulerConfig {
    fn default() -> (r: SchedulerConfig)
        ensures
            r.delay == DEFAULT_DELAY_MS,
            r.filter is None,
            r.blacklist is None,
            !r.disregard_html,
            !r.disregard_other,
            r.html_dir@ == "html"@,
            r.other_dir@ == "other"@,
            r.log_dir@ == "log"@,
            r.ring is None,
    {
        SchedulerConfig {
            delay: DEFAULT_DELAY_MS,
            filter: None,
            blacklist: None,
            disregard_html: false,
            disregard_other: false,
            html_dir: "html".to_owned(),
            other_dir: "other".to_owned(),
            log_dir: "log".to_owned(),
            ring: None,
        }
    }
}

} // verus!
