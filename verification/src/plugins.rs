//! The plugins of the library: each runs its part of the networking
//! update in a named schedule, `PreUpdate` unless another is given.
use vstd::prelude::*;
use crate::headers::HeaderId;

verus! {

/// The schedule plugins run in unless another is given.
pub open spec fn default_schedule() -> &'static str {
    "PreUpdate"
}

/// Runs the endpoint update loop, which fires connection events, in a schedule.
pub struct EndpointPlugin {
    schedule: &'static str,
}

impl EndpointPlugin {
    pub closed spec fn spec_schedule(&self) -> &'static str {
        self.schedule
    }

    /// The plugin, running in `schedule`.
    pub fn new(schedule: &'static str) -> (r: Self)
        ensures
            r.spec_schedule() == schedule,
    {
        EndpointPlugin { schedule }
    }

    /// The schedule the plugin runs in.
    pub fn schedule(&self) -> (r: &'static str)
        ensures
            r == self.spec_schedule(),
    {
        self.schedule
    }
}

impl Default for EndpointPlugin {
    fn default() -> (r: Self)
        ensures
            r.spec_schedule() == default_schedule(),
    {
        EndpointPlugin::new("PreUpdate")
    }
}

/// Runs stream header handling in a schedule.
pub struct StreamHeaderPlugin {
    schedule: &'static str,
}

impl StreamHeaderPlugin {
    pub closed spec fn spec_schedule(&self) -> &'static str {
        self.schedule
    }

    /// The plugin, running in `schedule`.
    pub fn new(schedule: &'static str) -> (r: Self)
        ensures
            r.spec_schedule() == schedule,
    {
        StreamHeaderPlugin { schedule }
    }

    /// The schedule the plugin runs in.
    pub fn schedule(&self) -> (r: &'static str)
        ensures
            r == self.spec_schedule(),
    {
        self.schedule
    }
}

impl Default for StreamHeaderPlugin {
    fn default() -> (r: Self)
        ensures
            r.spec_schedule() == default_schedule(),
    {
        StreamHeaderPlugin::new("PreUpdate")
    }
}

/// Runs stream event routing in a schedule.
pub struct StreamPlugin {
    schedule: &'static str,
}

impl StreamPlugin {
    pub closed spec fn spec_schedule(&self) -> &'static str {
        self.schedule
    }

    /// The plugin, running in `schedule`.
    pub fn new(schedule: &'static str) -> (r: Self)
        ensures
            r.spec_schedule() == schedule,
    {
        StreamPlugin { schedule }
    }

    /// The schedule the plugin runs in.
    pub fn schedule(&self) -> (r: &'static str)
        ensures
            r == self.spec_schedule(),
    {
        self.schedule
    }
}

impl Default for StreamPlugin {
    fn default() -> (r: Self)
        ensures
            r.spec_schedule() == default_schedule(),
    {
        StreamPlugin::new("PreUpdate")
    }
}

/// Runs the update of QUIC endpoints, which fires their events, in a schedule.
pub struct BevyEndpointPlugin {
    schedule: &'static str,
}

impl BevyEndpointPlugin {
    pub closed spec fn spec_schedule(&self) -> &'static str {
        self.schedule
    }

    /// The plugin, running in `schedule`.
    pub fn new(schedule: &'static str) -> (r: Self)
        ensures
            r.spec_schedule() == schedule,
    {
        BevyEndpointPlugin { schedule }
    }

    /// The schedule the plugin runs in.
    pub fn schedule(&self) -> (r: &'static str)
        ensures
            r == self.spec_schedule(),
    {
        self.schedule
    }
}

impl Default for BevyEndpointPlugin {
    fn default() -> (r: Self)
        ensures
            r.spec_schedule() == default_schedule(),
    {
        BevyEndpointPlugin::new("PreUpdate")
    }
}

/// Runs the WebTransport handshakes of endpoints in a schedule.
pub struct WebTransportEndpointPlugin {
    schedule: &'static str,
}

impl WebTransportEndpointPlugin {
    pub closed spec fn spec_schedule(&self) -> &'static str {
        self.schedule
    }

    /// The plugin, running in `schedule`.
    pub fn new(schedule: &'static str) -> (r: Self)
        ensures
            r.spec_schedule() == schedule,
    {
        WebTransportEndpointPlugin { schedule }
    }

    /// The schedule the plugin runs in.
    pub fn schedule(&self) -> (r: &'static str)
        ensures
            r == self.spec_schedule(),
    {
        self.schedule
    }
}

impl Default for WebTransportEndpointPlugin {
    fn default() -> (r: Self)
        ensures
            r.spec_schedule() == default_schedule(),
    {
        WebTransportEndpointPlugin::new("PreUpdate")
    }
}

/// Hands out header ids: each stream type that adds this plugin gets the
/// next id, in the order the plugins are added, starting at 0.
pub struct HeaderPlugin;

impl HeaderPlugin {
    /// Assigns the next header id. `next` is the counter of ids handed out
    /// so far (`None` before the first); returns the id and the new counter.
    pub fn build(&self, next: Option<u16>) -> (r: (HeaderId, u16))
        requires
            next != Some(u16::MAX),
        ensures
            next is None ==> r.0.value() == 0 && r.1 == 1,
            next matches Some(n) ==> r.0.value() == n && r.1 == n + 1,
            (r.0.value(), r.1) == next_header(next),
    {
        match next {
            Some(n) => (HeaderId::new(n), n + 1),
            None => (HeaderId::new(0), 1),
        }
    }
}

/// The id the next header plugin gets and the counter after it, given the
/// counter so far.
pub open spec fn next_header(next: Option<u16>) -> (u16, u16) {
    match next {
        Some(n) => (n, (n + 1) as u16),
        None => (0, 1),
    }
}

/// The counter after `k` header plugins were built.
pub open spec fn counter_after(k: nat) -> Option<u16> {
    if k == 0 {
        None
    } else {
        Some(k as u16)
    }
}

/// Header plugins built one after another get the ids 0, 1, 2, ...: the
/// plugin built after `k` others gets id `k`, and leaves the counter of
/// `k + 1` builds.
pub proof fn law_header_ids_count_up(k: nat)
    requires
        k < 65535,
    ensures
        next_header(counter_after(k)).0 == k,
        counter_after(k + 1) == Some(next_header(counter_after(k)).1),
{
}

impl Default for HeaderPlugin {
    fn default() -> (r: Self) {
        HeaderPlugin
    }
}

/// Adds browser endpoints; browsers need no update loop of their own.
pub struct BrowserEndpointPlugin;

impl Default for BrowserEndpointPlugin {
    fn default() -> (r: Self) {
        BrowserEndpointPlugin
    }
}

} // verus!
