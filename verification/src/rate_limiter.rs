//! Reconnection rate limiting: how long to wait before connecting to a URL
//! again, growing with the failures since the last success.
//!
//! Times are milliseconds on the caller's monotonic clock, passed in.
use vstd::prelude::*;
use crate::collections::StrMap;

verus! {

/// What the limiter knows of one URL.
#[derive(Debug)]
pub struct UrlState {
    /// Whether currently connected.
    pub connected: bool,
    /// Time of the last connection or disconnection (or first request).
    pub last_attempt: u64,
    /// Number of disconnections since the last connection.
    pub failure_count: u32,
    /// Number of turns requested.
    pub pending_turns: u32,
}

/// Rate limiter for reconnection attempts.
#[derive(Debug)]
pub struct ReconnectRateLimiter {
    /// Base delay between reconnection attempts in milliseconds.
    pub delay_ms: u64,
    /// State per URL.
    pub connections: StrMap<UrlState>,
}

/// The state of a URL first seen at `now_ms`.
pub open spec fn fresh_state(now_ms: u64) -> UrlState {
    UrlState { connected: false, last_attempt: now_ms, failure_count: 0, pending_turns: 0 }
}

/// The state of a URL, the fresh one if it is not known yet.
pub open spec fn state_of(m: Map<Seq<char>, UrlState>, url: Seq<char>, now_ms: u64) -> UrlState {
    if m.contains_key(url) { m[url] } else { fresh_state(now_ms) }
}

/// The delay before connecting: none when connected, otherwise the base
/// delay times one more than the failures (counting at most ten).
pub open spec fn turn_delay(s: UrlState, delay_ms: u64) -> int {
    if s.connected { 0 } else { delay_ms * ((if s.failure_count < 10 { s.failure_count as int } else { 10 }) + 1) }
}

/// The wait before connecting at `now_ms`: what is left of the delay since
/// the last attempt.
pub open spec fn turn_wait(s: UrlState, delay_ms: u64, now_ms: u64) -> int {
    let elapsed: int = if now_ms >= s.last_attempt { now_ms - s.last_attempt } else { 0 };
    let d = turn_delay(s, delay_ms);
    if elapsed < d { d - elapsed } else { 0 }
}

impl ReconnectRateLimiter {
    /// A limiter with the given base delay and no URL known.
    pub fn new(delay_ms: u64) -> (r: Self)
        ensures
            r.delay_ms == delay_ms,
            r.connections@ == Map::<Seq<char>, UrlState>::empty(),
    {
        ReconnectRateLimiter { delay_ms, connections: StrMap::new() }
    }

    /// The state of `url`, taken out of the map (the fresh state if it is
    /// not known).
    fn take_state(&mut self, url: &str, now_ms: u64) -> (s: UrlState)
        ensures
            s == state_of(old(self).connections@, url@, now_ms),
            final(self).connections@ == old(self).connections@.remove(url@),
            final(self).delay_ms == old(self).delay_ms,
    {
        match self.connections.remove(url) {
            Some(s) => s,
            None => UrlState { connected: false, last_attempt: now_ms, failure_count: 0, pending_turns: 0 },
        }
    }

    /// Ask for a turn to connect to `url` at `now_ms`: the request is
    /// counted, and the answer is how many milliseconds to wait (see
    /// `turn_wait`).
    pub fn get_turn(&mut self, url: &str, now_ms: u64) -> (wait: u64)
        requires
            old(self).delay_ms * 11 <= u64::MAX,
            state_of(old(self).connections@, url@, now_ms).pending_turns < u32::MAX,
        ensures
            wait == turn_wait(state_of(old(self).connections@, url@, now_ms), old(self).delay_ms, now_ms),
            final(self).connections@ == old(self).connections@.insert(url@, UrlState {
                pending_turns: (state_of(old(self).connections@, url@, now_ms).pending_turns + 1) as u32,
                ..state_of(old(self).connections@, url@, now_ms)
            }),
            final(self).delay_ms == old(self).delay_ms,
    {
        let mut state = self.take_state(url, now_ms);
        state.pending_turns = state.pending_turns + 1;
        let delay: u64 = if state.connected {
            0
        } else {
            let f: u64 = if state.failure_count < 10 { state.failure_count as u64 } else { 10 };
            proof {
                assert(self.delay_ms * (f + 1) <= self.delay_ms * 11) by (nonlinear_arith)
                    requires f <= 10;
            }
            self.delay_ms * (f + 1)
        };
        let elapsed: u64 = if now_ms >= state.last_attempt { now_ms - state.last_attempt } else { 0 };
        let wait = if elapsed < delay { delay - elapsed } else { 0 };
        self.connections.insert(String::from_str(url), state);
        wait
    }

    /// A connection to `url` was made at `now_ms`: it is connected, with no
    /// failures, and this is its last attempt.
    pub fn on_conn(&mut self, url: &str, now_ms: u64)
        ensures
            final(self).connections@ == old(self).connections@.insert(url@, UrlState {
                connected: true,
                failure_count: 0,
                last_attempt: now_ms,
                ..state_of(old(self).connections@, url@, now_ms)
            }),
            final(self).delay_ms == old(self).delay_ms,
    {
        let mut state = self.take_state(url, now_ms);
        state.connected = true;
        state.failure_count = 0;
        state.last_attempt = now_ms;
        self.connections.insert(String::from_str(url), state);
    }

    /// The connection to `url` was lost at `now_ms`: it is not connected,
    /// has one more failure, and this is its last attempt.
    pub fn on_diss(&mut self, url: &str, now_ms: u64)
        requires
            state_of(old(self).connections@, url@, now_ms).failure_count < u32::MAX,
        ensures
            final(self).connections@ == old(self).connections@.insert(url@, UrlState {
                connected: false,
                failure_count: (state_of(old(self).connections@, url@, now_ms).failure_count + 1) as u32,
                last_attempt: now_ms,
                ..state_of(old(self).connections@, url@, now_ms)
            }),
            final(self).delay_ms == old(self).delay_ms,
    {
        let mut state = self.take_state(url, now_ms);
        state.connected = false;
        state.failure_count = state.failure_count + 1;
        state.last_attempt = now_ms;
        self.connections.insert(String::from_str(url), state);
    }

    /// Whether `url` is connected.
    pub fn is_connected(&self, url: &str) -> (b: bool)
        ensures
            b == (self.connections@.contains_key(url@) && self.connections@[url@].connected),
    {
        match self.connections.get(url) {
            Some(s) => s.connected,
            None => false,
        }
    }

    /// The failures of `url` since its last connection.
    pub fn failure_count(&self, url: &str) -> (n: u32)
        ensures
            n == (if self.connections@.contains_key(url@) { self.connections@[url@].failure_count } else { 0 }),
    {
        match self.connections.get(url) {
            Some(s) => s.failure_count,
            None => 0,
        }
    }

    /// Forget `url`.
    pub fn reset(&mut self, url: &str)
        ensures
            final(self).connections@ == old(self).connections@.remove(url@),
            final(self).delay_ms == old(self).delay_ms,
    {
        self.connections.remove(url);
    }
}

/// A connected URL gets its turn at once.
pub proof fn lemma_connected_no_wait(s: UrlState, delay_ms: u64, now_ms: u64)
    requires
        s.connected,
    ensures
        turn_wait(s, delay_ms, now_ms) == 0,
{
}

/// The wait never exceeds eleven base delays, however many failures came
/// before.
pub proof fn lemma_wait_bounded(s: UrlState, delay_ms: u64, now_ms: u64)
    ensures
        0 <= turn_wait(s, delay_ms, now_ms) <= 11 * delay_ms,
{
    let f: int = if s.failure_count < 10 { s.failure_count as int } else { 10 };
    assert(delay_ms * (f + 1) <= delay_ms * 11) by (nonlinear_arith)
        requires 0 <= f <= 10;
    assert(delay_ms * (f + 1) >= 0) by (nonlinear_arith)
        requires 0 <= f;
}

/// More failures never shorten the delay of a URL that is not connected.
pub proof fn lemma_delay_grows_with_failures(s: UrlState, delay_ms: u64, more: u32)
    requires
        !s.connected,
        s.failure_count <= more,
    ensures
        turn_delay(s, delay_ms) <= turn_delay(UrlState { failure_count: more, ..s }, delay_ms),
{
    let f: int = if s.failure_count < 10 { s.failure_count as int } else { 10 };
    let g: int = if more < 10 { more as int } else { 10 };
    assert(delay_ms * (f + 1) <= delay_ms * (g + 1)) by (nonlinear_arith)
        requires f <= g;
}

} // verus!
