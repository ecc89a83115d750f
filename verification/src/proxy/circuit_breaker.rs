//! Circuit breakers: a service that keeps failing is left alone for a while.
use crate::clock::Clock;
use crate::config::{CircuitBreakerConfig, ProxyConfig};
use crate::registry::Registry;
use std::sync::Arc;
use vstd::prelude::*;

verus! {

#[derive(Debug, Clone, Copy, PartialEq, Eq, Structural)]
pub enum CircuitState {
    Closed,
    Open,
    HalfOpen,
}

/// What is kept of one service. Times are nanoseconds of the breaker's clock.
#[derive(Debug, Clone, Copy)]
pub struct CircuitBreakerState {
    pub state: CircuitState,
    pub failure_count: u32,
    pub last_failure_time: Option<u64>,
    pub half_open_calls: u32,
    pub success_count: u32,
}

pub struct CircuitBreaker {
    config: Arc<ProxyConfig>,
    states: Registry<CircuitBreakerState>,
    clock: Clock,
}

impl Default for CircuitBreakerState {
    fn default() -> (r: Self)
        ensures
            r == fresh(),
    {
        CircuitBreakerState {
            state: CircuitState::Closed,
            failure_count: 0,
            last_failure_time: None,
            half_open_calls: 0,
            success_count: 0,
        }
    }
}

/// The state of a service of which nothing is known.
pub open spec fn fresh() -> CircuitBreakerState {
    CircuitBreakerState {
        state: CircuitState::Closed,
        failure_count: 0,
        last_failure_time: None,
        half_open_calls: 0,
        success_count: 0,
    }
}

/// The failures have come to the threshold, and are not counted past it. With a threshold of
/// zero the first failure is enough, and the count is one, or zero after a failed trial.
pub open spec fn has_failed_enough(s: CircuitBreakerState, c: CircuitBreakerConfig) -> bool {
    &&& s.failure_count >= c.failure_threshold
    &&& s.failure_count == c.failure_threshold || (c.failure_threshold == 0 && s.failure_count == 1)
}

/// The states that a breaker can reach under a configuration.
pub open spec fn reachable(s: CircuitBreakerState, c: CircuitBreakerConfig) -> bool {
    match s.state {
        CircuitState::Closed => s.failure_count == 0 || s.failure_count < c.failure_threshold,
        CircuitState::Open => s.last_failure_time is Some && has_failed_enough(s, c),
        CircuitState::HalfOpen => {
            &&& s.last_failure_time is Some
            &&& has_failed_enough(s, c)
            &&& 1 <= s.half_open_calls
            &&& s.half_open_calls == 1 || s.half_open_calls <= c.half_open_max_calls
            &&& s.success_count == 0 || s.success_count < c.half_open_max_calls
        },
    }
}

/// Whether the time to wait after the last failure is over.
pub open spec fn recovered(s: CircuitBreakerState, c: CircuitBreakerConfig, now: u64) -> bool {
    s.last_failure_time matches Some(at) && (if now >= at {
        now - at
    } else {
        0
    }) >= c.recovery_timeout_ms * 1_000_000
}

/// Whether a call may go out at a time, and the state after asking.
pub open spec fn ask(s: CircuitBreakerState, c: CircuitBreakerConfig, now: u64) -> (
    bool,
    CircuitBreakerState,
) {
    match s.state {
        CircuitState::Closed => (true, s),
        CircuitState::Open => if recovered(s, c, now) {
            (
                true,
                CircuitBreakerState {
                    state: CircuitState::HalfOpen,
                    half_open_calls: 1,
                    success_count: 0,
                    ..s
                },
            )
        } else {
            (false, s)
        },
        CircuitState::HalfOpen => if s.half_open_calls < c.half_open_max_calls {
            (true, CircuitBreakerState { half_open_calls: (s.half_open_calls + 1) as u32, ..s })
        } else {
            (false, s)
        },
    }
}

/// The state after a call that succeeded.
pub open spec fn succeed(s: CircuitBreakerState, c: CircuitBreakerConfig) -> CircuitBreakerState {
    match s.state {
        CircuitState::Closed => CircuitBreakerState { failure_count: 0, ..s },
        CircuitState::Open => s,
        CircuitState::HalfOpen => if s.success_count + 1 >= c.half_open_max_calls {
            CircuitBreakerState {
                state: CircuitState::Closed,
                failure_count: 0,
                last_failure_time: None,
                success_count: (s.success_count + 1) as u32,
                ..s
            }
        } else {
            CircuitBreakerState { success_count: (s.success_count + 1) as u32, ..s }
        },
    }
}

/// The state after a call that failed at a time.
pub open spec fn fail(
    s: CircuitBreakerState,
    c: CircuitBreakerConfig,
    now: u64,
) -> CircuitBreakerState {
    match s.state {
        CircuitState::Closed => CircuitBreakerState {
            state: if s.failure_count + 1 >= c.failure_threshold {
                CircuitState::Open
            } else {
                CircuitState::Closed
            },
            failure_count: (s.failure_count + 1) as u32,
            last_failure_time: Some(now),
            ..s
        },
        CircuitState::Open => CircuitBreakerState { last_failure_time: Some(now), ..s },
        CircuitState::HalfOpen => CircuitBreakerState {
            state: CircuitState::Open,
            failure_count: c.failure_threshold,
            last_failure_time: Some(now),
            ..s
        },
    }
}

/// The state of a service in a table, `fresh` where it is not there.
pub open spec fn state_in(
    states: Map<Seq<char>, CircuitBreakerState>,
    name: Seq<char>,
) -> CircuitBreakerState {
    if states.contains_key(name) {
        states[name]
    } else {
        fresh()
    }
}

/// A row of the table of all states says of a service what is kept of it.
pub open spec fn row_describes(
    row: (String, CircuitState, u32),
    name: Seq<char>,
    states: Map<Seq<char>, CircuitBreakerState>,
) -> bool {
    &&& row.0@ == name
    &&& states.contains_key(name)
    &&& row.1 == states[name].state
    &&& row.2 == states[name].failure_count
}

impl CircuitBreaker {
    /// The states by service.
    pub closed spec fn view(&self) -> Map<Seq<char>, CircuitBreakerState> {
        self.states@
    }

    pub closed spec fn settings(&self) -> CircuitBreakerConfig {
        self.config.circuit_breaker
    }

    pub closed spec fn table_sound(&self) -> bool {
        self.states.well_formed()
    }

    /// Every service is in a state that its breaker can reach.
    pub open spec fn well_formed(&self) -> bool {
        &&& self.table_sound()
        &&& forall|name: Seq<char>| #[trigger]
            self@.contains_key(name) ==> reachable(self@[name], self.settings())
    }

    pub fn new(config: Arc<ProxyConfig>) -> (r: Self)
        ensures
            r.well_formed(),
            r.settings() == config.circuit_breaker,
            r@ == Map::<Seq<char>, CircuitBreakerState>::empty(),
    {
        CircuitBreaker { config, states: Registry::new(), clock: Clock::new() }
    }

    fn get_or_create_state(&mut self, service_name: &str) -> (r: CircuitBreakerState)
        requires
            old(self).well_formed(),
        ensures
            final(self).well_formed(),
            final(self).settings() == old(self).settings(),
            r == state_in(old(self)@, service_name@),
            final(self)@ == old(self)@.insert(service_name@, r),
    {
        match self.states.get(service_name) {
            Some(s) => {
                assert(self@ =~= self@.insert(service_name@, *s));
                *s
            },
            None => {
                let s: CircuitBreakerState = CircuitBreakerState::default();
                self.states.insert(service_name, s);
                s
            },
        }
    }

    /// The time of the breaker's clock, of which nothing is claimed.
    pub fn now(&self) -> u64 {
        self.clock.now()
    }

    /// Whether a call to the service may go out now.
    pub fn can_execute(&mut self, service_name: &str) -> (r: bool)
        requires
            old(self).well_formed(),
        ensures
            final(self).well_formed(),
            final(self).settings() == old(self).settings(),
            !old(self).settings().enabled ==> r && final(self)@ == old(self)@,
            old(self).settings().enabled ==> exists|now: u64|
                (r, #[trigger] state_in(final(self)@, service_name@)) == #[trigger] ask(
                    state_in(old(self)@, service_name@),
                    old(self).settings(),
                    now,
                ),
            old(self).settings().enabled ==> final(self)@ == old(self)@.insert(
                service_name@,
                final(self)@[service_name@],
            ),
    {
        let now: u64 = self.now();
        let r: bool = self.can_execute_at(service_name, now);
        proof {
            if old(self).settings().enabled {
                let next = ask(state_in(old(self)@, service_name@), old(self).settings(), now);
                assert(self@ =~= old(self)@.insert(service_name@, next.1));
                assert((r, state_in(self@, service_name@)) == next);
            }
        }
        r
    }

    /// Whether a call to the service may go out at a time of the breaker's clock.
    pub fn can_execute_at(&mut self, service_name: &str, now: u64) -> (r: bool)
        requires
            old(self).well_formed(),
        ensures
            final(self).well_formed(),
            final(self).settings() == old(self).settings(),
            !old(self).settings().enabled ==> r && final(self)@ == old(self)@,
            old(self).settings().enabled ==> ({
                let next = ask(state_in(old(self)@, service_name@), old(self).settings(), now);
                r == next.0 && final(self)@ == old(self)@.insert(service_name@, next.1)
            }),
    {
        if !self.config.circuit_breaker.enabled {
            return true;
        }
        let s: CircuitBreakerState = self.get_or_create_state(service_name);
        match s.state {
            CircuitState::Closed => true,
            CircuitState::Open => {
                if let Some(at) = s.last_failure_time {
                    let waited: u64 = if now >= at {
                        now - at
                    } else {
                        0
                    };
                    let timeout: u128 = self.config.circuit_breaker.recovery_timeout_ms as u128
                        * 1_000_000;
                    if waited as u128 >= timeout {
                        self.states.insert(
                            service_name,
                            CircuitBreakerState {
                                state: CircuitState::HalfOpen,
                                half_open_calls: 1,
                                success_count: 0,
                                ..s
                            },
                        );
                        true
                    } else {
                        false
                    }
                } else {
                    false
                }
            },
            CircuitState::HalfOpen => {
                if s.half_open_calls < self.config.circuit_breaker.half_open_max_calls {
                    self.states.insert(
                        service_name,
                        CircuitBreakerState { half_open_calls: s.half_open_calls + 1, ..s },
                    );
                    true
                } else {
                    false
                }
            },
        }
    }

    /// Takes note of a call that succeeded.
    pub fn record_success(&mut self, service_name: &str)
        requires
            old(self).well_formed(),
        ensures
            final(self).well_formed(),
            final(self).settings() == old(self).settings(),
            !old(self).settings().enabled ==> final(self)@ == old(self)@,
            old(self).settings().enabled ==> final(self)@ == old(self)@.insert(
                service_name@,
                succeed(state_in(old(self)@, service_name@), old(self).settings()),
            ),
    {
        if !self.config.circuit_breaker.enabled {
            return;
        }
        let s: CircuitBreakerState = self.get_or_create_state(service_name);
        match s.state {
            CircuitState::Closed => {
                self.states.insert(service_name, CircuitBreakerState { failure_count: 0, ..s });
            },
            CircuitState::HalfOpen => {
                let success_count: u32 = s.success_count + 1;
                if success_count >= self.config.circuit_breaker.half_open_max_calls {
                    self.states.insert(
                        service_name,
                        CircuitBreakerState {
                            state: CircuitState::Closed,
                            failure_count: 0,
                            last_failure_time: None,
                            success_count,
                            ..s
                        },
                    );
                } else {
                    self.states.insert(service_name, CircuitBreakerState { success_count, ..s });
                }
            },
            CircuitState::Open => {},
        }
    }

    /// Takes note of a call that failed now.
    pub fn record_failure(&mut self, service_name: &str)
        requires
            old(self).well_formed(),
        ensures
            final(self).well_formed(),
            final(self).settings() == old(self).settings(),
            !old(self).settings().enabled ==> final(self)@ == old(self)@,
            old(self).settings().enabled ==> exists|now: u64|
                final(self)@ == old(self)@.insert(
                    service_name@,
                    #[trigger] fail(
                        state_in(old(self)@, service_name@),
                        old(self).settings(),
                        now,
                    ),
                ),
    {
        let now: u64 = self.now();
        self.record_failure_at(service_name, now);
    }

    /// Takes note of a call that failed at a time of the breaker's clock.
    pub fn record_failure_at(&mut self, service_name: &str, now: u64)
        requires
            old(self).well_formed(),
        ensures
            final(self).well_formed(),
            final(self).settings() == old(self).settings(),
            !old(self).settings().enabled ==> final(self)@ == old(self)@,
            old(self).settings().enabled ==> final(self)@ == old(self)@.insert(
                service_name@,
                fail(state_in(old(self)@, service_name@), old(self).settings(), now),
            ),
    {
        if !self.config.circuit_breaker.enabled {
            return;
        }
        let s: CircuitBreakerState = self.get_or_create_state(service_name);
        match s.state {
            CircuitState::Closed => {
                let failure_count: u32 = s.failure_count + 1;
                let state: CircuitState = if failure_count
                    >= self.config.circuit_breaker.failure_threshold {
                    CircuitState::Open
                } else {
                    CircuitState::Closed
                };
                self.states.insert(
                    service_name,
                    CircuitBreakerState {
                        state,
                        failure_count,
                        last_failure_time: Some(now),
                        ..s
                    },
                );
            },
            CircuitState::HalfOpen => {
                let failure_count: u32 = self.config.circuit_breaker.failure_threshold;
                self.states.insert(
                    service_name,
                    CircuitBreakerState {
                        state: CircuitState::Open,
                        failure_count,
                        last_failure_time: Some(now),
                        ..s
                    },
                );
            },
            CircuitState::Open => {
                self.states.insert(
                    service_name,
                    CircuitBreakerState { last_failure_time: Some(now), ..s },
                );
            },
        }
    }

    /// The state of a service, if anything was recorded of it.
    pub fn get_state(&self, service_name: &str) -> (r: Option<CircuitState>)
        requires
            self.well_formed(),
        ensures
            r == (if self@.contains_key(service_name@) {
                Some(self@[service_name@].state)
            } else {
                None
            }),
    {
        match self.states.get(service_name) {
            Some(s) => Some(s.state),
            None => None,
        }
    }

    pub fn get_failure_count(&self, service_name: &str) -> (r: u32)
        requires
            self.well_formed(),
        ensures
            r == state_in(self@, service_name@).failure_count,
    {
        match self.states.get(service_name) {
            Some(s) => s.failure_count,
            None => 0,
        }
    }

    /// Closes the breaker of a known service, as if nothing had happened.
    pub fn reset(&mut self, service_name: &str)
        requires
            old(self).well_formed(),
        ensures
            final(self).well_formed(),
            final(self).settings() == old(self).settings(),
            final(self)@ == (if old(self)@.contains_key(service_name@) {
                old(self)@.insert(service_name@, fresh())
            } else {
                old(self)@
            }),
    {
        if self.states.contains(service_name) {
            let s: CircuitBreakerState = CircuitBreakerState::default();
            self.states.insert(service_name, s);
            proof {
                assert(reachable(fresh(), self.settings()));
                assert(self@ == old(self)@.insert(service_name@, fresh()));
            }
        }
    }

    /// Each known service once, with its state and its failure count, in no particular
    /// order.
    pub fn get_all_states(&self) -> (r: Vec<(String, CircuitState, u32)>)
        requires
            self.well_formed(),
        ensures
            forall|i: int|
                0 <= i < r@.len() ==> row_describes(#[trigger] r@[i], r@[i].0@, self@),
            forall|name: Seq<char>| #[trigger]
                self@.contains_key(name) ==> exists|i: int|
                    0 <= i < r@.len() && #[trigger] r@[i].0@ == name,
            forall|i: int, j: int|
                0 <= i < j < r@.len() ==> #[trigger] r@[i].0@ != #[trigger] r@[j].0@,
    {
        let names: Vec<String> = self.states.names();
        let mut r: Vec<(String, CircuitState, u32)> = Vec::new();
        let mut i: usize = 0;
        while i < names.len()
            invariant
                self.well_formed(),
                i <= names.len(),
                r.len() == i,
                forall|k: int| 0 <= k < names@.len() ==> self@.contains_key(#[trigger] names@[k]@),
                forall|k: int|
                    0 <= k < i ==> row_describes(#[trigger] r@[k], names@[k]@, self@),
            decreases names.len() - i,
        {
            assert(self@.contains_key(names@[i as int]@));
            if let Some(s) = self.states.get(names[i].as_str()) {
                r.push((names[i].clone(), s.state, s.failure_count));
            }
            i = i + 1;
        }
        proof {
            assert forall|name: Seq<char>| #[trigger] self@.contains_key(name) implies exists|
                i: int,
            | 0 <= i < r@.len() && #[trigger] r@[i].0@ == name by {
                let k = choose|k: int| 0 <= k < names@.len() && #[trigger] names@[k]@ == name;
                assert(row_describes(r@[k], names@[k]@, self@));
            }
        }
        r
    }
}

/// The state after a failure at each of some times, in turn.
pub open spec fn fail_each(
    s: CircuitBreakerState,
    c: CircuitBreakerConfig,
    times: Seq<u64>,
) -> CircuitBreakerState
    decreases times.len(),
{
    if times.len() == 0 {
        s
    } else {
        fail(fail_each(s, c, times.drop_last()), c, times.last())
    }
}

/// How many calls go out when one is asked for at each of some times, in turn, and the
/// state after that.
pub open spec fn ask_each(
    s: CircuitBreakerState,
    c: CircuitBreakerConfig,
    times: Seq<u64>,
) -> (nat, CircuitBreakerState)
    decreases times.len(),
{
    if times.len() == 0 {
        (0, s)
    } else {
        let before = ask_each(s, c, times.drop_last());
        let next = ask(before.1, c, times.last());
        (
            if next.0 {
                before.0 + 1
            } else {
                before.0
            },
            next.1,
        )
    }
}

/// The state after some calls that succeeded.
pub open spec fn succeed_each(
    s: CircuitBreakerState,
    c: CircuitBreakerConfig,
    calls: nat,
) -> CircuitBreakerState
    decreases calls,
{
    if calls == 0 {
        s
    } else {
        succeed(succeed_each(s, c, (calls - 1) as nat), c)
    }
}

/// Whatever is asked and recorded, a breaker stays in the states it can reach.
pub proof fn states_stay_reachable(s: CircuitBreakerState, c: CircuitBreakerConfig, now: u64)
    requires
        reachable(s, c),
    ensures
        reachable(ask(s, c, now).1, c),
        reachable(succeed(s, c), c),
        reachable(fail(s, c, now), c),
        reachable(fresh(), c),
{
}

/// In every state that a breaker can reach under a threshold of at least one, no more failures
/// are counted than the threshold says, and the breaker is closed exactly while there are
/// fewer.
pub proof fn closed_below_the_threshold(s: CircuitBreakerState, c: CircuitBreakerConfig)
    requires
        reachable(s, c),
        c.failure_threshold >= 1,
    ensures
        s.failure_count <= c.failure_threshold,
        s.state == CircuitState::Closed <==> s.failure_count < c.failure_threshold,
{
}

/// From a closed breaker without failures, as many failures in a row as the threshold
/// open it, and fewer leave it closed. (A threshold of zero opens it at the first.)
pub proof fn opens_at_the_threshold(
    s: CircuitBreakerState,
    c: CircuitBreakerConfig,
    times: Seq<u64>,
)
    requires
        s.state == CircuitState::Closed,
        s.failure_count == 0,
    ensures
        fail_each(s, c, times).state == (if times.len() == 0 || times.len() < c.failure_threshold {
            CircuitState::Closed
        } else {
            CircuitState::Open
        }),
        fail_each(s, c, times).state == CircuitState::Closed ==> fail_each(
            s,
            c,
            times,
        ).failure_count == times.len(),
        times.len() > 0 ==> fail_each(s, c, times).last_failure_time == Some(times.last()),
    decreases times.len(),
{
    if times.len() > 0 {
        opens_at_the_threshold(s, c, times.drop_last());
    }
}

/// A success of a closed breaker takes back the failures before it.
pub proof fn success_clears_failures(s: CircuitBreakerState, c: CircuitBreakerConfig)
    requires
        s.state == CircuitState::Closed,
    ensures
        succeed(s, c).state == CircuitState::Closed,
        succeed(s, c).failure_count == 0,
{
}

/// An open breaker lets no call out before the recovery timeout has passed since the last
/// failure, and lets one out, half open, from then on.
pub proof fn open_until_the_timeout(
    s: CircuitBreakerState,
    c: CircuitBreakerConfig,
    at: u64,
    now: u64,
)
    requires
        s.state == CircuitState::Open,
        s.last_failure_time == Some(at),
        at <= now,
    ensures
        ask(s, c, now).0 == (now - at >= c.recovery_timeout_ms * 1_000_000),
        ask(s, c, now).0 ==> ask(s, c, now).1.state == CircuitState::HalfOpen,
        !ask(s, c, now).0 ==> ask(s, c, now).1 == s,
{
}

/// While no outcome is recorded, an open breaker lets out at most the configured number of
/// calls on trial, and one where that number is zero.
pub proof fn trial_calls_are_limited(
    s: CircuitBreakerState,
    c: CircuitBreakerConfig,
    times: Seq<u64>,
)
    requires
        s.state == CircuitState::Open,
    ensures
        ask_each(s, c, times).0 <= 1 || ask_each(s, c, times).0 <= c.half_open_max_calls,
        ask_each(s, c, times).1.state == CircuitState::Open ==> ask_each(s, c, times) == (0nat, s),
        ask_each(s, c, times).1.state != CircuitState::Open ==> {
            &&& ask_each(s, c, times).1.state == CircuitState::HalfOpen
            &&& ask_each(s, c, times).1.half_open_calls == ask_each(s, c, times).0
            &&& ask_each(s, c, times).1.success_count == 0
        },
    decreases times.len(),
{
    if times.len() > 0 {
        trial_calls_are_limited(s, c, times.drop_last());
    }
}

/// A failure on trial opens the breaker again, for another timeout from that time.
pub proof fn trial_failure_reopens(s: CircuitBreakerState, c: CircuitBreakerConfig, now: u64)
    requires
        s.state == CircuitState::HalfOpen,
    ensures
        fail(s, c, now).state == CircuitState::Open,
        fail(s, c, now).last_failure_time == Some(now),
{
}

/// On trial, as many successes as trial calls are configured close the breaker, without
/// failures, and fewer leave it on trial.
pub proof fn trial_successes_close(
    s: CircuitBreakerState,
    c: CircuitBreakerConfig,
    calls: nat,
)
    requires
        s.state == CircuitState::HalfOpen,
        s.success_count == 0,
        calls == 0 || calls == 1 || calls <= c.half_open_max_calls,
    ensures
        succeed_each(s, c, calls).state == (if calls == 0 || calls < c.half_open_max_calls {
            CircuitState::HalfOpen
        } else {
            CircuitState::Closed
        }),
        succeed_each(s, c, calls).state == CircuitState::HalfOpen ==> succeed_each(
            s,
            c,
            calls,
        ).success_count == calls,
        succeed_each(s, c, calls).state == CircuitState::Closed ==> succeed_each(
            s,
            c,
            calls,
        ).failure_count == 0,
    decreases calls,
{
    if calls > 0 {
        trial_successes_close(s, c, (calls - 1) as nat);
    }
}

/// A closed breaker lets every call out and changes nothing by that. On trial, calls go out
/// while fewer have than are configured, and each is counted.
pub proof fn closed_breakers_let_calls_out(
    s: CircuitBreakerState,
    c: CircuitBreakerConfig,
    now: u64,
)
    ensures
        s.state == CircuitState::Closed ==> ask(s, c, now).0 && ask(s, c, now).1 == s,
        s.state == CircuitState::HalfOpen ==> (ask(s, c, now).0 <==> s.half_open_calls
            < c.half_open_max_calls),
        s.state == CircuitState::HalfOpen && ask(s, c, now).0 ==> ask(s, c, now).1 == (
        CircuitBreakerState { half_open_calls: (s.half_open_calls + 1) as u32, ..s }),
        s.state == CircuitState::HalfOpen && !ask(s, c, now).0 ==> ask(s, c, now).1 == s,
        s.state == CircuitState::Open && ask(s, c, now).0 ==> {
            let t = ask(s, c, now).1;
            &&& t.half_open_calls == 1
            &&& t.success_count == 0
            &&& t.failure_count == s.failure_count
            &&& t.last_failure_time == s.last_failure_time
        },
        s.state == CircuitState::Open && s.last_failure_time is None ==> !ask(s, c, now).0,
        forall|later: u64|
            s.state == CircuitState::Open && ask(s, c, now).0 && now <= later ==> #[trigger] ask(
                s,
                c,
                later,
            ).0,
{
}

/// Of a service that is not in the table nothing is known: its breaker is closed and without
/// failures. What is put into the table of one service is known of that one alone.
pub proof fn states_are_kept_by_service(
    states: Map<Seq<char>, CircuitBreakerState>,
    name: Seq<char>,
    other: Seq<char>,
    s: CircuitBreakerState,
)
    ensures
        !states.contains_key(name) ==> state_in(states, name).state == CircuitState::Closed
            && state_in(states, name).failure_count == 0,
        states.contains_key(name) ==> state_in(states, name) == states[name],
        state_in(states.insert(name, s), name) == s,
        other != name ==> state_in(states.insert(name, s), other) == state_in(states, other),
{
}

/// Failures between which calls succeed do not add up: after any failures, a success and fewer
/// failures than the threshold, a closed breaker is closed.
pub proof fn failures_between_successes_do_not_add_up(
    s: CircuitBreakerState,
    c: CircuitBreakerConfig,
    times: Seq<u64>,
)
    requires
        s.state == CircuitState::Closed,
        times.len() == 0 || times.len() < c.failure_threshold,
    ensures
        fail_each(succeed(s, c), c, times).state == CircuitState::Closed,
        fail_each(succeed(s, c), c, times).failure_count == times.len(),
{
    opens_at_the_threshold(succeed(s, c), c, times);
}

/// A row names a service that is known, with its state and its failures.
pub proof fn rows_tell_what_is_kept(
    row: (String, CircuitState, u32),
    name: Seq<char>,
    states: Map<Seq<char>, CircuitBreakerState>,
)
    requires
        row_describes(row, name, states),
    ensures
        row.0@ == name,
        states.contains_key(name),
        row.1 == state_in(states, name).state,
        row.2 == state_in(states, name).failure_count,
{
}

/// Where the clock went back, no time has gone by since the last failure.
pub proof fn a_clock_that_goes_back_opens_nothing(
    s: CircuitBreakerState,
    c: CircuitBreakerConfig,
    at: u64,
    now: u64,
)
    requires
        s.state == CircuitState::Open,
        s.last_failure_time == Some(at),
        now < at,
    ensures
        ask(s, c, now).0 <==> c.recovery_timeout_ms == 0,
{
}

} // verus!
