//! Load balancing: which endpoint of a service a request goes to.
use super::hash_ring;
use super::hash_ring::ConsistentHashRing;
use crate::binary64;
use crate::binary64::Binary64;
use crate::config::{EndpointConfig, ProxyConfig};
use crate::precision;
use crate::random;
use crate::registry::Registry;
use crate::text;
use std::sync::Arc;
use vstd::arithmetic::power2::{
    lemma2_to64, lemma2_to64_rest, lemma_pow2_adds, lemma_pow2_pos, pow2,
};
use vstd::prelude::*;
use vstd::string::StringExecFns;

verus! {

/// How many nodes an endpoint has on the hash ring.
pub const VIRTUAL_NODES: usize = 150;

#[derive(Debug)]
pub struct Endpoint {
    pub address: String,
    pub port: u16,
    pub weight: u32,
    pub healthy: bool,
    pub metadata: Vec<(String, String)>,
    pub active_connections: usize,
    pub total_requests: usize,
    pub failed_requests: usize,
    /// A moving average in milliseconds.
    pub avg_response_time: Binary64,
}

#[derive(Debug, Clone, Copy, PartialEq, Eq, Structural)]
pub enum LoadBalancingAlgorithm {
    RoundRobin,
    LeastConnections,
    WeightedRoundRobin,
    ConsistentHash,
}

/// What a health check brought about.
#[derive(Debug, Clone, Copy, PartialEq, Eq, Structural)]
pub enum HealthChange {
    NowHealthy,
    NowUnhealthy,
    Unchanged,
}

struct ServiceEndpoints {
    endpoints: Vec<Endpoint>,
    round_robin_index: usize,
    consistent_hash_ring: Option<ConsistentHashRing>,
}

pub struct LoadBalancer {
    config: Arc<ProxyConfig>,
    services: Registry<ServiceEndpoints>,
    algorithm: LoadBalancingAlgorithm,
}

/// A service as the selection sees it: its endpoints and whose turn it is.
#[verifier::ext_equal]
pub struct Pool {
    pub endpoints: Seq<Endpoint>,
    pub turn: usize,
}

/// The algorithm of a name; an unknown name means taking turns.
pub open spec fn algorithm_named(name: Seq<char>) -> LoadBalancingAlgorithm {
    if name == "least_connections"@ {
        LoadBalancingAlgorithm::LeastConnections
    } else if name == "weighted_round_robin"@ {
        LoadBalancingAlgorithm::WeightedRoundRobin
    } else if name == "consistent_hash"@ {
        LoadBalancingAlgorithm::ConsistentHash
    } else {
        LoadBalancingAlgorithm::RoundRobin
    }
}

/// Address and port, as a request names an endpoint.
pub open spec fn host(e: Endpoint) -> Seq<char> {
    e.address@ + ":"@ + text::decimal(e.port as nat)
}

/// An endpoint as its configuration describes it: healthy, and not used yet.
pub open spec fn made_from(e: Endpoint, c: EndpointConfig) -> bool {
    &&& e.address@ == c.address@
    &&& e.port == c.port
    &&& e.weight == c.weight
    &&& e.healthy
    &&& e.metadata@ == c.metadata@
    &&& e.active_connections == 0
    &&& e.total_requests == 0
    &&& e.failed_requests == 0
    &&& e.avg_response_time.bits == 0
}

pub open spec fn pool_made_from(p: Pool, endpoints: Seq<EndpointConfig>) -> bool {
    &&& p.turn == 0
    &&& p.endpoints.len() == endpoints.len()
    &&& forall|i: int| 0 <= i < endpoints.len() ==> made_from(#[trigger] p.endpoints[i], endpoints[i])
}

/// The positions of the healthy endpoints, in order.
pub open spec fn healthy(endpoints: Seq<Endpoint>) -> Seq<int>
    decreases endpoints.len(),
{
    if endpoints.len() == 0 {
        Seq::empty()
    } else if endpoints.last().healthy {
        healthy(endpoints.drop_last()).push(endpoints.len() - 1)
    } else {
        healthy(endpoints.drop_last())
    }
}

/// The weights of the healthy endpoints together.
pub open spec fn healthy_weight(endpoints: Seq<Endpoint>) -> nat
    decreases endpoints.len(),
{
    if endpoints.len() == 0 {
        0
    } else if endpoints.last().healthy {
        healthy_weight(endpoints.drop_last()) + endpoints.last().weight as nat
    } else {
        healthy_weight(endpoints.drop_last())
    }
}

/// The weights of all endpoints of a configuration together.
pub open spec fn configured_weight(endpoints: Seq<EndpointConfig>) -> nat
    decreases endpoints.len(),
{
    if endpoints.len() == 0 {
        0
    } else {
        configured_weight(endpoints.drop_last()) + endpoints.last().weight as nat
    }
}

/// Of the healthy endpoints with the fewest connections, `i` is the first.
pub open spec fn is_least_loaded(endpoints: Seq<Endpoint>, i: int) -> bool {
    &&& 0 <= i < endpoints.len()
    &&& endpoints[i].healthy
    &&& forall|j: int|
        0 <= j < endpoints.len() && (#[trigger] endpoints[j]).healthy
            ==> endpoints[i].active_connections <= endpoints[j].active_connections && (j < i
            ==> endpoints[i].active_connections < endpoints[j].active_connections)
}

/// The draw falls into the share of endpoint `i`: the weights of the healthy endpoints,
/// laid one after the other.
pub open spec fn is_drawn(endpoints: Seq<Endpoint>, draw: u32, i: int) -> bool {
    &&& 0 <= i < endpoints.len()
    &&& endpoints[i].healthy
    &&& healthy_weight(endpoints.take(i)) <= draw < healthy_weight(endpoints.take(i))
        + endpoints[i].weight
}

pub open spec fn hosts(endpoints: Seq<Endpoint>) -> Seq<Seq<char>> {
    endpoints.map_values(|e: Endpoint| host(e))
}

pub open spec fn health(endpoints: Seq<Endpoint>) -> Seq<bool> {
    endpoints.map_values(|e: Endpoint| e.healthy)
}

/// The endpoint that a request goes to. Only a choice by weight depends on the draw.
pub open spec fn chosen(algorithm: LoadBalancingAlgorithm, p: Pool, draw: u32) -> Option<int> {
    let able = healthy(p.endpoints);
    if able.len() == 0 {
        None
    } else {
        match algorithm {
            LoadBalancingAlgorithm::RoundRobin => Some(able[p.turn as int % able.len() as int]),
            LoadBalancingAlgorithm::LeastConnections => Some(
                choose|i: int| is_least_loaded(p.endpoints, i),
            ),
            LoadBalancingAlgorithm::WeightedRoundRobin => if healthy_weight(p.endpoints) == 0 {
                Some(able[0])
            } else {
                Some(choose|i: int| is_drawn(p.endpoints, draw, i))
            },
            LoadBalancingAlgorithm::ConsistentHash => match hash_ring::owner(
                hash_ring::ring_of(hosts(p.endpoints), VIRTUAL_NODES as nat),
                health(p.endpoints),
                hash_ring::place("default_key"@),
            ) {
                Some(i) => Some(i as int),
                None => Some(able[0]),
            },
        }
    }
}

/// The pool after a choice.
pub open spec fn after_choice(algorithm: LoadBalancingAlgorithm, p: Pool) -> Pool {
    if algorithm == LoadBalancingAlgorithm::RoundRobin && healthy(p.endpoints).len() > 0 {
        Pool { turn: p.turn.wrapping_add(1), ..p }
    } else {
        p
    }
}

/// A choice by the algorithm, with some draw of those that can come.
pub open spec fn may_choose(
    algorithm: LoadBalancingAlgorithm,
    p: Pool,
    draw: u32,
    r: Option<Seq<char>>,
) -> bool {
    &&& draw < healthy_weight(p.endpoints) || healthy_weight(p.endpoints) == 0 || algorithm
        != LoadBalancingAlgorithm::WeightedRoundRobin
    &&& r == chosen_host(algorithm, p, draw)
}

pub open spec fn chosen_host(
    algorithm: LoadBalancingAlgorithm,
    p: Pool,
    draw: u32,
) -> Option<Seq<char>> {
    match chosen(algorithm, p, draw) {
        Some(i) => Some(host(p.endpoints[i])),
        None => None,
    }
}

/// The text of an optional string.
pub open spec fn text_of(s: Option<String>) -> Option<Seq<char>> {
    match s {
        Some(s) => Some(s@),
        None => None,
    }
}

/// The first endpoint that a request names so.
pub open spec fn is_first_named(endpoints: Seq<Endpoint>, name: Seq<char>, i: int) -> bool {
    &&& 0 <= i < endpoints.len()
    &&& host(endpoints[i]) == name
    &&& forall|j: int| 0 <= j < i ==> host(#[trigger] endpoints[j]) != name
}

/// A tenth of the new time and nine tenths of the average so far, if there is one.
pub open spec fn averaged(average: Binary64, ms: u64) -> Binary64 {
    if average.zero() {
        Binary64::of_nat(ms as nat)
    } else {
        Binary64 { bits: 0x3FEC_CCCC_CCCC_CCCD }.product(average).sum(
            Binary64 { bits: 0x3FB9_9999_9999_999A }.product(Binary64::of_nat(ms as nat)),
        )
    }
}

/// An endpoint after a reply, or after a request that failed.
pub open spec fn with_reply(e: Endpoint, ms: u64, success: bool) -> Endpoint {
    Endpoint {
        total_requests: e.total_requests.wrapping_add(1),
        failed_requests: if success {
            e.failed_requests
        } else {
            e.failed_requests.wrapping_add(1)
        },
        avg_response_time: averaged(e.avg_response_time, ms),
        ..e
    }
}

/// A pool after a reply of the endpoint that is named so.
pub open spec fn pool_with_reply(p: Pool, name: Seq<char>, ms: u64, success: bool) -> Pool {
    if exists|i: int| is_first_named(p.endpoints, name, i) {
        let i = choose|i: int| is_first_named(p.endpoints, name, i);
        Pool { endpoints: p.endpoints.update(i, with_reply(p.endpoints[i], ms, success)), ..p }
    } else {
        p
    }
}

/// A reply counts as healthy if its status says success.
pub open spec fn is_healthy_reply(status: Option<u16>) -> bool {
    status is Some && 200 <= status->0 < 300
}

/// A pool after a health check of endpoint `i`.
pub open spec fn pool_with_health(p: Pool, i: int, up: bool) -> Pool {
    Pool { endpoints: p.endpoints.update(i, Endpoint { healthy: up, ..p.endpoints[i] }), ..p }
}

impl Endpoint {
    fn from_config(config: &EndpointConfig) -> (e: Self)
        ensures
            made_from(e, *config),
    {
        let mut metadata: Vec<(String, String)> = Vec::new();
        let mut i: usize = 0;
        while i < config.metadata.len()
            invariant
                i <= config.metadata.len(),
                metadata@ == config.metadata@.take(i as int),
            decreases config.metadata.len() - i,
        {
            metadata.push((config.metadata[i].0.clone(), config.metadata[i].1.clone()));
            i = i + 1;
            assert(metadata@ =~= config.metadata@.take(i as int));
        }
        assert(metadata@ =~= config.metadata@);
        Endpoint {
            address: config.address.clone(),
            port: config.port,
            weight: config.weight,
            healthy: true,
            metadata,
            active_connections: 0,
            total_requests: 0,
            failed_requests: 0,
            avg_response_time: Binary64 { bits: 0 },
        }
    }

    /// Address and port, with a colon between them.
    pub fn host(&self) -> (s: String)
        ensures
            s@ == host(*self),
    {
        let mut s: String = text::join(self.address.as_str(), ":");
        s.append(text::to_decimal(self.port as u64).as_str());
        s
    }

    fn set_healthy(&mut self, healthy: bool)
        ensures
            *final(self) == (Endpoint { healthy, ..*old(self) }),
    {
        self.healthy = healthy;
    }

    fn record(&mut self, response_time_ms: u64, success: bool)
        ensures
            *final(self) == with_reply(*old(self), response_time_ms, success),
    {
        self.total_requests = self.total_requests.wrapping_add(1);
        if !success {
            self.failed_requests = self.failed_requests.wrapping_add(1);
        }
        let new_time: Binary64 = Binary64::from_u64(response_time_ms);
        let zero: Binary64 = Binary64 { bits: 0 };
        self.avg_response_time = if self.avg_response_time.equals(zero) {
            new_time
        } else {
            let kept: Binary64 = Binary64 { bits: 0x3FEC_CCCC_CCCC_CCCD }.times(
                self.avg_response_time,
            );
            let added: Binary64 = Binary64 { bits: 0x3FB9_9999_9999_999A }.times(new_time);
            kept.plus(added)
        };
    }
}

impl ServiceEndpoints {
    spec fn pool(&self) -> Pool {
        Pool { endpoints: self.endpoints@, turn: self.round_robin_index }
    }

    spec fn well_formed(&self, algorithm: LoadBalancingAlgorithm) -> bool {
        &&& algorithm == LoadBalancingAlgorithm::WeightedRoundRobin ==> all_weight(self.endpoints@)
            <= u32::MAX
        &&& algorithm == LoadBalancingAlgorithm::ConsistentHash
            ==> self.consistent_hash_ring is Some
        &&& self.consistent_hash_ring matches Some(ring) ==> ring.well_formed() && ring@
            == hash_ring::ring_of(hosts(self.endpoints@), VIRTUAL_NODES as nat)
    }
}

/// The weights of all endpoints together.
spec fn all_weight(endpoints: Seq<Endpoint>) -> nat
    decreases endpoints.len(),
{
    if endpoints.len() == 0 {
        0
    } else {
        all_weight(endpoints.drop_last()) + endpoints.last().weight as nat
    }
}

impl LoadBalancingAlgorithm {
    pub fn named(name: &str) -> (r: LoadBalancingAlgorithm)
        ensures
            r == algorithm_named(name@),
    {
        if text::same(name, "least_connections") {
            LoadBalancingAlgorithm::LeastConnections
        } else if text::same(name, "weighted_round_robin") {
            LoadBalancingAlgorithm::WeightedRoundRobin
        } else if text::same(name, "consistent_hash") {
            LoadBalancingAlgorithm::ConsistentHash
        } else {
            LoadBalancingAlgorithm::RoundRobin
        }
    }
}

/// The positions of `healthy` are in order, and are those of the healthy endpoints.
proof fn lemma_healthy(endpoints: Seq<Endpoint>)
    ensures
        forall|k: int|
            0 <= k < healthy(endpoints).len() ==> 0 <= #[trigger] healthy(endpoints)[k]
                < endpoints.len() && endpoints[healthy(endpoints)[k]].healthy,
        forall|k: int, l: int|
            0 <= k < l < healthy(endpoints).len() ==> #[trigger] healthy(endpoints)[k]
                < #[trigger] healthy(endpoints)[l],
        forall|i: int|
            0 <= i < endpoints.len() && (#[trigger] endpoints[i]).healthy ==> healthy(
                endpoints,
            ).contains(i),
    decreases endpoints.len(),
{
    if endpoints.len() > 0 {
        let less = endpoints.drop_last();
        lemma_healthy(less);
        assert forall|i: int| 0 <= i < endpoints.len() && (#[trigger] endpoints[i]).healthy implies healthy(
            endpoints,
        ).contains(i) by {
            if i < endpoints.len() - 1 {
                assert(less[i] == endpoints[i]);
                let k = choose|k: int| 0 <= k < healthy(less).len() && healthy(less)[k] == i;
                assert(healthy(endpoints)[k] == i);
            } else {
                assert(healthy(endpoints)[healthy(endpoints).len() - 1] == i);
            }
        }
    }
}

fn healthy_positions(endpoints: &Vec<Endpoint>) -> (r: Vec<usize>)
    ensures
        r@.len() == healthy(endpoints@).len(),
        forall|k: int| 0 <= k < r@.len() ==> #[trigger] r@[k] == healthy(endpoints@)[k],
{
    let mut r: Vec<usize> = Vec::new();
    let mut i: usize = 0;
    while i < endpoints.len()
        invariant
            i <= endpoints.len(),
            r@.len() == healthy(endpoints@.take(i as int)).len(),
            forall|k: int|
                0 <= k < r@.len() ==> #[trigger] r@[k] == healthy(endpoints@.take(i as int))[k],
        decreases endpoints.len() - i,
    {
        if endpoints[i].healthy {
            r.push(i);
        }
        assert(endpoints@.take(i + 1).drop_last() =~= endpoints@.take(i as int));
        i = i + 1;
    }
    assert(endpoints@.take(i as int) =~= endpoints@);
    r
}

fn select_least_connections(endpoints: &Vec<Endpoint>, able: &Vec<usize>) -> (r: usize)
    requires
        able@.len() == healthy(endpoints@).len(),
        able@.len() > 0,
        forall|k: int| 0 <= k < able@.len() ==> #[trigger] able@[k] == healthy(endpoints@)[k],
    ensures
        r == choose|i: int| is_least_loaded(endpoints@, i),
        r < endpoints@.len(),
{
    proof {
        lemma_healthy(endpoints@);
    }
    let mut best: usize = able[0];
    let mut k: usize = 1;
    let ghost mut at: int = 0;
    while k < able.len()
        invariant
            1 <= k <= able@.len(),
            able@.len() == healthy(endpoints@).len(),
            forall|k: int| 0 <= k < able@.len() ==> #[trigger] able@[k] == healthy(endpoints@)[k],
            forall|k: int| 0 <= k < able@.len() ==> #[trigger] able@[k] < endpoints@.len(),
            0 <= at < k,
            able@[at] == best,
            forall|l: int|
                0 <= l < k ==> endpoints@[best as int].active_connections
                    <= endpoints@[#[trigger] able@[l] as int].active_connections && (l < at
                    ==> endpoints@[best as int].active_connections
                    < endpoints@[able@[l] as int].active_connections),
        decreases able@.len() - k,
    {
        let i: usize = able[k];
        if endpoints[i].active_connections < endpoints[best].active_connections {
            best = i;
            proof {
                at = k as int;
            }
        }
        k = k + 1;
    }
    proof {
        let b = best as int;
        assert(endpoints@[healthy(endpoints@)[at]].healthy);
        assert forall|j: int|
            0 <= j < endpoints@.len() && (
            #[trigger] endpoints@[j]).healthy implies endpoints@[b].active_connections
            <= endpoints@[j].active_connections && (j < b ==> endpoints@[b].active_connections
            < endpoints@[j].active_connections) by {
            let l = choose|l: int|
                0 <= l < healthy(endpoints@).len() && healthy(endpoints@)[l] == j;
            assert(able@[l] == j);
            if l >= at {
                assert(l == at || healthy(endpoints@)[at] < healthy(endpoints@)[l]);
            }
        }
        assert(is_least_loaded(endpoints@, b));
        let c = choose|c: int| is_least_loaded(endpoints@, c);
        assert(is_least_loaded(endpoints@, c));
        assert(endpoints@[c].healthy && endpoints@[b].healthy);
    }
    best
}

proof fn lemma_weights(endpoints: Seq<Endpoint>, i: int)
    requires
        0 <= i <= endpoints.len(),
    ensures
        healthy_weight(endpoints.take(i)) <= healthy_weight(endpoints),
        healthy_weight(endpoints) <= all_weight(endpoints),
        i < endpoints.len() && endpoints[i].healthy ==> healthy_weight(endpoints.take(i))
            + endpoints[i].weight <= healthy_weight(endpoints),
    decreases endpoints.len(),
{
    if endpoints.len() == 0 {
        assert(endpoints.take(i) =~= endpoints);
    } else if i == endpoints.len() {
        assert(endpoints.take(i) =~= endpoints);
        lemma_weights(endpoints.drop_last(), i - 1);
    } else {
        lemma_weights(endpoints.drop_last(), i);
        assert(endpoints.take(i) =~= endpoints.drop_last().take(i));
    }
}

/// No draw falls into two shares.
proof fn lemma_drawn_once(endpoints: Seq<Endpoint>, draw: u32, i: int, j: int)
    requires
        is_drawn(endpoints, draw, i),
        is_drawn(endpoints, draw, j),
    ensures
        i == j,
{
    if i < j {
        lemma_weights(endpoints.take(j), i);
        assert(endpoints.take(j).take(i) =~= endpoints.take(i));
    } else if j < i {
        lemma_weights(endpoints.take(i), j);
        assert(endpoints.take(i).take(j) =~= endpoints.take(j));
    }
}

/// The weights of the healthy endpoints together.
fn total_weight(endpoints: &Vec<Endpoint>) -> (r: u32)
    requires
        all_weight(endpoints@) <= u32::MAX,
    ensures
        r == healthy_weight(endpoints@),
{
    let mut total: u32 = 0;
    let mut i: usize = 0;
    while i < endpoints.len()
        invariant
            i <= endpoints.len(),
            all_weight(endpoints@) <= u32::MAX,
            total == healthy_weight(endpoints@.take(i as int)),
        decreases endpoints.len() - i,
    {
        proof {
            lemma_weights(endpoints@, i as int);
            assert(endpoints@.take(i + 1).drop_last() =~= endpoints@.take(i as int));
        }
        if endpoints[i].healthy {
            total = total + endpoints[i].weight;
        }
        i = i + 1;
    }
    assert(endpoints@.take(i as int) =~= endpoints@);
    total
}

fn select_weighted_round_robin(endpoints: &Vec<Endpoint>, draw: u32) -> (r: usize)
    requires
        draw < healthy_weight(endpoints@),
    ensures
        r == choose|i: int| is_drawn(endpoints@, draw, i),
        is_drawn(endpoints@, draw, r as int),
{
    let mut left: u32 = draw;
    let mut i: usize = 0;
    while i < endpoints.len()
        invariant
            i <= endpoints.len(),
            draw < healthy_weight(endpoints@),
            left == draw - healthy_weight(endpoints@.take(i as int)),
        decreases endpoints.len() - i,
    {
        assert(endpoints@.take(i + 1).drop_last() =~= endpoints@.take(i as int));
        if endpoints[i].healthy {
            if left < endpoints[i].weight {
                proof {
                    assert(is_drawn(endpoints@, draw, i as int));
                    lemma_drawn_once(
                        endpoints@,
                        draw,
                        i as int,
                        choose|j: int| is_drawn(endpoints@, draw, j),
                    );
                }
                return i;
            }
            left = left - endpoints[i].weight;
        }
        i = i + 1;
    }
    proof {
        assert(endpoints@.take(i as int) =~= endpoints@);
        assert(false);
    }
    i
}

impl ServiceEndpoints {
    fn new(endpoints: &Vec<EndpointConfig>, algorithm: LoadBalancingAlgorithm) -> (r: Self)
        requires
            algorithm == LoadBalancingAlgorithm::WeightedRoundRobin ==> configured_weight(
                endpoints@,
            ) <= u32::MAX,
        ensures
            r.well_formed(algorithm),
            pool_made_from(r.pool(), endpoints@),
    {
        let mut made: Vec<Endpoint> = Vec::new();
        let mut names: Vec<String> = Vec::new();
        let mut i: usize = 0;
        while i < endpoints.len()
            invariant
                i <= endpoints.len(),
                made@.len() == i,
                names@.len() == i,
                forall|k: int| 0 <= k < i ==> made_from(#[trigger] made@[k], endpoints@[k]),
                forall|k: int| 0 <= k < i ==> #[trigger] names@[k]@ == host(made@[k]),
                all_weight(made@) == configured_weight(endpoints@.take(i as int)),
            decreases endpoints.len() - i,
        {
            let e: Endpoint = Endpoint::from_config(&endpoints[i]);
            names.push(e.host());
            let ghost before = made@;
            made.push(e);
            proof {
                assert(made@.drop_last() =~= before);
                assert(endpoints@.take(i + 1).drop_last() =~= endpoints@.take(i as int));
            }
            i = i + 1;
        }
        assert(endpoints@.take(i as int) =~= endpoints@);
        let consistent_hash_ring: Option<ConsistentHashRing> = if algorithm
            == LoadBalancingAlgorithm::ConsistentHash {
            assert(names@.map_values(|name: String| name@) =~= hosts(made@));
            Some(ConsistentHashRing::new(&names, VIRTUAL_NODES))
        } else {
            None
        };
        ServiceEndpoints { endpoints: made, round_robin_index: 0, consistent_hash_ring }
    }

    /// The choice, where a choice by weight goes by the draw.
    fn select(&mut self, algorithm: LoadBalancingAlgorithm, draw: u32) -> (r: Option<String>)
        requires
            old(self).well_formed(algorithm),
            algorithm == LoadBalancingAlgorithm::WeightedRoundRobin ==> draw < healthy_weight(
                old(self).endpoints@,
            ) || healthy_weight(old(self).endpoints@) == 0,
        ensures
            final(self).well_formed(algorithm),
            final(self).pool() == after_choice(algorithm, old(self).pool()),
            text_of(r) == chosen_host(algorithm, old(self).pool(), draw),
    {
        let able: Vec<usize> = healthy_positions(&self.endpoints);
        proof {
            lemma_healthy(self.endpoints@);
        }
        if able.len() == 0 {
            return None;
        }
        let i: usize = match algorithm {
            LoadBalancingAlgorithm::RoundRobin => {
                let k: usize = self.round_robin_index % able.len();
                self.round_robin_index = self.round_robin_index.wrapping_add(1);
                able[k]
            },
            LoadBalancingAlgorithm::LeastConnections => {
                select_least_connections(&self.endpoints, &able)
            },
            LoadBalancingAlgorithm::WeightedRoundRobin => {
                if total_weight(&self.endpoints) == 0 {
                    able[0]
                } else {
                    select_weighted_round_robin(&self.endpoints, draw)
                }
            },
            LoadBalancingAlgorithm::ConsistentHash => {
                let mut marks: Vec<bool> = Vec::new();
                let mut k: usize = 0;
                while k < self.endpoints.len()
                    invariant
                        k <= self.endpoints.len(),
                        marks@ == health(self.endpoints@).take(k as int),
                    decreases self.endpoints.len() - k,
                {
                    marks.push(self.endpoints[k].healthy);
                    k = k + 1;
                    assert(marks@ =~= health(self.endpoints@).take(k as int));
                }
                assert(marks@ =~= health(self.endpoints@));
                match &self.consistent_hash_ring {
                    Some(ring) => {
                        proof {
                            hash_ring::owners_are_marked(
                                ring@,
                                marks@,
                                hash_ring::place("default_key"@),
                            );
                        }
                        match ring.get_endpoint("default_key", &marks) {
                            Some(i) => i,
                            None => able[0],
                        }
                    },
                    None => {
                        return None;
                    },
                }
            },
        };
        Some(self.endpoints[i].host())
    }
}

impl ServiceEndpoints {
    fn record(&mut self, name: &str, response_time_ms: u64, success: bool)
        ensures
            final(self).pool() == pool_with_reply(
                old(self).pool(),
                name@,
                response_time_ms,
                success,
            ),
            forall|algorithm: LoadBalancingAlgorithm|
                old(self).well_formed(algorithm) ==> #[trigger] final(self).well_formed(algorithm),
    {
        let mut i: usize = 0;
        while i < self.endpoints.len()
            invariant
                *self == *old(self),
                i <= self.endpoints@.len(),
                forall|j: int| 0 <= j < i ==> host(#[trigger] self.endpoints@[j]) != name@,
            decreases self.endpoints@.len() - i,
        {
            if text::same(self.endpoints[i].host().as_str(), name) {
                proof {
                    assert(is_first_named(self.endpoints@, name@, i as int));
                    let c = choose|c: int| is_first_named(self.endpoints@, name@, c);
                    assert(is_first_named(self.endpoints@, name@, c));
                    assert(c == i);
                }
                self.endpoints[i].record(response_time_ms, success);
                proof {
                    lemma_same_shape(old(self).endpoints@, self.endpoints@);
                }
                return;
            }
            i = i + 1;
        }
        proof {
            assert forall|j: int| !is_first_named(self.endpoints@, name@, j) by {}
        }
    }

    fn check(&mut self, i: usize, is_healthy: bool) -> (r: HealthChange)
        requires
            i < old(self).endpoints@.len(),
        ensures
            final(self).pool() == pool_with_health(old(self).pool(), i as int, is_healthy),
            forall|algorithm: LoadBalancingAlgorithm|
                old(self).well_formed(algorithm) ==> #[trigger] final(self).well_formed(algorithm),
            r == (if old(self).endpoints@[i as int].healthy == is_healthy {
                HealthChange::Unchanged
            } else if is_healthy {
                HealthChange::NowHealthy
            } else {
                HealthChange::NowUnhealthy
            }),
    {
        let was_healthy: bool = self.endpoints[i].healthy;
        self.endpoints[i].set_healthy(is_healthy);
        proof {
            lemma_same_shape(old(self).endpoints@, self.endpoints@);
        }
        if was_healthy == is_healthy {
            HealthChange::Unchanged
        } else if is_healthy {
            HealthChange::NowHealthy
        } else {
            HealthChange::NowUnhealthy
        }
    }
}

/// Weights and hosts stay where addresses, ports and weights do.
proof fn lemma_same_shape(before: Seq<Endpoint>, after: Seq<Endpoint>)
    requires
        before.len() == after.len(),
        forall|i: int|
            0 <= i < before.len() ==> (#[trigger] before[i]).address == after[i].address
                && before[i].port == after[i].port && before[i].weight == after[i].weight,
    ensures
        all_weight(before) == all_weight(after),
        hosts(before) == hosts(after),
    decreases before.len(),
{
    assert(hosts(before) =~= hosts(after));
    if before.len() > 0 {
        assert(before[before.len() - 1].weight == after[before.len() - 1].weight);
        assert forall|i: int| 0 <= i < before.drop_last().len() implies (
        #[trigger] before.drop_last()[i]).address == after.drop_last()[i].address
            && before.drop_last()[i].port == after.drop_last()[i].port
            && before.drop_last()[i].weight == after.drop_last()[i].weight by {
            assert(before[i].weight == after[i].weight);
        }
        lemma_same_shape(before.drop_last(), after.drop_last());
    }
}

impl LoadBalancer {
    pub closed spec fn algorithm(&self) -> LoadBalancingAlgorithm {
        self.algorithm
    }

    pub closed spec fn config(&self) -> ProxyConfig {
        *self.config
    }

    /// The services by name.
    pub closed spec fn view(&self) -> Map<Seq<char>, Pool> {
        self.services@.map_values(|s: ServiceEndpoints| s.pool())
    }

    pub closed spec fn well_formed(&self) -> bool {
        &&& self.config.well_formed()
        &&& self.services.well_formed()
        &&& forall|name: Seq<char>| #[trigger]
            self.services@.contains_key(name) ==> self.services@[name].well_formed(self.algorithm)
    }

    /// A choice by weight needs weights whose sum a `u32` can hold.
    pub open spec fn weights_fit(config: ProxyConfig) -> bool {
        algorithm_named(config.load_balancing.algorithm@)
            == LoadBalancingAlgorithm::WeightedRoundRobin ==> forall|i: int|
            0 <= i < config.upstream.services@.len() ==> configured_weight(
                (#[trigger] config.upstream.services@[i]).1.endpoints@,
            ) <= u32::MAX
    }

    /// A balancer for the configured services, of which every endpoint counts as healthy.
    pub fn new(config: Arc<ProxyConfig>) -> (r: Self)
        requires
            config.well_formed(),
            Self::weights_fit(*config),
        ensures
            r.well_formed(),
            r.config() == *config,
            r.algorithm() == algorithm_named(config.load_balancing.algorithm@),
            forall|name: Seq<char>| #[trigger]
                r@.contains_key(name) <==> config.upstream.position(name)
                    < config.upstream.services@.len(),
            forall|name: Seq<char>| #[trigger]
                r@.contains_key(name) ==> pool_made_from(
                    r@[name],
                    config.upstream.services@[config.upstream.position(name)].1.endpoints@,
                ),
    {
        let algorithm: LoadBalancingAlgorithm = LoadBalancingAlgorithm::named(
            config.load_balancing.algorithm.as_str(),
        );
        let mut services: Registry<ServiceEndpoints> = Registry::new();
        let mut i: usize = 0;
        while i < config.upstream.services.len()
            invariant
                i <= config.upstream.services@.len(),
                config.well_formed(),
                Self::weights_fit(*config),
                algorithm == algorithm_named(config.load_balancing.algorithm@),
                services.well_formed(),
                forall|name: Seq<char>| #[trigger]
                    services@.contains_key(name) <==> config.upstream.position(name) < i,
                forall|name: Seq<char>| #[trigger]
                    services@.contains_key(name) ==> services@[name].well_formed(algorithm)
                        && pool_made_from(
                        services@[name].pool(),
                        config.upstream.services@[config.upstream.position(name)].1.endpoints@,
                    ),
            decreases config.upstream.services@.len() - i,
        {
            let service: ServiceEndpoints = ServiceEndpoints::new(
                &config.upstream.services[i].1.endpoints,
                algorithm,
            );
            proof {
                config.upstream.lemma_position(i as int);
                assert forall|name: Seq<char>| config.upstream.position(name) == i implies name
                    == config.upstream.services@[i as int].0@ by {
                    config.upstream.lemma_position_of(name);
                }
                assert forall|name: Seq<char>| 0 <= config.upstream.position(name) by {
                    config.upstream.lemma_position_of(name);
                }
            }
            services.insert(config.upstream.services[i].0.as_str(), service);
            i = i + 1;
        }
        LoadBalancer { config, services, algorithm }
    }

    /// A choice of this service can go by this draw.
    pub open spec fn suits(&self, service_name: Seq<char>, draw: u32) -> bool {
        self.algorithm() == LoadBalancingAlgorithm::WeightedRoundRobin && self@.contains_key(
            service_name,
        ) ==> draw < healthy_weight(self@[service_name].endpoints) || healthy_weight(
            self@[service_name].endpoints,
        ) == 0
    }

    /// A choice of this service goes by a draw: it is by weight, and there is weight.
    pub open spec fn takes_draw(&self, service_name: Seq<char>) -> bool {
        &&& self.algorithm() == LoadBalancingAlgorithm::WeightedRoundRobin
        &&& self@.contains_key(service_name)
        &&& healthy_weight(self@[service_name].endpoints) > 0
    }

    /// A draw that a choice of this service can go by: any number below the weight of its
    /// healthy endpoints, or zero where no draw is taken.
    pub fn draw_for(&self, service_name: &str) -> (r: u32)
        requires
            self.well_formed(),
        ensures
            self.takes_draw(service_name@) ==> r < healthy_weight(
                self@[service_name@].endpoints,
            ),
            !self.takes_draw(service_name@) ==> r == 0,
            self.suits(service_name@, r),
    {
        if self.algorithm != LoadBalancingAlgorithm::WeightedRoundRobin {
            return 0;
        }
        match self.services.get(service_name) {
            Some(service) => {
                let total: u32 = total_weight(&service.endpoints);
                if total == 0 {
                    0
                } else {
                    random::draw_u32_below(total)
                }
            },
            None => 0,
        }
    }

    /// The endpoint that a request to a service goes to, as address and port.
    pub fn select_endpoint(&mut self, service_name: &str) -> (r: Option<String>)
        requires
            old(self).well_formed(),
        ensures
            final(self).well_formed(),
            final(self).config() == old(self).config(),
            final(self).algorithm() == old(self).algorithm(),
            !old(self)@.contains_key(service_name@) ==> r is None && final(self)@ == old(self)@,
            old(self)@.contains_key(service_name@) ==> {
                &&& exists|draw: u32|
                    may_choose(
                        old(self).algorithm(),
                        old(self)@[service_name@],
                        draw,
                        text_of(r),
                    )
                &&& final(self)@ == old(self)@.insert(
                    service_name@,
                    after_choice(old(self).algorithm(), old(self)@[service_name@]),
                )
            },
    {
        if !self.services.contains(service_name) {
            return None;
        }
        let draw: u32 = self.draw_for(service_name);
        let r: Option<String> = self.select_endpoint_with(service_name, draw);
        assert(may_choose(
            old(self).algorithm(),
            old(self)@[service_name@],
            draw,
            text_of(r),
        ));
        r
    }

    /// The endpoint that a request to a service goes to where this is the draw.
    pub fn select_endpoint_with(&mut self, service_name: &str, draw: u32) -> (r: Option<String>)
        requires
            old(self).well_formed(),
            old(self).suits(service_name@, draw),
        ensures
            final(self).well_formed(),
            final(self).config() == old(self).config(),
            final(self).algorithm() == old(self).algorithm(),
            text_of(r) == (if old(self)@.contains_key(service_name@) {
                chosen_host(old(self).algorithm(), old(self)@[service_name@], draw)
            } else {
                None
            }),
            final(self)@ == (if old(self)@.contains_key(service_name@) {
                old(self)@.insert(
                    service_name@,
                    after_choice(old(self).algorithm(), old(self)@[service_name@]),
                )
            } else {
                old(self)@
            }),
    {
        let algorithm: LoadBalancingAlgorithm = self.algorithm;
        match self.services.get_mut(service_name) {
            Some(service) => service.select(algorithm, draw),
            None => None,
        }
    }

    /// Takes a reply of an endpoint into its statistics.
    pub fn update_endpoint_stats(
        &mut self,
        service_name: &str,
        endpoint_addr: &str,
        response_time_ms: u64,
        success: bool,
    )
        requires
            old(self).well_formed(),
        ensures
            final(self).well_formed(),
            final(self).config() == old(self).config(),
            final(self).algorithm() == old(self).algorithm(),
            final(self)@ == (if old(self)@.contains_key(service_name@) {
                old(self)@.insert(
                    service_name@,
                    pool_with_reply(
                        old(self)@[service_name@],
                        endpoint_addr@,
                        response_time_ms,
                        success,
                    ),
                )
            } else {
                old(self)@
            }),
    {
        match self.services.get_mut(service_name) {
            Some(service) => {
                service.record(endpoint_addr, response_time_ms, success);
            },
            None => {},
        }
    }

    /// The number of endpoints of a service.
    pub fn endpoint_count(&self, service_name: &str) -> (r: usize)
        requires
            self.well_formed(),
        ensures
            r == (if self@.contains_key(service_name@) {
                self@[service_name@].endpoints.len()
            } else {
                0
            }),
    {
        match self.services.get(service_name) {
            Some(service) => service.endpoints.len(),
            None => 0,
        }
    }

    /// Endpoint `i` of a service.
    pub fn endpoint(&self, service_name: &str, i: usize) -> (r: Option<&Endpoint>)
        requires
            self.well_formed(),
        ensures
            r is Some == self.has_endpoint(service_name@, i as int),
            r is Some ==> *r->0 == self@[service_name@].endpoints[i as int],
    {
        match self.services.get(service_name) {
            Some(service) => {
                if i < service.endpoints.len() {
                    Some(&service.endpoints[i])
                } else {
                    None
                }
            },
            None => None,
        }
    }

    /// The configuration asks for health checks of the service.
    pub open spec fn is_checked(&self, service_name: Seq<char>) -> bool {
        let at = self.config().upstream.position(service_name);
        &&& self@.contains_key(service_name)
        &&& at < self.config().upstream.services@.len()
        &&& self.config().upstream.services@[at].1.health_check.enabled
    }

    /// The services whose endpoints are to be checked, each once, in no particular order.
    pub fn checked_services(&self) -> (r: Vec<String>)
        requires
            self.well_formed(),
        ensures
            forall|i: int| 0 <= i < r@.len() ==> self.is_checked(#[trigger] r@[i]@),
            forall|name: Seq<char>| #[trigger]
                self.is_checked(name) ==> exists|i: int|
                    0 <= i < r@.len() && #[trigger] r@[i]@ == name,
            forall|i: int, j: int|
                0 <= i < j < r@.len() ==> #[trigger] r@[i]@ != #[trigger] r@[j]@,
    {
        let names: Vec<String> = self.services.names();
        let mut r: Vec<String> = Vec::new();
        let ghost mut from: Seq<int> = Seq::empty();
        let mut i: usize = 0;
        while i < names.len()
            invariant
                self.well_formed(),
                i <= names@.len(),
                forall|k: int| 0 <= k < names@.len() ==> self@.contains_key(#[trigger] names@[k]@),
                forall|k: int, l: int|
                    0 <= k < l < names@.len() ==> #[trigger] names@[k]@ != #[trigger] names@[l]@,
                r@.len() == from.len(),
                forall|k: int|
                    0 <= k < r@.len() ==> 0 <= #[trigger] from[k] < i && r@[k]@
                        == names@[from[k]]@,
                forall|k: int, l: int|
                    0 <= k < l < r@.len() ==> #[trigger] from[k] < #[trigger] from[l],
                forall|k: int| 0 <= k < r@.len() ==> self.is_checked(#[trigger] r@[k]@),
                forall|k: int|
                    0 <= k < i && self.is_checked(#[trigger] names@[k]@) ==> exists|l: int|
                        0 <= l < r@.len() && #[trigger] r@[l]@ == names@[k]@,
            decreases names@.len() - i,
        {
            let ghost before = r@;
            if self.checks(names[i].as_str()) {
                r.push(names[i].clone());
                proof {
                    from = from.push(i as int);
                    assert(r@[r@.len() - 1]@ == names@[i as int]@);
                    assert forall|k: int|
                        0 <= k < i && self.is_checked(#[trigger] names@[k]@) implies exists|l: int|
                        0 <= l < r@.len() && #[trigger] r@[l]@ == names@[k]@ by {
                        let l = choose|l: int|
                            0 <= l < before.len() && #[trigger] before[l]@ == names@[k]@;
                        assert(r@[l]@ == names@[k]@);
                    }
                }
            }
            i = i + 1;
        }
        proof {
            assert forall|name: Seq<char>| #[trigger] self.is_checked(name) implies exists|k: int|
                0 <= k < r@.len() && #[trigger] r@[k]@ == name by {
                assert(self.services@.contains_key(name));
                let k = choose|k: int| 0 <= k < names@.len() && #[trigger] names@[k]@ == name;
                assert(self.is_checked(names@[k]@));
            }
            assert forall|k: int, l: int| 0 <= k < l < r@.len() implies #[trigger] r@[k]@
                != #[trigger] r@[l]@ by {
                assert(from[k] < from[l]);
                assert(names@[from[k]]@ != names@[from[l]]@);
            }
        }
        r
    }

    fn checks(&self, service_name: &str) -> (r: bool)
        requires
            self.well_formed(),
            self@.contains_key(service_name@),
        ensures
            r == self.is_checked(service_name@),
    {
        match self.config.upstream.get(service_name) {
            Some(service) => service.health_check.enabled,
            None => false,
        }
    }

    /// Where endpoint `i` of a service answers health checks, if it is to be checked.
    pub fn health_check_url(&self, service_name: &str, i: usize) -> (r: Option<String>)
        requires
            self.well_formed(),
        ensures
            r is Some == (self.is_checked(service_name@) && self.has_endpoint(
                service_name@,
                i as int,
            )),
            r is Some ==> r->0@ == "http://"@ + host(self@[service_name@].endpoints[i as int])
                + self.config().upstream.services@[self.config().upstream.position(
                service_name@,
            )].1.health_check.path@,
    {
        match self.endpoint(service_name, i) {
            Some(endpoint) => match self.config.upstream.get(service_name) {
                Some(service) => {
                    if !service.health_check.enabled {
                        return None;
                    }
                    let mut url: String = text::join("http://", endpoint.host().as_str());
                    url.append(service.health_check.path.as_str());
                    Some(url)
                },
                None => None,
            },
            None => None,
        }
    }

    /// A health check of endpoint `i` was answered with a status, or not at all.
    pub fn record_health_check(
        &mut self,
        service_name: &str,
        i: usize,
        status: Option<u16>,
    ) -> (r: HealthChange)
        requires
            old(self).well_formed(),
        ensures
            final(self).well_formed(),
            final(self).config() == old(self).config(),
            final(self).algorithm() == old(self).algorithm(),
            !old(self).has_endpoint(service_name@, i as int) ==> r == HealthChange::Unchanged
                && final(self)@ == old(self)@,
            old(self).has_endpoint(service_name@, i as int) ==> {
                let p = old(self)@[service_name@];
                let was = p.endpoints[i as int].healthy;
                let is = is_healthy_reply(status);
                &&& final(self)@ == old(self)@.insert(
                    service_name@,
                    pool_with_health(p, i as int, is),
                )
                &&& r == (if was == is {
                    HealthChange::Unchanged
                } else if is {
                    HealthChange::NowHealthy
                } else {
                    HealthChange::NowUnhealthy
                })
            },
    {
        let is_healthy: bool = match status {
            Some(status) => 200 <= status && status < 300,
            None => false,
        };
        match self.services.get_mut(service_name) {
            Some(service) => {
                if i >= service.endpoints.len() {
                    return HealthChange::Unchanged;
                }
                service.check(i, is_healthy)
            },
            None => HealthChange::Unchanged,
        }
    }

    pub open spec fn has_endpoint(&self, service_name: Seq<char>, i: int) -> bool {
        self@.contains_key(service_name) && 0 <= i < self@[service_name].endpoints.len()
    }
}

/// An endpoint that is chosen is healthy, and one is chosen exactly where some endpoint is
/// healthy.
pub proof fn chosen_endpoints_are_healthy(
    algorithm: LoadBalancingAlgorithm,
    p: Pool,
    draw: u32,
)
    requires
        algorithm == LoadBalancingAlgorithm::WeightedRoundRobin ==> draw < healthy_weight(
            p.endpoints,
        ) || healthy_weight(p.endpoints) == 0,
    ensures
        chosen(algorithm, p, draw) matches Some(i) ==> 0 <= i < p.endpoints.len()
            && p.endpoints[i].healthy,
        chosen(algorithm, p, draw) is Some ==> exists|i: int|
            0 <= i < p.endpoints.len() && (#[trigger] p.endpoints[i]).healthy,
        (exists|i: int| 0 <= i < p.endpoints.len() && (#[trigger] p.endpoints[i]).healthy)
            ==> chosen(algorithm, p, draw) is Some,
{
    let able = healthy(p.endpoints);
    lemma_healthy(p.endpoints);
    if able.len() > 0 {
        assert(p.endpoints[able[0]].healthy);
        match algorithm {
            LoadBalancingAlgorithm::RoundRobin => {
                let k = p.turn as int % able.len() as int;
                assert(0 <= k < able.len());
                assert(p.endpoints[able[k]].healthy);
            },
            LoadBalancingAlgorithm::LeastConnections => {
                lemma_some_least_loaded(p.endpoints);
            },
            LoadBalancingAlgorithm::WeightedRoundRobin => {
                if healthy_weight(p.endpoints) > 0 {
                    lemma_some_drawn(p.endpoints, draw);
                }
            },
            LoadBalancingAlgorithm::ConsistentHash => {
                hash_ring::owners_are_marked(
                    hash_ring::ring_of(hosts(p.endpoints), VIRTUAL_NODES as nat),
                    health(p.endpoints),
                    hash_ring::place("default_key"@),
                );
            },
        }
    }
}

proof fn lemma_some_least_loaded(endpoints: Seq<Endpoint>)
    requires
        healthy(endpoints).len() > 0,
    ensures
        exists|i: int| is_least_loaded(endpoints, i),
    decreases endpoints.len(),
{
    let less = endpoints.drop_last();
    let last = endpoints.len() - 1;
    lemma_healthy(endpoints);
    lemma_healthy(less);
    if healthy(less).len() > 0 {
        lemma_some_least_loaded(less);
        let b = choose|i: int| is_least_loaded(less, i);
        assert(is_least_loaded(less, b));
        assert(less[b] == endpoints[b]);
        assert forall|j: int| 0 <= j < last && (#[trigger] endpoints[j]).healthy implies endpoints[b].active_connections
            <= endpoints[j].active_connections && (j < b ==> endpoints[b].active_connections
            < endpoints[j].active_connections) by {
            assert(less[j] == endpoints[j]);
        }
        if endpoints[last].healthy && endpoints[last].active_connections
            < endpoints[b].active_connections {
            assert(is_least_loaded(endpoints, last));
        } else {
            assert(is_least_loaded(endpoints, b));
        }
    } else {
        assert forall|j: int| 0 <= j < last implies !(#[trigger] endpoints[j]).healthy by {
            if endpoints[j].healthy {
                assert(less[j].healthy);
                assert(healthy(less).contains(j));
            }
        }
        assert(is_least_loaded(endpoints, last));
    }
}

proof fn lemma_some_drawn(endpoints: Seq<Endpoint>, draw: u32)
    requires
        draw < healthy_weight(endpoints),
    ensures
        exists|i: int| is_drawn(endpoints, draw, i),
    decreases endpoints.len(),
{
    let less = endpoints.drop_last();
    let last = endpoints.len() - 1;
    if draw < healthy_weight(less) {
        lemma_some_drawn(less, draw);
        let i = choose|i: int| is_drawn(less, draw, i);
        assert(less.take(i) =~= endpoints.take(i));
        assert(is_drawn(endpoints, draw, i));
    } else {
        assert(endpoints.take(last) =~= less);
        assert(is_drawn(endpoints, draw, last));
    }
}

/// While health stays as it is, as many choices by turns as there are healthy endpoints
/// go to as many different endpoints.
pub proof fn turns_go_round(endpoints: Seq<Endpoint>, turn: usize, a: nat, b: nat, draw: u32)
    requires
        a < b < healthy(endpoints).len(),
        turn + b <= usize::MAX,
    ensures
        chosen(
            LoadBalancingAlgorithm::RoundRobin,
            Pool { endpoints, turn: (turn + a) as usize },
            draw,
        ) != chosen(
            LoadBalancingAlgorithm::RoundRobin,
            Pool { endpoints, turn: (turn + b) as usize },
            draw,
        ),
        after_choice(
            LoadBalancingAlgorithm::RoundRobin,
            Pool { endpoints, turn: (turn + a) as usize },
        ) == (Pool { endpoints, turn: (turn + a + 1) as usize }),
{
    let n = healthy(endpoints).len() as int;
    let x = turn + a;
    let y = turn + b;
    lemma_healthy(endpoints);
    assert(x % n != y % n) by (nonlinear_arith)
        requires
            0 < y - x < n,
            0 <= x,
    {
        assert(x == n * (x / n) + x % n);
        assert(y == n * (y / n) + y % n);
        if x % n == y % n {
            assert(y - x == n * (y / n - x / n));
        }
    }
    let (i, j) = (x % n, y % n);
    assert(healthy(endpoints)[i] != healthy(endpoints)[j]);
}

/// By weight, an endpoint is chosen at as many of the draws as its weight says, and at
/// none if it is not healthy.
pub proof fn shares_follow_weights(endpoints: Seq<Endpoint>, turn: usize, draw: u32, i: int)
    requires
        draw < healthy_weight(endpoints),
        0 <= i < endpoints.len(),
    ensures
        chosen(LoadBalancingAlgorithm::WeightedRoundRobin, Pool { endpoints, turn }, draw) == Some(
            i,
        ) <==> endpoints[i].healthy && healthy_weight(endpoints.take(i)) <= draw < healthy_weight(
            endpoints.take(i),
        ) + endpoints[i].weight,
        endpoints[i].healthy ==> healthy_weight(endpoints.take(i)) + endpoints[i].weight
            <= healthy_weight(endpoints),
{
    lemma_weights(endpoints, i);
    lemma_some_drawn(endpoints, draw);
    let c = choose|c: int| is_drawn(endpoints, draw, c);
    assert(is_drawn(endpoints, draw, c));
    lemma_healthy(endpoints);
    assert(endpoints[c].healthy);
    if is_drawn(endpoints, draw, i) {
        lemma_drawn_once(endpoints, draw, i, c);
    }
}

/// An endpoint that failed its health check is not chosen.
pub proof fn a_failed_check_takes_an_endpoint_out(
    algorithm: LoadBalancingAlgorithm,
    p: Pool,
    i: int,
    draw: u32,
)
    requires
        0 <= i < p.endpoints.len(),
        algorithm == LoadBalancingAlgorithm::WeightedRoundRobin ==> draw < healthy_weight(
            pool_with_health(p, i, false).endpoints,
        ) || healthy_weight(pool_with_health(p, i, false).endpoints) == 0,
    ensures
        chosen(algorithm, pool_with_health(p, i, false), draw) != Some(i),
{
    chosen_endpoints_are_healthy(algorithm, pool_with_health(p, i, false), draw);
}

/// No two endpoints have a node at the same place of the ring.
pub open spec fn nodes_apart(endpoints: Seq<Endpoint>) -> bool {
    forall|i: int, j: int, k: u64|
        0 <= i < endpoints.len() && 0 <= j < endpoints.len() && #[trigger] hash_ring::has_node(
            host(endpoints[i]),
            150,
            k,
        ) && #[trigger] hash_ring::has_node(host(endpoints[j]), 150, k) ==> i == j
}

/// Endpoint `i` has its node at `k`, and no node of a healthy endpoint comes before it from the
/// place of the key, going up and round.
pub open spec fn has_the_next_node(endpoints: Seq<Endpoint>, i: int, k: u64) -> bool {
    &&& 0 <= i < endpoints.len()
    &&& endpoints[i].healthy
    &&& hash_ring::has_node(host(endpoints[i]), 150, k)
    &&& forall|j: int, l: u64|
        0 <= j < endpoints.len() && endpoints[j].healthy && #[trigger] hash_ring::has_node(
            host(endpoints[j]),
            150,
            l,
        ) ==> hash_ring::way(hash_ring::place("default_key"@), k) <= hash_ring::way(
            hash_ring::place("default_key"@),
            l,
        )
}

/// By consistent hashing, the endpoint that is chosen has the next node after the place of the
/// key, of all nodes of healthy endpoints; and only that endpoint has it.
pub proof fn the_next_node_decides(p: Pool, draw: u32) -> (k: u64)
    requires
        p.endpoints.len() <= usize::MAX,
        nodes_apart(p.endpoints),
        exists|i: int| 0 <= i < p.endpoints.len() && (#[trigger] p.endpoints[i]).healthy,
    ensures
        chosen(LoadBalancingAlgorithm::ConsistentHash, p, draw) is Some,
        has_the_next_node(
            p.endpoints,
            chosen(LoadBalancingAlgorithm::ConsistentHash, p, draw)->0,
            k,
        ),
        forall|i: int, l: u64| #[trigger]
            has_the_next_node(p.endpoints, i, l) ==> l == k && Some(i) == chosen(
                LoadBalancingAlgorithm::ConsistentHash,
                p,
                draw,
            ),
{
    let names = hosts(p.endpoints);
    let marks = health(p.endpoints);
    let ring = hash_ring::ring_of(names, 150);
    let at = hash_ring::place("default_key"@);
    lemma_healthy(p.endpoints);
    let e = choose|i: int| 0 <= i < p.endpoints.len() && (#[trigger] p.endpoints[i]).healthy;
    assert(healthy(p.endpoints).contains(e));
    assert forall|j: int, l: u64|
        0 <= j < p.endpoints.len() && #[trigger] hash_ring::has_node(
            host(p.endpoints[j]),
            150,
            l,
        ) implies ring.contains_key(l) && ring[l] == j by {
        hash_ring::lemma_ring_of(names, 150, l);
        assert(names[j] == host(p.endpoints[j]));
        assert(hash_ring::has_node(names[j], 150, l));
        assert(names[ring[l] as int] == host(p.endpoints[ring[l] as int]));
    }
    let first = hash_ring::node(host(p.endpoints[e]), 0);
    assert(hash_ring::has_node(host(p.endpoints[e]), 150, first));
    assert(ring.contains_key(first) && hash_ring::marked(marks, ring[first]));
    hash_ring::owners_are_marked(ring, marks, at);
    let k = choose|k: u64| hash_ring::comes_first(ring, marks, at, k);
    assert(hash_ring::comes_first(ring, marks, at, k));
    hash_ring::lemma_ring_of(names, 150, k);
    let i = ring[k] as int;
    assert(names[i] == host(p.endpoints[i]));
    assert(has_the_next_node(p.endpoints, i, k));
    assert forall|j: int, l: u64| #[trigger] has_the_next_node(p.endpoints, j, l) implies l == k
        && j == i by {
        assert(hash_ring::way(at, l) == hash_ring::way(at, k));
    }
    k
}

/// Every healthy endpoint of one pool is there in another, healthy, under the same host.
#[verifier::opaque]
pub open spec fn hosts_are_in(some: Seq<Endpoint>, others: Seq<Endpoint>) -> bool {
    forall|i: int|
        0 <= i < some.len() && (#[trigger] some[i]).healthy ==> exists|j: int|
            0 <= j < others.len() && (#[trigger] others[j]).healthy && host(others[j]) == host(
                some[i],
            )
}

/// The endpoint of the same host in the other pool.
proof fn lemma_counterpart(some: Seq<Endpoint>, others: Seq<Endpoint>, i: int) -> (j: int)
    requires
        hosts_are_in(some, others),
        0 <= i < some.len(),
        some[i].healthy,
    ensures
        0 <= j < others.len(),
        others[j].healthy,
        host(others[j]) == host(some[i]),
{
    reveal(hosts_are_in);
    choose|j: int|
        0 <= j < others.len() && (#[trigger] others[j]).healthy && host(others[j]) == host(some[i])
}

proof fn lemma_same_node_same_host(p: Pool, q: Pool, i: int, j: int, k: u64)
    requires
        has_the_next_node(p.endpoints, i, k),
        has_the_next_node(q.endpoints, j, k),
        nodes_apart(q.endpoints),
        hosts_are_in(p.endpoints, q.endpoints),
    ensures
        host(p.endpoints[i]) == host(q.endpoints[j]),
{
    let l = lemma_counterpart(p.endpoints, q.endpoints, i);
    assert(hash_ring::has_node(host(q.endpoints[l]), 150, k));
}

/// By consistent hashing, it does not matter in which order the endpoints are listed, nor which
/// endpoints that are not healthy stand among them.
pub proof fn hashing_does_not_go_by_the_list(p: Pool, q: Pool, draw: u32, other_draw: u32)
    requires
        p.endpoints.len() <= usize::MAX,
        q.endpoints.len() <= usize::MAX,
        nodes_apart(p.endpoints),
        nodes_apart(q.endpoints),
        hosts_are_in(p.endpoints, q.endpoints),
        hosts_are_in(q.endpoints, p.endpoints),
    ensures
        chosen_host(LoadBalancingAlgorithm::ConsistentHash, p, draw) == chosen_host(
            LoadBalancingAlgorithm::ConsistentHash,
            q,
            other_draw,
        ),
{
    chosen_endpoints_are_healthy(LoadBalancingAlgorithm::ConsistentHash, p, draw);
    chosen_endpoints_are_healthy(LoadBalancingAlgorithm::ConsistentHash, q, other_draw);
    if exists|i: int| 0 <= i < p.endpoints.len() && (#[trigger] p.endpoints[i]).healthy {
        let some = choose|i: int| 0 <= i < p.endpoints.len() && (#[trigger] p.endpoints[i]).healthy;
        let same = lemma_counterpart(p.endpoints, q.endpoints, some);
        assert(q.endpoints[same].healthy);
        let k = the_next_node_decides(p, draw);
        let l = the_next_node_decides(q, other_draw);
        let i = chosen(LoadBalancingAlgorithm::ConsistentHash, p, draw)->0;
        let j = chosen(LoadBalancingAlgorithm::ConsistentHash, q, other_draw)->0;
        lemma_next_of_both(p, q, i, k, j, l);
        lemma_next_of_both(q, p, j, l, i, k);
        let at = hash_ring::place("default_key"@);
        assert(hash_ring::way(at, k) == hash_ring::way(at, l));
        assert(k == l);
        lemma_same_node_same_host(p, q, i, j, k);
    } else if exists|j: int| 0 <= j < q.endpoints.len() && (#[trigger] q.endpoints[j]).healthy {
        let some = choose|j: int| 0 <= j < q.endpoints.len() && (#[trigger] q.endpoints[j]).healthy;
        let same = lemma_counterpart(q.endpoints, p.endpoints, some);
        assert(p.endpoints[same].healthy);
    }
}

/// The next node of a pool comes no later than that of a pool whose hosts it has.
proof fn lemma_next_of_both(p: Pool, q: Pool, i: int, k: u64, j: int, l: u64)
    requires
        has_the_next_node(p.endpoints, i, k),
        has_the_next_node(q.endpoints, j, l),
        hosts_are_in(p.endpoints, q.endpoints),
    ensures
        hash_ring::way(hash_ring::place("default_key"@), l) <= hash_ring::way(
            hash_ring::place("default_key"@),
            k,
        ),
{
    let m = lemma_counterpart(p.endpoints, q.endpoints, i);
    assert(hash_ring::has_node(host(q.endpoints[m]), 150, k));
}

/// By consistent hashing, a new endpoint, wherever in the list it stands, takes the requests
/// over or leaves them where they went.
pub proof fn a_new_endpoint_takes_over_or_nothing_changes(
    before: Seq<Endpoint>,
    e: Endpoint,
    after: Seq<Endpoint>,
    turn: usize,
    draw: u32,
)
    requires
        before.len() + 1 + after.len() <= usize::MAX,
        nodes_apart(before.push(e) + after),
    ensures
        ({
            let old_host = chosen_host(
                LoadBalancingAlgorithm::ConsistentHash,
                Pool { endpoints: before + after, turn },
                draw,
            );
            let new_host = chosen_host(
                LoadBalancingAlgorithm::ConsistentHash,
                Pool { endpoints: before.push(e) + after, turn },
                draw,
            );
            new_host == old_host || (e.healthy && new_host == Some(host(e)))
        }),
{
    let fewer = before + after;
    let more = before.push(e) + after;
    let n = before.len() as int;
    let p = Pool { endpoints: fewer, turn };
    let q = Pool { endpoints: more, turn };
    assert(more[n] == e);
    assert forall|i: int| 0 <= i < fewer.len() implies #[trigger] fewer[i] == more[if i < n {
        i
    } else {
        i + 1
    }] by {}
    assert forall|i: int| 0 <= i < more.len() && i != n implies #[trigger] more[i] == fewer[if i
        < n {
        i
    } else {
        i - 1
    }] by {}
    assert(nodes_apart(fewer)) by {
        assert forall|i: int, j: int, k: u64|
            0 <= i < fewer.len() && 0 <= j < fewer.len() && #[trigger] hash_ring::has_node(
                host(fewer[i]),
                150,
                k,
            ) && #[trigger] hash_ring::has_node(host(fewer[j]), 150, k) implies i == j by {
            let a = if i < n {
                i
            } else {
                i + 1
            };
            let b = if j < n {
                j
            } else {
                j + 1
            };
            assert(hash_ring::has_node(host(more[a]), 150, k));
            assert(hash_ring::has_node(host(more[b]), 150, k));
        }
    }
    chosen_endpoints_are_healthy(LoadBalancingAlgorithm::ConsistentHash, q, draw);
    chosen_endpoints_are_healthy(LoadBalancingAlgorithm::ConsistentHash, p, draw);
    if chosen(LoadBalancingAlgorithm::ConsistentHash, q, draw) is Some {
        let l = the_next_node_decides(q, draw);
        let j = chosen(LoadBalancingAlgorithm::ConsistentHash, q, draw)->0;
        if j != n {
            let i = if j < n {
                j
            } else {
                j - 1
            };
            assert(fewer[i] == more[j]);
            assert(fewer[i].healthy);
            assert forall|m: int, o: u64|
                0 <= m < fewer.len() && fewer[m].healthy && #[trigger] hash_ring::has_node(
                    host(fewer[m]),
                    150,
                    o,
                ) implies hash_ring::way(hash_ring::place("default_key"@), l) <= hash_ring::way(
                hash_ring::place("default_key"@),
                o,
            ) by {
                let a = if m < n {
                    m
                } else {
                    m + 1
                };
                assert(hash_ring::has_node(host(more[a]), 150, o));
            }
            assert(has_the_next_node(fewer, i, l));
            let k = the_next_node_decides(p, draw);
        }
    } else if chosen(LoadBalancingAlgorithm::ConsistentHash, p, draw) is Some {
        let i = chosen(LoadBalancingAlgorithm::ConsistentHash, p, draw)->0;
        let a = if i < n {
            i
        } else {
            i + 1
        };
        assert(more[a].healthy);
    }
}

/// By turns, the first choice of all goes to the first healthy endpoint of the list, and each
/// further one to the next healthy endpoint after the one before, or, after the last, to the
/// first again. Nothing but the turn changes.
pub proof fn turns_follow_the_list(endpoints: Seq<Endpoint>, turn: usize, draw: u32, i: int)
    requires
        turn < usize::MAX,
    ensures
        ({
            let p = Pool { endpoints, turn };
            let q = after_choice(LoadBalancingAlgorithm::RoundRobin, p);
            let a = chosen(LoadBalancingAlgorithm::RoundRobin, p, draw);
            let b = chosen(LoadBalancingAlgorithm::RoundRobin, q, draw);
            &&& q.endpoints == endpoints
            &&& a is Some ==> b is Some && q.turn == turn + 1
            &&& a is Some && turn == 0 && 0 <= i < a->0 ==> !endpoints[i].healthy
            &&& a is Some && a->0 < b->0 && a->0 < i < b->0 ==> !endpoints[i].healthy
            &&& a is Some && a->0 >= b->0 && (0 <= i < b->0 || a->0 < i < endpoints.len())
                ==> !endpoints[i].healthy
        }),
{
    let able = healthy(endpoints);
    lemma_healthy(endpoints);
    if able.len() > 0 {
        let n = able.len() as int;
        let (x, y) = (turn as int % n, (turn + 1) as int % n);
        assert(0 <= x < n && 0 <= y < n);
        assert(y == x + 1 || (x == n - 1 && y == 0)) by (nonlinear_arith)
            requires
                n > 0,
                turn >= 0,
                x == turn as int % n,
                y == (turn + 1) as int % n,
        {
            let q = turn as int / n;
            assert(turn == n * q + x);
            if x + 1 < n {
                vstd::arithmetic::div_mod::lemma_fundamental_div_mod_converse(
                    turn + 1,
                    n,
                    q,
                    x + 1,
                );
            } else {
                assert(turn + 1 == n * (q + 1));
                vstd::arithmetic::div_mod::lemma_fundamental_div_mod_converse(
                    turn + 1,
                    n,
                    q + 1,
                    0,
                );
            }
        }
        if turn == 0 {
            vstd::arithmetic::div_mod::lemma_small_mod(0, able.len());
        }
        let p = Pool { endpoints, turn };
        let q = Pool { endpoints, turn: (turn + 1) as usize };
        assert(after_choice(LoadBalancingAlgorithm::RoundRobin, p) == q);
        assert(chosen(LoadBalancingAlgorithm::RoundRobin, p, draw) == Some(able[x]));
        assert(chosen(LoadBalancingAlgorithm::RoundRobin, q, draw) == Some(able[y]));
        assert(0 <= able[x] < endpoints.len() && 0 <= able[y] < endpoints.len());
        if 0 <= i < endpoints.len() && endpoints[i].healthy {
            assert(able.contains(i));
            let z = choose|z: int| 0 <= z < n && able[z] == i;
            assert(able[z] == i);
            if z < x {
                assert(able[z] < able[x]);
            }
            if x < z {
                assert(able[x] < able[z]);
            }
            if z < y {
                assert(able[z] < able[y]);
            }
            if y < z {
                assert(able[y] < able[z]);
            }
            if x < y {
                assert(able[x] < able[y]);
            }
            if y < x {
                assert(able[y] < able[x]);
            }
        }
    }
}

/// By connections, no healthy endpoint has fewer than the one that is chosen, and none before
/// it in the list has as few.
pub proof fn the_least_loaded_is_chosen(p: Pool, draw: u32, i: int)
    requires
        0 <= i < p.endpoints.len(),
        p.endpoints[i].healthy,
    ensures
        ({
            let c = chosen(LoadBalancingAlgorithm::LeastConnections, p, draw);
            &&& c is Some
            &&& p.endpoints[c->0].active_connections <= p.endpoints[i].active_connections
            &&& i < c->0 ==> p.endpoints[c->0].active_connections
                < p.endpoints[i].active_connections
        }),
{
    lemma_healthy(p.endpoints);
    assert(healthy(p.endpoints).contains(i));
    lemma_some_least_loaded(p.endpoints);
    let c = choose|c: int| is_least_loaded(p.endpoints, c);
    assert(is_least_loaded(p.endpoints, c));
}

/// The weight that is drawn from is that of the healthy endpoints, each with all of its weight,
/// wherever it stands; without any weight, the first healthy endpoint is chosen.
pub proof fn weights_add_up(
    before: Seq<Endpoint>,
    e: Endpoint,
    after: Seq<Endpoint>,
    turn: usize,
    draw: u32,
)
    ensures
        healthy_weight(before + after) + (if e.healthy {
            e.weight as int
        } else {
            0
        }) == healthy_weight(before.push(e) + after),
        healthy_weight(Seq::empty()) == 0,
        healthy_weight(before.push(e) + after) == 0 && e.healthy && (forall|i: int|
            0 <= i < before.len() ==> !(#[trigger] before[i]).healthy) ==> chosen(
            LoadBalancingAlgorithm::WeightedRoundRobin,
            Pool { endpoints: before.push(e) + after, turn },
            draw,
        ) == Some(before.len() as int),
    decreases after.len(),
{
    let all = before.push(e) + after;
    if after.len() == 0 {
        assert(all =~= before.push(e));
        assert(before + after =~= before);
        assert(before.push(e).drop_last() =~= before);
    } else {
        weights_add_up(before, e, after.drop_last(), turn, draw);
        assert(all.drop_last() =~= before.push(e) + after.drop_last());
        assert((before + after).drop_last() =~= before + after.drop_last());
        assert(all.last() == after.last() && (before + after).last() == after.last());
    }
    if e.healthy && forall|i: int| 0 <= i < before.len() ==> !(#[trigger] before[i]).healthy {
        let n = before.len() as int;
        lemma_healthy(all);
        assert(all[n] == e);
        assert(healthy(all).contains(n));
        let k = choose|k: int| 0 <= k < healthy(all).len() && healthy(all)[k] == n;
        let first = healthy(all)[0];
        assert(all[first].healthy);
        if first < n {
            assert(all[first] == before[first]);
        }
        if k > 0 {
            assert(healthy(all)[0] < healthy(all)[k]);
        }
    }
}

/// A reply counts for the first endpoint of its name, wherever that stands, and for no other.
/// The count of requests goes up by one, that of failures by one if it failed; the first time
/// is the average, and nothing else changes. Without such an endpoint nothing changes.
pub proof fn replies_count_for_their_endpoint(
    before: Seq<Endpoint>,
    e: Endpoint,
    after: Seq<Endpoint>,
    turn: usize,
    name: Seq<char>,
    ms: u64,
    success: bool,
)
    requires
        forall|i: int| 0 <= i < before.len() ==> host(#[trigger] before[i]) != name,
        e.total_requests < usize::MAX && e.failed_requests < usize::MAX,
    ensures
        pool_with_reply(Pool { endpoints: before, turn }, name, ms, success) == (Pool {
            endpoints: before,
            turn,
        }),
        host(e) == name ==> {
            let q = pool_with_reply(
                Pool { endpoints: before.push(e) + after, turn },
                name,
                ms,
                success,
            );
            let c = q.endpoints[before.len() as int];
            &&& q.turn == turn
            &&& q.endpoints == before.push(c) + after
            &&& c.total_requests == e.total_requests + 1
            &&& success ==> c.failed_requests == e.failed_requests
            &&& !success ==> c.failed_requests == e.failed_requests + 1
            &&& e.avg_response_time.zero() ==> c.avg_response_time == Binary64::of_nat(ms as nat)
            &&& c == (Endpoint {
                total_requests: c.total_requests,
                failed_requests: c.failed_requests,
                avg_response_time: c.avg_response_time,
                ..e
            })
        },
{
    let all = before.push(e) + after;
    let n = before.len() as int;
    if host(e) == name {
        assert(all[n] == e);
        assert forall|j: int| 0 <= j < n implies host(#[trigger] all[j]) != name by {
            assert(all[j] == before[j]);
        }
        assert(is_first_named(all, name, n));
        let i = choose|i: int| is_first_named(all, name, i);
        assert(is_first_named(all, name, i));
        assert(i == n);
        let q = pool_with_reply(Pool { endpoints: all, turn }, name, ms, success);
        assert(q.endpoints =~= before.push(q.endpoints[n]) + after);
    }
    assert forall|j: int| !is_first_named(before, name, j) by {}
}

/// A health check says whether one endpoint is healthy, by a status from 200 to 299, and leaves
/// everything else as it is; so a check that succeeds brings back what a failed one took out.
pub proof fn checks_change_health_only(p: Pool, i: int, j: int, up: bool, status: u16)
    requires
        0 <= i < p.endpoints.len(),
        0 <= j < p.endpoints.len(),
    ensures
        pool_with_health(p, i, up).endpoints.len() == p.endpoints.len(),
        pool_with_health(p, i, up).turn == p.turn,
        pool_with_health(p, i, up).endpoints[i].healthy == up,
        j != i ==> pool_with_health(p, i, up).endpoints[j] == p.endpoints[j],
        host(pool_with_health(p, i, up).endpoints[i]) == host(p.endpoints[i]),
        pool_with_health(pool_with_health(p, i, up), i, p.endpoints[i].healthy) == p,
        is_healthy_reply(Some(status)) <==> status / 100 == 2,
        !is_healthy_reply(None),
{
    let q = pool_with_health(p, i, up);
    assert(pool_with_health(q, i, p.endpoints[i].healthy).endpoints =~= p.endpoints);
}

/// Each algorithm goes by its own name, and every other name means taking turns.
pub proof fn algorithms_go_by_their_names(name: Seq<char>)
    ensures
        algorithm_named("round_robin"@) == LoadBalancingAlgorithm::RoundRobin,
        algorithm_named(name) == LoadBalancingAlgorithm::LeastConnections <==> name
            == "least_connections"@,
        algorithm_named(name) == LoadBalancingAlgorithm::WeightedRoundRobin <==> name
            == "weighted_round_robin"@,
        algorithm_named(name) == LoadBalancingAlgorithm::ConsistentHash <==> name
            == "consistent_hash"@,
{
    reveal_strlit("round_robin");
    reveal_strlit("least_connections");
    reveal_strlit("weighted_round_robin");
    reveal_strlit("consistent_hash");
    assert("round_robin"@.len() == 11);
    assert("least_connections"@.len() == 17);
    assert("weighted_round_robin"@.len() == 20);
    assert("consistent_hash"@.len() == 15);
}

/// Only a choice by turns changes anything, and only whose turn it is.
pub proof fn other_choices_change_nothing(algorithm: LoadBalancingAlgorithm, p: Pool)
    ensures
        after_choice(algorithm, p).endpoints == p.endpoints,
        algorithm != LoadBalancingAlgorithm::RoundRobin ==> after_choice(algorithm, p) == p,
{
}

/// Whatever the draw, a choice gives the host of a healthy endpoint of the pool, and nothing
/// only where no endpoint is healthy; the host is the address and the port with a colon
/// between them.
pub proof fn choices_are_healthy_hosts(
    algorithm: LoadBalancingAlgorithm,
    p: Pool,
    draw: u32,
    r: Option<Seq<char>>,
)
    requires
        may_choose(algorithm, p, draw, r),
    ensures
        r is None <==> forall|i: int|
            0 <= i < p.endpoints.len() ==> !(#[trigger] p.endpoints[i]).healthy,
        r matches Some(name) ==> exists|i: int|
            0 <= i < p.endpoints.len() && (#[trigger] p.endpoints[i]).healthy && name
                == p.endpoints[i].address@ + ":"@ + text::decimal(p.endpoints[i].port as nat),
{
    chosen_endpoints_are_healthy(algorithm, p, draw);
    if chosen(algorithm, p, draw) is Some {
        let i = chosen(algorithm, p, draw)->0;
        assert(p.endpoints[i].healthy);
    }
}

/// A pool starts with every configured endpoint at its place, as it is configured, healthy and
/// not used yet; and it is the first one's turn.
pub proof fn pools_start_as_configured(p: Pool, configs: Seq<EndpointConfig>, i: int)
    requires
        pool_made_from(p, configs),
    ensures
        p.turn == 0,
        p.endpoints.len() == configs.len(),
        0 <= i < configs.len() ==> {
            let e = p.endpoints[i];
            &&& e.address@ == configs[i].address@
            &&& e.port == configs[i].port
            &&& e.weight == configs[i].weight
            &&& e.metadata@ == configs[i].metadata@
            &&& e.healthy
            &&& e.active_connections == 0 && e.total_requests == 0 && e.failed_requests == 0
            &&& e.avg_response_time.zero()
        },
{
    if 0 <= i < configs.len() {
        assert(made_from(p.endpoints[i], configs[i]));
    }
}

/// A longer time does not lower the average, and neither does a higher average before it.
pub proof fn averages_follow_times(low: Binary64, high: Binary64, few: u64, many: u64)
    requires
        low.finite() && !low.negative() && !low.zero(),
        high.finite() && !high.negative() && !high.zero(),
        !low.above(high),
        few <= many,
        (Binary64 { bits: 0x3FEC_CCCC_CCCC_CCCD }).product(high).finite(),
    ensures
        !averaged(low, few).above(averaged(low, many)),
        !averaged(low, few).above(averaged(high, few)),
        !averaged(low, few).nan(),
{
    let nine = Binary64 { bits: 0x3FEC_CCCC_CCCC_CCCD };
    let one = Binary64 { bits: 0x3FB9_9999_9999_999A };
    let (a, b) = (Binary64::of_nat(few as nat), Binary64::of_nat(many as nat));
    binary64::whole_numbers_are_finite(few as nat);
    binary64::whole_numbers_are_finite(many as nat);
    binary64::whole_numbers_keep_order(few as nat, many as nat);
    precision::products_keep_order(low, high, nine);
    precision::products_keep_order(a, b, one);
    lemma_tenth_is_finite(few);
    lemma_tenth_is_finite(many);
    precision::sums_commute(nine.product(low), one.product(a));
    precision::sums_commute(nine.product(low), one.product(b));
    precision::sums_keep_order(one.product(a), one.product(b), nine.product(low));
    precision::sums_keep_order(nine.product(low), nine.product(high), one.product(a));
}

/// A tenth of a time is a finite number.
proof fn lemma_tenth_is_finite(ms: u64)
    ensures
        (Binary64 { bits: 0x3FB9_9999_9999_999A }).product(Binary64::of_nat(ms as nat)).finite(),
{
    let tenth = Binary64 { bits: 0x3FB9_9999_9999_999A };
    let x = Binary64::of_nat(ms as nat);
    binary64::whole_numbers_are_finite(ms as nat);
    binary64::lemma_one();
    precision::at_most_one_does_not_raise(tenth, x);
}

impl LoadBalancer {
    /// A service is checked exactly if its own configuration asks for it.
    pub proof fn services_are_checked_as_configured(&self, name: Seq<char>, i: int)
        requires
            self.config().upstream.names_distinct(),
            0 <= i < self.config().upstream.services@.len(),
            self.config().upstream.services@[i].0@ == name,
            self@.contains_key(name),
        ensures
            self.is_checked(name) <==> self.config().upstream.services@[i].1.health_check.enabled,
    {
        self.config().upstream.lemma_position(i);
    }
}

/// The doubles nearest to nine tenths and to one tenth, in units.
proof fn lemma_tenths()
    ensures
        ({
            let nine = Binary64 { bits: 0x3FEC_CCCC_CCCC_CCCD };
            let one = Binary64 { bits: 0x3FB9_9999_9999_999A };
            let unit = pow2(binary64::UNIT_PLACES as nat);
            let (p, x, y) = (
                precision::PARTS as int,
                binary64::units(nine.magnitude()) as int,
                binary64::units(one.magnitude()) as int,
            );
            &&& nine.finite() && !nine.negative()
            &&& one.finite() && !one.negative()
            &&& 9 * unit <= 10 * x && p * (10 * x) <= (p + 1) * (9 * unit)
            &&& unit <= 10 * y && p * (10 * y) <= (p + 1) * unit
            &&& y >= binary64::FRACTION && x >= binary64::FRACTION
        }),
{
    lemma2_to64();
    lemma2_to64_rest();
    binary64::lemma_units_of_fields(0x3FE, 0xC_CCCC_CCCC_CCCD);
    binary64::lemma_units_of_fields(0x3FB, 0x9_9999_9999_999A);
    lemma_pow2_adds(53, 1021);
    lemma_pow2_adds(56, 1018);
    lemma_pow2_pos(1021);
    lemma_pow2_pos(1018);
    let nine = Binary64 { bits: 0x3FEC_CCCC_CCCC_CCCD };
    let one = Binary64 { bits: 0x3FB9_9999_9999_999A };
    let unit = pow2(binary64::UNIT_PLACES as nat) as int;
    let (v, w) = (pow2(1021) as int, pow2(1018) as int);
    assert(nine.magnitude() == 0x3FEC_CCCC_CCCC_CCCD);
    assert(one.magnitude() == 0x3FB9_9999_9999_999A);
    assert(binary64::units(nine.magnitude()) == 0x1C_CCCC_CCCC_CCCD * v);
    assert(binary64::units(one.magnitude()) == 0x19_9999_9999_999A * w);
    assert(unit == 0x20_0000_0000_0000 * v);
    assert(unit == 0x100_0000_0000_0000 * w);
    let p = precision::PARTS as int;
    let x = binary64::units(nine.magnitude()) as int;
    let y = binary64::units(one.magnitude()) as int;
    assert(p * (10 * x) <= (p + 1) * (9 * unit)) by (nonlinear_arith)
        requires
            p == 0x20_0000_0000_0000,
            x == 0x1C_CCCC_CCCC_CCCD * v,
            unit == 0x20_0000_0000_0000 * v,
            v > 0,
    ;
    assert(p * (10 * y) <= (p + 1) * unit) by (nonlinear_arith)
        requires
            p == 0x20_0000_0000_0000,
            y == 0x19_9999_9999_999A * w,
            unit == 0x100_0000_0000_0000 * w,
            w > 0,
    ;
}

/// A product of numbers of which one is no less than one and the other a tenth at least, as it
/// is rounded.
proof fn lemma_product_close(c: Binary64, x: Binary64)
    requires
        c.finite() && !c.negative() && binary64::units(c.magnitude()) >= binary64::FRACTION,
        x.finite() && !x.negative(),
        x.zero() || binary64::units(x.magnitude()) >= pow2(binary64::UNIT_PLACES as nat),
        c.product(x).finite(),
    ensures
        ({
            let unit = pow2(binary64::UNIT_PLACES as nat);
            let n = binary64::units(c.magnitude()) * binary64::units(x.magnitude());
            let v = binary64::units(c.product(x).magnitude());
            let p = precision::PARTS as int;
            &&& p * (v * unit) <= (p + 1) * n
            &&& (p - 1) * n <= p * (v * unit)
        }),
{
    let unit = pow2(binary64::UNIT_PLACES as nat);
    let (a, b) = (binary64::units(c.magnitude()), binary64::units(x.magnitude()));
    let n = a * b;
    lemma_pow2_pos(binary64::UNIT_PLACES as nat);
    precision::rounding_is_close(n, unit);
    let v = binary64::units(c.product(x).magnitude());
    assert(v == binary64::units(binary64::round_units(n, unit)));
    if x.zero() {
        assert(binary64::units(0) == 0);
        assert(n == 0) by (nonlinear_arith)
            requires
                n == a * b,
                b == 0,
        ;
        assert(binary64::round_units(0, unit) == 0) by {
            vstd::arithmetic::div_mod::lemma_div_basics(unit as int);
            vstd::arithmetic::div_mod::lemma_small_mod(0, unit);
            assert(binary64::nearest(0, unit) == 0);
        }
        assert(0 * unit == 0);
    } else {
        assert(binary64::FRACTION * unit <= n) by (nonlinear_arith)
            requires
                n == a * b,
                a >= binary64::FRACTION,
                b >= unit,
                unit > 0,
        ;
    }
}

/// A moving average is nine tenths of the average before and one tenth of the new time, up to
/// four parts in two to the fifty-third for the rounding.
pub proof fn averages_are_nine_tenths_and_one(average: Binary64, ms: u64)
    requires
        precision::from_one(average),
        average.finite(),
        ms <= 0x20_0000_0000_0000,
        (Binary64 { bits: 0x3FEC_CCCC_CCCC_CCCD }).product(average).finite(),
        averaged(average, ms).finite(),
    ensures
        ({
            let v = averaged(average, ms).value();
            let exact = 9 * average.value() + ms * pow2(binary64::UNIT_PLACES as nat);
            let p = precision::PARTS as int;
            &&& p * (10 * v) <= (p + 4) * exact
            &&& (p - 4) * exact <= p * (10 * v)
        }),
{
    let nine = Binary64 { bits: 0x3FEC_CCCC_CCCC_CCCD };
    let one = Binary64 { bits: 0x3FB9_9999_9999_999A };
    let time = Binary64::of_nat(ms as nat);
    let unit = pow2(binary64::UNIT_PLACES as nat) as int;
    lemma_pow2_pos(binary64::UNIT_PLACES as nat);
    lemma_tenths();
    binary64::lemma_one();
    precision::lemma_units_from_one(average);
    binary64::whole_numbers_are_exact(ms as nat);
    binary64::zero_is_zero();
    assert(ms >= 1 ==> ms * unit >= unit) by (nonlinear_arith)
        requires
            unit > 0,
    ;
    lemma_tenth_is_finite(ms);
    lemma_product_close(nine, average);
    lemma_product_close(one, time);
    let (a, b) = (nine.product(average), one.product(time));
    precision::products_keep_signs(average, nine);
    precision::products_commute(average, nine);
    precision::products_keep_signs(time, one);
    precision::products_commute(time, one);
    lemma_sum_close(a, b);
    lemma_average_chain(
        unit,
        binary64::units(nine.magnitude()) as int,
        binary64::units(one.magnitude()) as int,
        average.value(),
        time.value(),
        a.value(),
        b.value(),
        averaged(average, ms).value(),
    );
}

/// A sum of numbers that are not negative, as it is rounded.
proof fn lemma_sum_close(a: Binary64, b: Binary64)
    requires
        a.finite() && a.rank() >= 0,
        b.finite() && b.rank() >= 0,
        a.sum(b).finite(),
    ensures
        a.value() >= 0 && b.value() >= 0 && a.sum(b).value() >= 0,
        precision::PARTS * a.sum(b).value() <= (precision::PARTS + 1) * (a.value() + b.value()),
        (precision::PARTS - 1) * (a.value() + b.value()) <= precision::PARTS * a.sum(b).value(),
{
    binary64::lemma_units_at_least(a.magnitude());
    binary64::lemma_units_at_least(b.magnitude());
    let s = a.value() + b.value();
    precision::rounding_is_close(s as nat, 1);
    let v = binary64::units(binary64::round_units(s as nat, 1));
    assert(v * 1 == v);
    assert(binary64::units(0) == 0);
}

proof fn lemma_average_chain(
    unit: int,
    nine: int,
    one: int,
    average: int,
    time: int,
    a: int,
    b: int,
    v: int,
)
    requires
        unit > 0,
        average >= 0,
        time >= 0,
        a >= 0,
        b >= 0,
        9 * unit <= 10 * nine && precision::PARTS * (10 * nine) <= (precision::PARTS + 1) * (9
            * unit),
        unit <= 10 * one && precision::PARTS * (10 * one) <= (precision::PARTS + 1) * unit,
        precision::PARTS * (a * unit) <= (precision::PARTS + 1) * (nine * average),
        (precision::PARTS - 1) * (nine * average) <= precision::PARTS * (a * unit),
        precision::PARTS * (b * unit) <= (precision::PARTS + 1) * (one * time),
        (precision::PARTS - 1) * (one * time) <= precision::PARTS * (b * unit),
        precision::PARTS * v <= (precision::PARTS + 1) * (a + b),
        (precision::PARTS - 1) * (a + b) <= precision::PARTS * v,
    ensures
        precision::PARTS * (10 * v) <= (precision::PARTS + 4) * (9 * average + time),
        (precision::PARTS - 4) * (9 * average + time) <= precision::PARTS * (10 * v),
{
    let p = precision::PARTS as int;
    // Each product is close to its exact share.
    lemma_share_close(p, unit, nine, average, a, 9);
    lemma_share_close(p, unit, one, time, b, 1);
    let x = 9 * average + time;
    let s = 10 * (a + b);
    assert((p * p) * s <= ((p + 1) * (p + 1)) * x) by (nonlinear_arith)
        requires
            (p * p) * (10 * a) <= ((p + 1) * (p + 1)) * (9 * average),
            (p * p) * (10 * b) <= ((p + 1) * (p + 1)) * (1 * time),
            x == 9 * average + time,
            s == 10 * (a + b),
    ;
    assert((p - 1) * x <= p * s) by (nonlinear_arith)
        requires
            (p - 1) * (9 * average) <= p * (10 * a),
            (p - 1) * (1 * time) <= p * (10 * b),
            x == 9 * average + time,
            s == 10 * (a + b),
    ;
    assert((p * p * p) * (10 * v) <= ((p + 1) * (p + 1) * (p + 1)) * x) by (nonlinear_arith)
        requires
            p * v <= (p + 1) * (a + b),
            s == 10 * (a + b),
            (p * p) * s <= ((p + 1) * (p + 1)) * x,
            p > 0,
    ;
    assert(((p + 1) * (p + 1) * (p + 1)) <= (p * p) * (p + 4)) by (nonlinear_arith)
        requires
            p == 0x20_0000_0000_0000,
    ;
    assert(((p + 1) * (p + 1) * (p + 1)) * x <= ((p * p) * (p + 4)) * x) by (nonlinear_arith)
        requires
            ((p + 1) * (p + 1) * (p + 1)) <= (p * p) * (p + 4),
            x >= 0,
    ;
    assert(p * (10 * v) <= (p + 4) * x) by (nonlinear_arith)
        requires
            (p * p * p) * (10 * v) <= ((p * p) * (p + 4)) * x,
            p > 0,
    ;
    assert(((p - 1) * (p - 1)) * x <= (p * p) * (10 * v)) by (nonlinear_arith)
        requires
            (p - 1) * (a + b) <= p * v,
            s == 10 * (a + b),
            (p - 1) * x <= p * s,
            p > 1,
    ;
    assert(p * (p - 4) <= (p - 1) * (p - 1)) by (nonlinear_arith)
        requires
            p > 4,
    ;
    assert((p * (p - 4)) * x <= ((p - 1) * (p - 1)) * x) by (nonlinear_arith)
        requires
            p * (p - 4) <= (p - 1) * (p - 1),
            x >= 0,
    ;
    assert((p - 4) * x <= p * (10 * v)) by (nonlinear_arith)
        requires
            (p * (p - 4)) * x <= (p * p) * (10 * v),
            p > 0,
    ;
}

proof fn lemma_share_close(p: int, unit: int, c: int, x: int, a: int, k: int)
    requires
        p > 1,
        unit > 0,
        x >= 0,
        k * unit <= 10 * c,
        p * (10 * c) <= (p + 1) * (k * unit),
        p * (a * unit) <= (p + 1) * (c * x),
        (p - 1) * (c * x) <= p * (a * unit),
    ensures
        (p * p) * (10 * a) <= ((p + 1) * (p + 1)) * (k * x),
        (p - 1) * (k * x) <= p * (10 * a),
{
    assert(p * (10 * (c * x)) <= (p + 1) * ((k * x) * unit)) by (nonlinear_arith)
        requires
            p * (10 * c) <= (p + 1) * (k * unit),
            x >= 0,
    ;
    assert((k * x) * unit <= 10 * (c * x)) by (nonlinear_arith)
        requires
            k * unit <= 10 * c,
            x >= 0,
    ;
    let (y, z) = (c * x, k * x);
    assert((p * p) * ((10 * a) * unit) <= ((p + 1) * (p + 1)) * (z * unit)) by (nonlinear_arith)
        requires
            p * (a * unit) <= (p + 1) * y,
            p * (10 * y) <= (p + 1) * (z * unit),
            p > 1,
    ;
    assert((p * p) * (10 * a) <= ((p + 1) * (p + 1)) * z) by (nonlinear_arith)
        requires
            (p * p) * ((10 * a) * unit) <= ((p + 1) * (p + 1)) * (z * unit),
            unit > 0,
    ;
    assert((p - 1) * (z * unit) <= p * ((10 * a) * unit)) by (nonlinear_arith)
        requires
            (p - 1) * y <= p * (a * unit),
            z * unit <= 10 * y,
            p > 1,
    ;
    assert((p - 1) * z <= p * (10 * a)) by (nonlinear_arith)
        requires
            (p - 1) * (z * unit) <= p * ((10 * a) * unit),
            unit > 0,
    ;
}

} // verus!
