//! Consistent hashing: a ring of hashes, each of which stands for an endpoint.
use crate::text;
use std::collections::hash_map::DefaultHasher;
use std::hash::{Hash, Hasher};
use vstd::prelude::*;
use vstd::std_specs::hash::DefaultHasherAdditionalSpecFns;
use vstd::string::StringExecFns;

verus! {

/// What a text writes to a hasher.
pub uninterp spec fn hash_writes(text: Seq<char>) -> Seq<Seq<u8>>;

/// `std`'s `Hash` of `str` writes to the hasher, and what it writes depends on the text
/// alone.
#[verifier::external_body]
fn hash_text(text: &str, hasher: &mut DefaultHasher)
    ensures
        final(hasher)@ == old(hasher)@ + hash_writes(text@),
{
    text.hash(hasher)
}

/// The place of a text on the ring.
pub open spec fn place(text: Seq<char>) -> u64 {
    DefaultHasher::spec_finish(hash_writes(text))
}

/// How far it is from one place to another, going up and round.
pub open spec fn way(from: u64, to: u64) -> int {
    if to >= from {
        to - from
    } else {
        to + 0x1_0000_0000_0000_0000 - from
    }
}

/// The endpoint is marked.
pub open spec fn marked(marks: Seq<bool>, endpoint: usize) -> bool {
    endpoint < marks.len() && marks[endpoint as int]
}

/// `k` is the node that comes first from `at`, of those whose endpoint is marked.
pub open spec fn comes_first(
    ring: Map<u64, usize>,
    marks: Seq<bool>,
    at: u64,
    k: u64,
) -> bool {
    &&& ring.contains_key(k)
    &&& marked(marks, ring[k])
    &&& forall|j: u64| #[trigger]
        ring.contains_key(j) && marked(marks, ring[j]) ==> way(at, k) <= way(at, j)
}

/// The endpoint that a place falls to: that of the marked node that comes first.
pub open spec fn owner(ring: Map<u64, usize>, marks: Seq<bool>, at: u64) -> Option<
    usize,
> {
    if exists|k: u64| comes_first(ring, marks, at, k) {
        Some(ring[choose|k: u64| comes_first(ring, marks, at, k)])
    } else {
        None
    }
}

/// The place of a numbered node of a named endpoint.
pub open spec fn node(name: Seq<char>, number: nat) -> u64 {
    place(name + ":"@ + text::decimal(number))
}

/// A ring with some numbered nodes of one endpoint put in.
pub open spec fn with_nodes(
    ring: Map<u64, usize>,
    name: Seq<char>,
    endpoint: usize,
    nodes: nat,
) -> Map<u64, usize>
    decreases nodes,
{
    if nodes == 0 {
        ring
    } else {
        with_nodes(ring, name, endpoint, (nodes - 1) as nat).insert(
            node(name, (nodes - 1) as nat),
            endpoint,
        )
    }
}

/// The ring of some endpoints, by their names.
pub open spec fn ring_of(names: Seq<Seq<char>>, nodes: nat) -> Map<u64, usize>
    decreases names.len(),
{
    if names.len() == 0 {
        Map::empty()
    } else {
        with_nodes(
            ring_of(names.drop_last(), nodes),
            names.last(),
            (names.len() - 1) as usize,
            nodes,
        )
    }
}

/// The nodes in the order of their places.
pub struct ConsistentHashRing {
    nodes: Vec<(u64, usize)>,
}

impl ConsistentHashRing {
    pub closed spec fn well_formed(&self) -> bool {
        forall|i: int, j: int|
            0 <= i < j < self.nodes@.len() ==> (#[trigger] self.nodes@[i]).0 < (
            #[trigger] self.nodes@[j]).0
    }

    spec fn node_at(&self, i: int, k: u64) -> bool {
        0 <= i < self.nodes@.len() && self.nodes@[i].0 == k
    }

    /// The endpoints by the places of their nodes.
    pub closed spec fn view(&self) -> Map<u64, usize> {
        Map::new(
            |k: u64| exists|i: int| self.node_at(i, k),
            |k: u64| self.nodes@[choose|i: int| self.node_at(i, k)].1,
        )
    }

    proof fn lemma_view(&self, i: int)
        requires
            self.well_formed(),
            0 <= i < self.nodes@.len(),
        ensures
            self@.contains_key(self.nodes@[i].0),
            self@[self.nodes@[i].0] == self.nodes@[i].1,
    {
        let k = self.nodes@[i].0;
        assert(self.node_at(i, k));
        let j = choose|j: int| self.node_at(j, k);
        assert(self.node_at(j, k));
        assert(j == i);
    }

    /// The first node whose place is not below `k`.
    fn lower_bound(&self, k: u64) -> (r: usize)
        requires
            self.well_formed(),
        ensures
            r <= self.nodes@.len(),
            forall|i: int| 0 <= i < r ==> (#[trigger] self.nodes@[i]).0 < k,
            forall|i: int| r <= i < self.nodes@.len() ==> (#[trigger] self.nodes@[i]).0 >= k,
    {
        let mut lo: usize = 0;
        let mut hi: usize = self.nodes.len();
        while lo < hi
            invariant
                self.well_formed(),
                lo <= hi <= self.nodes@.len(),
                forall|i: int| 0 <= i < lo ==> (#[trigger] self.nodes@[i]).0 < k,
                forall|i: int| hi <= i < self.nodes@.len() ==> (#[trigger] self.nodes@[i]).0 >= k,
            decreases hi - lo,
        {
            let mid: usize = lo + (hi - lo) / 2;
            if self.nodes[mid].0 < k {
                lo = mid + 1;
            } else {
                hi = mid;
            }
        }
        lo
    }

    fn insert(&mut self, k: u64, endpoint: usize)
        requires
            old(self).well_formed(),
        ensures
            final(self).well_formed(),
            final(self)@ == old(self)@.insert(k, endpoint),
    {
        let at: usize = self.lower_bound(k);
        let ghost before = *self;
        if at < self.nodes.len() && self.nodes[at].0 == k {
            self.nodes.set(at, (k, endpoint));
            proof {
                assert forall|j: u64| self@.contains_key(j) == before@.insert(
                    k,
                    endpoint,
                ).contains_key(j) by {
                    if self@.contains_key(j) {
                        let i = choose|i: int| self.node_at(i, j);
                        assert(before.node_at(i, j));
                    }
                    if before@.contains_key(j) {
                        let i = choose|i: int| before.node_at(i, j);
                        assert(self.node_at(i, j));
                    }
                    assert(self.node_at(at as int, k));
                }
                assert forall|j: u64| #[trigger] self@.contains_key(j) implies self@[j]
                    == before@.insert(k, endpoint)[j] by {
                    let i = choose|i: int| self.node_at(i, j);
                    assert(self.node_at(i, j));
                    self.lemma_view(i);
                    before.lemma_view(i);
                }
                assert(self@ =~= before@.insert(k, endpoint));
            }
        } else {
            self.nodes.insert(at, (k, endpoint));
            proof {
                let a = at as int;
                assert(self.nodes@[a] == (k, endpoint));
                assert(forall|i: int| 0 <= i < a ==> self.nodes@[i] == #[trigger] before.nodes@[i]);
                assert(forall|i: int|
                    a <= i < before.nodes@.len() ==> self.nodes@[i + 1] == #[trigger]
                    before.nodes@[i]);
                assert forall|i: int, j: int| 0 <= i < j < self.nodes@.len() implies (
                #[trigger] self.nodes@[i]).0 < (#[trigger] self.nodes@[j]).0 by {
                    if i < a {
                        assert(self.nodes@[i] == before.nodes@[i]);
                    } else if i > a {
                        assert(self.nodes@[(i - 1) + 1] == before.nodes@[i - 1]);
                    }
                    if j < a {
                        assert(self.nodes@[j] == before.nodes@[j]);
                    } else if j > a {
                        assert(self.nodes@[(j - 1) + 1] == before.nodes@[j - 1]);
                    }
                }
                assert forall|j: u64| self@.contains_key(j) == before@.insert(
                    k,
                    endpoint,
                ).contains_key(j) by {
                    if self@.contains_key(j) {
                        let i = choose|i: int| self.node_at(i, j);
                        assert(self.node_at(i, j));
                        if i < a {
                            assert(before.node_at(i, j));
                        } else if i > a {
                            assert(self.nodes@[(i - 1) + 1] == before.nodes@[i - 1]);
                            assert(before.node_at(i - 1, j));
                        }
                    }
                    if before@.contains_key(j) {
                        let i = choose|i: int| before.node_at(i, j);
                        assert(before.node_at(i, j));
                        if i < a {
                            assert(self.node_at(i, j));
                        } else {
                            assert(self.node_at(i + 1, j));
                        }
                    }
                    if j == k {
                        assert(self.node_at(a, j));
                    }
                }
                assert forall|j: u64| #[trigger] self@.contains_key(j) implies self@[j]
                    == before@.insert(k, endpoint)[j] by {
                    let i = choose|i: int| self.node_at(i, j);
                    assert(self.node_at(i, j));
                    self.lemma_view(i);
                    if i < a {
                        before.lemma_view(i);
                    } else if i > a {
                        assert(self.nodes@[(i - 1) + 1] == before.nodes@[i - 1]);
                        before.lemma_view(i - 1);
                    }
                }
                assert(self@ =~= before@.insert(k, endpoint));
            }
        }
    }

    /// The ring on which each named endpoint has a number of nodes.
    pub fn new(names: &Vec<String>, virtual_nodes: usize) -> (r: Self)
        ensures
            r.well_formed(),
            r@ == ring_of(names@.map_values(|name: String| name@), virtual_nodes as nat),
    {
        let mut r = ConsistentHashRing { nodes: Vec::new() };
        let ghost views = names@.map_values(|name: String| name@);
        assert(r@ =~= ring_of(views.take(0), virtual_nodes as nat)) by {
            assert(forall|i: int, k: u64| !r.node_at(i, k));
        }
        let mut e: usize = 0;
        while e < names.len()
            invariant
                e <= names.len(),
                views == names@.map_values(|name: String| name@),
                r.well_formed(),
                r@ == ring_of(views.take(e as int), virtual_nodes as nat),
            decreases names.len() - e,
        {
            let ghost base = r@;
            let mut i: usize = 0;
            while i < virtual_nodes
                invariant
                    e < names.len(),
                    views == names@.map_values(|name: String| name@),
                    i <= virtual_nodes,
                    r.well_formed(),
                    r@ == with_nodes(base, views[e as int], e, i as nat),
                decreases virtual_nodes - i,
            {
                let mut key: String = text::join(names[e].as_str(), ":");
                key.append(text::to_decimal(i as u64).as_str());
                r.insert(Self::hash(key.as_str()), e);
                i = i + 1;
            }
            proof {
                let upto = views.take(e + 1);
                assert(upto.drop_last() =~= views.take(e as int));
                assert(upto.last() == views[e as int]);
            }
            e = e + 1;
        }
        assert(views.take(names.len() as int) =~= views);
        r
    }

    /// The endpoint of the node that comes first from the place of `key`, of those whose
    /// endpoint is marked.
    pub fn get_endpoint(&self, key: &str, marks: &Vec<bool>) -> (r: Option<usize>)
        requires
            self.well_formed(),
        ensures
            r == owner(self@, marks@, place(key@)),
    {
        let at: u64 = Self::hash(key);
        let n: usize = self.nodes.len();
        let start: usize = self.lower_bound(at);
        let mut i: usize = start;
        while i < n
            invariant
                self.well_formed(),
                start <= i <= n,
                n == self.nodes@.len(),
                at == place(key@),
                forall|j: int| 0 <= j < start ==> (#[trigger] self.nodes@[j]).0 < at,
                forall|j: int| start <= j < n ==> (#[trigger] self.nodes@[j]).0 >= at,
                forall|j: int| start <= j < i ==> !marked(marks@, (#[trigger] self.nodes@[j]).1),
            decreases n - i,
        {
            let e: usize = self.nodes[i].1;
            if e < marks.len() && marks[e] {
                proof {
                    self.lemma_first(marks@, at, start as int, i as int);
                }
                return Some(e);
            }
            i = i + 1;
        }
        let mut i: usize = 0;
        while i < start
            invariant
                self.well_formed(),
                i <= start <= n,
                n == self.nodes@.len(),
                at == place(key@),
                forall|j: int| 0 <= j < start ==> (#[trigger] self.nodes@[j]).0 < at,
                forall|j: int| start <= j < n ==> (#[trigger] self.nodes@[j]).0 >= at,
                forall|j: int| start <= j < n ==> !marked(marks@, (#[trigger] self.nodes@[j]).1),
                forall|j: int| 0 <= j < i ==> !marked(marks@, (#[trigger] self.nodes@[j]).1),
            decreases start - i,
        {
            let e: usize = self.nodes[i].1;
            if e < marks.len() && marks[e] {
                proof {
                    self.lemma_first(marks@, at, start as int, i as int);
                }
                return Some(e);
            }
            i = i + 1;
        }
        proof {
            assert forall|k: u64| !comes_first(self@, marks@, at, k) by {
                if comes_first(self@, marks@, at, k) {
                    let j = choose|j: int| self.node_at(j, k);
                    assert(self.node_at(j, k));
                    self.lemma_view(j);
                }
            }
        }
        None
    }

    /// The first marked node, going up from `start` and round, is the owner's.
    proof fn lemma_first(&self, marks: Seq<bool>, at: u64, start: int, p: int)
        requires
            self.well_formed(),
            0 <= start <= self.nodes@.len(),
            0 <= p < self.nodes@.len(),
            marked(marks, self.nodes@[p].1),
            forall|j: int| 0 <= j < start ==> (#[trigger] self.nodes@[j]).0 < at,
            forall|j: int| start <= j < self.nodes@.len() ==> (#[trigger] self.nodes@[j]).0 >= at,
            p >= start ==> forall|j: int| start <= j < p ==> !marked(marks, (#[trigger] self.nodes@[j]).1),
            p < start ==> forall|j: int|
                start <= j < self.nodes@.len() || 0 <= j < p ==> !marked(marks, (#[trigger] self.nodes@[j]).1),
        ensures
            owner(self@, marks, at) == Some(self.nodes@[p].1),
    {
        let k = self.nodes@[p].0;
        self.lemma_view(p);
        assert forall|j: u64| #[trigger] self@.contains_key(j) && marked(marks, self@[j]) implies way(at, k)
            <= way(at, j) by {
            let i = choose|i: int| self.node_at(i, j);
            assert(self.node_at(i, j));
            self.lemma_view(i);
        }
        assert(comes_first(self@, marks, at, k));
        let c = choose|c: u64| comes_first(self@, marks, at, c);
        assert(comes_first(self@, marks, at, c));
        assert(way(at, c) == way(at, k));
        assert(c == k);
    }

    fn hash(key: &str) -> (r: u64)
        ensures
            r == place(key@),
    {
        let mut hasher: DefaultHasher = DefaultHasher::new();
        hash_text(key, &mut hasher);
        assert(hasher@ =~= hash_writes(key@));
        hasher.finish()
    }
}

/// With one more endpoint on the ring, a place falls to the new endpoint or to the one it
/// fell to before.
pub proof fn growth_moves_places_to_the_new_endpoint_only(
    names: Seq<Seq<char>>,
    name: Seq<char>,
    marks: Seq<bool>,
    nodes: nat,
    at: u64,
)
    requires
        names.len() < usize::MAX,
        marks.len() == names.len(),
    ensures
        ({
            let before = owner(ring_of(names, nodes), marks, at);
            let after = owner(ring_of(names.push(name), nodes), marks.push(true), at);
            after == before || after == Some(names.len() as usize)
        }),
{
    let old_ring = ring_of(names, nodes);
    let new_ring = ring_of(names.push(name), nodes);
    let new_marks = marks.push(true);
    let fresh = names.len() as usize;
    assert(names.push(name).drop_last() =~= names);
    lemma_with_nodes(old_ring, name, fresh, nodes);
    if exists|k: u64| comes_first(new_ring, new_marks, at, k) {
        let k = choose|k: u64| comes_first(new_ring, new_marks, at, k);
        assert(comes_first(new_ring, new_marks, at, k));
        if new_ring[k] != fresh {
            assert forall|j: u64| #[trigger] old_ring.contains_key(j) && marked(
                marks,
                old_ring[j],
            ) implies way(at, k) <= way(at, j) by {
                assert(new_ring.contains_key(j));
            }
            assert(comes_first(old_ring, marks, at, k));
            let c = choose|c: u64| comes_first(old_ring, marks, at, c);
            assert(comes_first(old_ring, marks, at, c));
            assert(way(at, c) == way(at, k));
            assert(c == k);
        }
    } else if exists|k: u64| comes_first(old_ring, marks, at, k) {
        let k = choose|k: u64| comes_first(old_ring, marks, at, k);
        assert(comes_first(old_ring, marks, at, k));
        assert(new_ring.contains_key(k));
        lemma_some_node_comes_first(new_ring, new_marks, at, k, way(at, k) as nat);
    }
}

proof fn lemma_with_nodes(ring: Map<u64, usize>, name: Seq<char>, endpoint: usize, nodes: nat)
    ensures
        forall|k: u64| #[trigger]
            with_nodes(ring, name, endpoint, nodes).contains_key(k) ==> with_nodes(
                ring,
                name,
                endpoint,
                nodes,
            )[k] == endpoint || (ring.contains_key(k) && ring[k] == with_nodes(
                ring,
                name,
                endpoint,
                nodes,
            )[k]),
        forall|k: u64| #[trigger]
            ring.contains_key(k) ==> with_nodes(ring, name, endpoint, nodes).contains_key(k),
    decreases nodes,
{
    if nodes > 0 {
        lemma_with_nodes(ring, name, endpoint, (nodes - 1) as nat);
        let less = with_nodes(ring, name, endpoint, (nodes - 1) as nat);
        assert forall|k: u64| #[trigger]
            with_nodes(ring, name, endpoint, nodes).contains_key(k) implies with_nodes(
            ring,
            name,
            endpoint,
            nodes,
        )[k] == endpoint || (ring.contains_key(k) && ring[k] == with_nodes(
            ring,
            name,
            endpoint,
            nodes,
        )[k]) by {
            assert(less.contains_key(k) || with_nodes(ring, name, endpoint, nodes)[k] == endpoint);
        }
    }
}

/// A ring with a marked node has a first one from every place.
proof fn lemma_some_node_comes_first(
    ring: Map<u64, usize>,
    marks: Seq<bool>,
    at: u64,
    k: u64,
    d: nat,
)
    requires
        ring.contains_key(k),
        marked(marks, ring[k]),
        way(at, k) <= d,
    ensures
        exists|c: u64| comes_first(ring, marks, at, c),
    decreases d,
{
    if !comes_first(ring, marks, at, k) {
        let j = choose|j: u64| #[trigger]
            ring.contains_key(j) && marked(marks, ring[j]) && way(at, j) < way(at, k);
        lemma_some_node_comes_first(ring, marks, at, j, way(at, j) as nat);
    }
}

/// A place has an owner exactly if some node's endpoint is marked, and the owner is marked.
pub proof fn owners_are_marked(ring: Map<u64, usize>, marks: Seq<bool>, at: u64)
    ensures
        owner(ring, marks, at) is Some <==> exists|k: u64| #[trigger]
            ring.contains_key(k) && marked(marks, ring[k]),
        owner(ring, marks, at) matches Some(e) ==> marked(marks, e),
{
    if exists|k: u64| #[trigger] ring.contains_key(k) && marked(marks, ring[k]) {
        let k = choose|k: u64| #[trigger] ring.contains_key(k) && marked(marks, ring[k]);
        lemma_some_node_comes_first(ring, marks, at, k, way(at, k) as nat);
    }
}

/// Some node of the named endpoint has this place.
pub open spec fn has_node(name: Seq<char>, nodes: nat, k: u64) -> bool {
    exists|number: nat| number < nodes && #[trigger] node(name, number) == k
}

/// No two endpoints have nodes of the same place.
pub open spec fn apart(names: Seq<Seq<char>>, nodes: nat) -> bool {
    forall|i: int, j: int, k: u64|
        0 <= i < names.len() && 0 <= j < names.len() && #[trigger] has_node(names[i], nodes, k)
            && #[trigger] has_node(names[j], nodes, k) ==> i == j
}

proof fn lemma_nodes_put_in(
    ring: Map<u64, usize>,
    name: Seq<char>,
    endpoint: usize,
    nodes: nat,
    k: u64,
)
    ensures
        with_nodes(ring, name, endpoint, nodes).contains_key(k) == (has_node(name, nodes, k)
            || ring.contains_key(k)),
        has_node(name, nodes, k) ==> with_nodes(ring, name, endpoint, nodes)[k] == endpoint,
        !has_node(name, nodes, k) && ring.contains_key(k) ==> with_nodes(
            ring,
            name,
            endpoint,
            nodes,
        )[k] == ring[k],
    decreases nodes,
{
    if nodes > 0 {
        let less = (nodes - 1) as nat;
        lemma_nodes_put_in(ring, name, endpoint, less, k);
        if has_node(name, less, k) {
            let number = choose|number: nat| number < less && #[trigger] node(name, number) == k;
            assert(number < nodes && node(name, number) == k);
        }
        if has_node(name, nodes, k) {
            let number = choose|number: nat| number < nodes && #[trigger] node(name, number) == k;
            if number < less {
                assert(has_node(name, less, k));
            }
        }
        if node(name, less) == k {
            assert(has_node(name, nodes, k));
        }
    }
}

/// What stands on a ring: the nodes of its endpoints, each for the last endpoint that has it.
pub(crate) proof fn lemma_ring_of(names: Seq<Seq<char>>, nodes: nat, k: u64)
    requires
        names.len() <= usize::MAX,
    ensures
        ring_of(names, nodes).contains_key(k) ==> ring_of(names, nodes)[k] < names.len()
            && has_node(names[ring_of(names, nodes)[k] as int], nodes, k),
        forall|i: int|
            0 <= i < names.len() && has_node(#[trigger] names[i], nodes, k) ==> ring_of(
                names,
                nodes,
            ).contains_key(k),
    decreases names.len(),
{
    if names.len() > 0 {
        let less = names.drop_last();
        lemma_ring_of(less, nodes, k);
        lemma_nodes_put_in(
            ring_of(less, nodes),
            names.last(),
            (names.len() - 1) as usize,
            nodes,
            k,
        );
        assert forall|i: int|
            0 <= i < names.len() && has_node(#[trigger] names[i], nodes, k) implies ring_of(
            names,
            nodes,
        ).contains_key(k) by {
            if i < less.len() {
                assert(less[i] == names[i]);
            }
        }
    }
}

/// The position that an endpoint has once another one is taken out.
pub open spec fn position_without(taken: int, e: usize) -> usize {
    if e < taken {
        e
    } else {
        (e - 1) as usize
    }
}

proof fn lemma_ring_without(names: Seq<Seq<char>>, nodes: nat, taken: int, k: u64)
    requires
        names.len() <= usize::MAX,
        0 <= taken < names.len(),
        apart(names, nodes),
    ensures
        ({
            let ring = ring_of(names, nodes);
            let rest = ring_of(names.remove(taken), nodes);
            &&& rest.contains_key(k) == (ring.contains_key(k) && ring[k] != taken)
            &&& ring.contains_key(k) ==> ring[k] < names.len()
            &&& rest.contains_key(k) ==> rest[k] == position_without(taken, ring[k])
        }),
{
    let ring = ring_of(names, nodes);
    let fewer = names.remove(taken);
    let rest = ring_of(fewer, nodes);
    lemma_ring_of(names, nodes, k);
    lemma_ring_of(fewer, nodes, k);
    if rest.contains_key(k) {
        let e = rest[k] as int;
        let was = if e < taken {
            e
        } else {
            e + 1
        };
        assert(fewer[e] == names[was]);
        assert(has_node(names[was], nodes, k));
        assert(has_node(names[ring[k] as int], nodes, k));
    }
    if ring.contains_key(k) && ring[k] != taken {
        let e = ring[k] as int;
        assert(fewer[position_without(taken, ring[k]) as int] == names[e]);
    }
}

/// Without one of its endpoints, wherever that stood, a ring gives every place that was not
/// that endpoint's to the same endpoint as before, as long as no two endpoints have nodes of
/// the same place.
pub proof fn removal_moves_the_places_of_the_endpoint_only(
    names: Seq<Seq<char>>,
    marks: Seq<bool>,
    nodes: nat,
    taken: int,
    at: u64,
)
    requires
        names.len() <= usize::MAX,
        marks.len() == names.len(),
        0 <= taken < names.len(),
        apart(names, nodes),
    ensures
        owner(ring_of(names, nodes), marks, at) matches Some(e) ==> e < names.len() && (e != taken
            ==> names.remove(taken)[position_without(taken, e) as int] == names[e as int] && owner(
            ring_of(names.remove(taken), nodes),
            marks.remove(taken),
            at,
        ) == Some(position_without(taken, e))),
        owner(ring_of(names, nodes), marks, at) is None ==> owner(
            ring_of(names.remove(taken), nodes),
            marks.remove(taken),
            at,
        ) is None,
{
    let ring = ring_of(names, nodes);
    let rest = ring_of(names.remove(taken), nodes);
    let left = marks.remove(taken);
    assert forall|k: u64| true implies #[trigger] rest.contains_key(k) == (ring.contains_key(k)
        && ring[k] != taken) && (ring.contains_key(k) ==> ring[k] < names.len()) && (
    rest.contains_key(k) ==> rest[k] == position_without(taken, ring[k]) && marked(left, rest[k])
        == marked(marks, ring[k])) by {
        lemma_ring_without(names, nodes, taken, k);
    }
    owners_are_marked(ring, marks, at);
    owners_are_marked(rest, left, at);
    if owner(ring, marks, at) is Some {
        let k = choose|k: u64| comes_first(ring, marks, at, k);
        assert(comes_first(ring, marks, at, k));
        assert(rest.contains_key(k) == (ring[k] != taken));
        if ring[k] != taken {
            assert forall|j: u64| #[trigger] rest.contains_key(j) && marked(
                left,
                rest[j],
            ) implies way(at, k) <= way(at, j) by {
                assert(ring.contains_key(j));
            }
            assert(comes_first(rest, left, at, k));
            let c = choose|c: u64| comes_first(rest, left, at, c);
            assert(comes_first(rest, left, at, c));
            assert(way(at, c) == way(at, k));
            assert(c == k);
        }
    } else if owner(rest, left, at) is Some {
        let k = choose|k: u64| comes_first(rest, left, at, k);
        assert(comes_first(rest, left, at, k));
        assert(ring.contains_key(k));
    }
}

/// Where every endpoint is marked, a ring gives a place to one of them exactly if there are
/// endpoints and each of them has nodes.
pub proof fn a_ring_with_nodes_gives_every_place_away(
    names: Seq<Seq<char>>,
    marks: Seq<bool>,
    nodes: nat,
    at: u64,
)
    requires
        names.len() <= usize::MAX,
        marks.len() == names.len(),
        forall|i: int| 0 <= i < marks.len() ==> marks[i],
    ensures
        owner(ring_of(names, nodes), marks, at) is None <==> names.len() == 0 || nodes == 0,
        owner(ring_of(names, nodes), marks, at) matches Some(e) ==> e < names.len(),
{
    let ring = ring_of(names, nodes);
    owners_are_marked(ring, marks, at);
    if names.len() > 0 && nodes > 0 {
        let k = node(names[0], 0);
        assert(has_node(names[0], nodes, k));
        lemma_ring_of(names, nodes, k);
        assert(ring.contains_key(k) && marked(marks, ring[k]));
    }
    if owner(ring, marks, at) is Some {
        let k = choose|k: u64| #[trigger] ring.contains_key(k) && marked(marks, ring[k]);
        lemma_ring_of(names, nodes, k);
        let number = choose|number: nat|
            number < nodes && #[trigger] node(names[ring[k] as int], number) == k;
        assert(number < nodes);
    }
}

/// A marked node with the lowest place of those that are not below `from`.
pub open spec fn is_next(ring: Map<u64, usize>, marks: Seq<bool>, from: u64, k: u64) -> bool {
    &&& ring.contains_key(k)
    &&& marked(marks, ring[k])
    &&& from <= k
    &&& forall|j: u64| #[trigger]
        ring.contains_key(j) && marked(marks, ring[j]) && from <= j ==> k <= j
}

/// A place falls to the endpoint of the next marked node; where none follows, to that of the
/// lowest marked node of all.
pub proof fn the_next_node_owns_a_place(ring: Map<u64, usize>, marks: Seq<bool>, at: u64, k: u64)
    ensures
        is_next(ring, marks, at, k) ==> owner(ring, marks, at) == Some(ring[k]),
        is_next(ring, marks, 0, k) && k < at && (forall|j: u64| #[trigger]
            ring.contains_key(j) && marked(marks, ring[j]) ==> j < at) ==> owner(ring, marks, at)
            == Some(ring[k]),
{
    if comes_first(ring, marks, at, k) {
        let c = choose|c: u64| comes_first(ring, marks, at, c);
        assert(comes_first(ring, marks, at, c));
        assert(way(at, c) == way(at, k));
        assert(c == k);
    }
}

} // verus!
