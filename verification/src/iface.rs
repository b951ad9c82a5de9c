//! The interface: owns the loopback device, the route table and the
//! neighbor cache, and drives one poll cycle over a collection of sockets.
//!
//! A cycle drains the device and dispatches the pending frame to the first
//! socket bound to its destination, then pops one outbound datagram per
//! socket, routes it and writes it to the device, and finally drains once
//! more so a datagram sent to a local listener arrives within the same
//! `poll` call. Per-packet failures are counted and reported, never fatal.

use vstd::prelude::*;
use crate::device::{Loopback, Medium, LOOPBACK_MTU};
use crate::neighbor::NeighborCache;
use crate::route::RouteTable;
use crate::socket::{Endpoint, Socket};
use crate::wire::{frame_datagram, parse_datagram, spec_frame, spec_parse, MAX_PAYLOAD};

verus! {

/// An externally advanced monotonic time reference. The core never reads a
/// wall clock: the host passes the current instant to each `poll` call,
/// which keeps every cycle deterministic.
#[derive(Clone, Copy, PartialEq, Eq, Structural, Debug)]
pub struct Instant {
    pub millis: u64,
}

/// The non-fatal summary of one poll cycle in which at least one datagram
/// was dropped. The cycle itself always completes.
#[derive(Clone, Copy, PartialEq, Eq, Structural, Debug)]
pub enum PollError {
    /// How many datagrams this cycle dropped: unparseable frames, egress
    /// datagrams with no route, and arrivals that found a full inbound ring.
    Dropped { malformed: u64, no_route: u64, rx_full: u64 },
}

/// The index, at or after `i`, of the first socket bound to `dst`.
pub open spec fn spec_first_listener_from(s: Seq<Socket>, dst: Endpoint, i: int) -> Option<int>
    decreases s.len() - i,
{
    if i < 0 || i >= s.len() {
        None
    } else if s[i].endpoint() == Some(dst) {
        Some(i)
    } else {
        spec_first_listener_from(s, dst, i + 1)
    }
}

/// The socket a frame for `dst` is dispatched to: the first one, in the
/// collection's order, bound to exactly that endpoint.
pub open spec fn spec_first_listener(s: Seq<Socket>, dst: Endpoint) -> Option<int> {
    spec_first_listener_from(s, dst, 0)
}

/// Whether the egress step writes a frame for socket `i`: it has an
/// outbound datagram and the route table can route its destination.
pub open spec fn spec_emits(s: Seq<Socket>, rt: RouteTable, i: int) -> bool {
    0 <= i < s.len() && s[i].outbound().len() > 0 && rt.spec_has_route(s[i].outbound()[0].1.addr)
}

/// The bound endpoint of socket `i`, defaulting to a zero endpoint. Egress
/// only uses it for sockets with queued data, which are always bound.
pub open spec fn spec_local_endpoint(s: Seq<Socket>, i: int) -> Endpoint {
    match s[i].endpoint() {
        Some(e) => e,
        None => Endpoint { addr: 0, port: 0 },
    }
}

/// The frame egress writes for socket `i`'s oldest outbound datagram.
pub open spec fn spec_frame_of(s: Seq<Socket>, i: int) -> Seq<u8> {
    spec_frame(spec_local_endpoint(s, i), s[i].outbound()[0].1, s[i].outbound()[0].0)
}

/// The last index below `i` that emits a frame: with a single-slot device
/// its frame is the one left pending after the egress step.
pub open spec fn spec_last_emitter_before(s: Seq<Socket>, rt: RouteTable, i: int) -> Option<int>
    decreases i,
{
    if i <= 0 {
        None
    } else if spec_emits(s, rt, i - 1) {
        Some(i - 1)
    } else {
        spec_last_emitter_before(s, rt, i - 1)
    }
}

/// How many sockets at or after `i` have an outbound datagram whose
/// destination the route table cannot route: each such datagram is popped
/// and dropped by the egress step.
pub open spec fn spec_unroutable_from(s: Seq<Socket>, rt: RouteTable, i: int) -> int
    decreases s.len() - i,
{
    if i < 0 || i >= s.len() {
        0
    } else {
        (if s[i].outbound().len() > 0 && !rt.spec_has_route(s[i].outbound()[0].1.addr) {
            1int
        } else {
            0int
        }) + spec_unroutable_from(s, rt, i + 1)
    }
}

/// The socket the frame `f` is dispatched to: the first listener bound to
/// the frame's destination, or nobody when the frame does not parse.
pub open spec fn spec_ingress_target(s: Seq<Socket>, f: Seq<u8>) -> Option<int> {
    match spec_parse(f) {
        Some(t) => spec_first_listener(s, t.1),
        None => None,
    }
}

/// The datagram the frame `f` carries, as (payload, source endpoint).
pub open spec fn spec_ingress_datagram(f: Seq<u8>) -> (Seq<u8>, Endpoint) {
    match spec_parse(f) {
        Some(t) => (t.2, t.0),
        None => (Seq::<u8>::empty(), Endpoint { addr: 0, port: 0 }),
    }
}

/// The frame the egress step leaves pending on the single-slot device:
/// the last emitter's, or the empty sequence when nothing emits.
pub open spec fn spec_egress_frame(s: Seq<Socket>, rt: RouteTable) -> Seq<u8> {
    match spec_last_emitter_before(s, rt, s.len() as int) {
        Some(k) => spec_frame_of(s, k),
        None => Seq::<u8>::empty(),
    }
}

/// Whether the first drain of a cycle delivers the pending frame `f` into
/// socket `i`'s inbound ring: `i` is its first listener and has room.
pub open spec fn spec_delivers1(s: Seq<Socket>, f: Seq<u8>, i: int) -> bool {
    spec_ingress_target(s, f) == Some(i) && s[i].inbound().len() < s[i].inbound_capacity()
}

/// Whether the first drain drops the pending frame `f` at socket `i`'s
/// full inbound ring.
pub open spec fn spec_full1(s: Seq<Socket>, f: Seq<u8>, i: int) -> bool {
    spec_ingress_target(s, f) == Some(i) && s[i].inbound().len() >= s[i].inbound_capacity()
}

/// Socket `i`'s inbound ring between the cycle's first drain and its
/// second: the old ring, plus the pending frame's datagram if delivered.
pub open spec fn spec_mid_inbound(s: Seq<Socket>, f: Seq<u8>, i: int) -> Seq<(Seq<u8>, Endpoint)> {
    if spec_delivers1(s, f, i) {
        s[i].inbound().push(spec_ingress_datagram(f))
    } else {
        s[i].inbound()
    }
}

/// Whether the second drain delivers the egressed frame into socket `i`.
pub open spec fn spec_delivers2(s: Seq<Socket>, rt: RouteTable, f: Seq<u8>, i: int) -> bool {
    spec_ingress_target(s, spec_egress_frame(s, rt)) == Some(i) && spec_mid_inbound(s, f, i).len()
        < s[i].inbound_capacity()
}

/// Whether the second drain drops the egressed frame at socket `i`'s full
/// inbound ring.
pub open spec fn spec_full2(s: Seq<Socket>, rt: RouteTable, f: Seq<u8>, i: int) -> bool {
    spec_ingress_target(s, spec_egress_frame(s, rt)) == Some(i) && spec_mid_inbound(s, f, i).len()
        >= s[i].inbound_capacity()
}

/// Socket `i`'s inbound ring after one whole poll cycle over the old
/// state: the pending frame's datagram and then the egressed frame's
/// datagram, each appended exactly where it finds its first listener with
/// room.
pub open spec fn spec_final_inbound(s: Seq<Socket>, rt: RouteTable, f: Seq<u8>, i: int) -> Seq<
    (Seq<u8>, Endpoint),
> {
    if spec_delivers2(s, rt, f, i) {
        spec_mid_inbound(s, f, i).push(spec_ingress_datagram(spec_egress_frame(s, rt)))
    } else {
        spec_mid_inbound(s, f, i)
    }
}

/// Socket `i`'s drop counter after one poll cycle: one saturating
/// increment for each arrival that found its ring full.
pub open spec fn spec_dropped_after(s: Seq<Socket>, rt: RouteTable, f: Seq<u8>, i: int) -> u64 {
    let inc = (if spec_full1(s, f, i) {
        1int
    } else {
        0int
    }) + (if spec_full2(s, rt, f, i) {
        1int
    } else {
        0int
    });
    if s[i].dropped() + inc > u64::MAX {
        u64::MAX
    } else {
        (s[i].dropped() + inc) as u64
    }
}

/// How many arrivals of one poll cycle find a full inbound ring.
pub open spec fn spec_rx_full_count(s: Seq<Socket>, rt: RouteTable, f: Seq<u8>) -> int {
    (match spec_ingress_target(s, f) {
        Some(j) => if spec_full1(s, f, j) {
            1int
        } else {
            0int
        },
        None => 0int,
    }) + (match spec_ingress_target(s, spec_egress_frame(s, rt)) {
        Some(j) => if spec_full2(s, rt, f, j) {
            1int
        } else {
            0int
        },
        None => 0int,
    })
}

/// The first listener only looks at the bound endpoints, so it is the
/// same over two socket collections whose bindings agree.
proof fn lemma_first_listener_congruent(a: Seq<Socket>, b: Seq<Socket>, dst: Endpoint, i: int)
    requires
        a.len() == b.len(),
        forall|j: int| 0 <= j < a.len() ==> (#[trigger] a[j]).endpoint() == b[j].endpoint(),
    ensures
        spec_first_listener_from(a, dst, i) == spec_first_listener_from(b, dst, i),
    decreases a.len() - i,
{
    if 0 <= i < a.len() {
        lemma_first_listener_congruent(a, b, dst, i + 1);
    }
}

/// The last emitter only looks at the outbound rings, so it is the same
/// over two socket collections whose outbound rings agree.
proof fn lemma_last_emitter_congruent(a: Seq<Socket>, b: Seq<Socket>, rt: RouteTable, i: int)
    requires
        a.len() == b.len(),
        forall|j: int| 0 <= j < a.len() ==> (#[trigger] a[j]).outbound() == b[j].outbound(),
    ensures
        spec_last_emitter_before(a, rt, i) == spec_last_emitter_before(b, rt, i),
    decreases i,
{
    if i > 0 {
        assert(spec_emits(a, rt, i - 1) == spec_emits(b, rt, i - 1));
        if !spec_emits(a, rt, i - 1) {
            lemma_last_emitter_congruent(a, b, rt, i - 1);
        }
    }
}

/// Below `hi`, the last emitter is `j` when `j` emits and nothing after
/// it does.
proof fn lemma_last_emitter_is(s: Seq<Socket>, rt: RouteTable, j: int, hi: int)
    requires
        0 <= j < hi <= s.len(),
        spec_emits(s, rt, j),
        forall|m: int| j < m < hi ==> !spec_emits(s, rt, m),
    ensures
        spec_last_emitter_before(s, rt, hi) == Some(j),
    decreases hi,
{
    if hi > j + 1 {
        lemma_last_emitter_is(s, rt, j, hi - 1);
    }
}

/// From `lo` on, the first listener is `j` when `j` is bound to the
/// destination and nothing before it is.
proof fn lemma_first_listener_is(s: Seq<Socket>, dst: Endpoint, j: int, lo: int)
    requires
        0 <= lo <= j < s.len(),
        s[j].endpoint() == Some(dst),
        forall|i: int| lo <= i < j ==> (#[trigger] s[i]).endpoint() != Some(dst),
    ensures
        spec_first_listener_from(s, dst, lo) == Some(j),
    decreases j - lo,
{
    if lo < j {
        lemma_first_listener_is(s, dst, j, lo + 1);
    }
}

/// Socket round trip, as one law over the poll cycle's model. With an
/// idle device, a socket `j` bound to `ep` whose oldest outbound datagram
/// is `(d, ep)` with a routable destination, no earlier socket bound to
/// `ep`, no socket after `j` that emits, and room in `j`'s inbound ring,
/// one poll cycle appends exactly `(d, ep)` to `j`'s inbound ring — the
/// datagram comes back to its sender, payload and source intact. `poll`
/// ensures every inbound ring equals `spec_final_inbound`, so this pins
/// what `recv` then returns.
pub proof fn lemma_socket_round_trip(
    s: Seq<Socket>,
    rt: RouteTable,
    j: int,
    d: Seq<u8>,
    ep: Endpoint,
)
    requires
        0 <= j < s.len(),
        s[j].endpoint() == Some(ep),
        s[j].outbound().len() > 0,
        s[j].outbound()[0] == (d, ep),
        d.len() <= MAX_PAYLOAD,
        rt.spec_has_route(ep.addr),
        forall|i: int| 0 <= i < j ==> (#[trigger] s[i]).endpoint() != Some(ep),
        forall|i: int| j < i < s.len() ==> !spec_emits(s, rt, i),
        s[j].inbound().len() < s[j].inbound_capacity(),
    ensures
        spec_final_inbound(s, rt, Seq::<u8>::empty(), j) == s[j].inbound().push((d, ep)),
{
    let f0 = Seq::<u8>::empty();
    assert(spec_parse(f0) is None);
    assert(spec_emits(s, rt, j));
    lemma_last_emitter_is(s, rt, j, s.len() as int);
    assert(spec_egress_frame(s, rt) == spec_frame(ep, ep, d));
    crate::wire::lemma_frame_parse_round_trip(ep, ep, d);
    lemma_first_listener_is(s, ep, j, 0);
    assert(spec_mid_inbound(s, f0, j) == s[j].inbound());
    assert(spec_delivers2(s, rt, f0, j));
}

/// A found listener lies in range and is bound to the destination.
proof fn lemma_first_listener_some(s: Seq<Socket>, dst: Endpoint, i: int)
    requires
        spec_first_listener_from(s, dst, i) is Some,
    ensures
        spec_first_listener_from(s, dst, i) matches Some(k) && i <= k < s.len() && s[k].endpoint()
            == Some(dst),
    decreases s.len() - i,
{
    if 0 <= i < s.len() && s[i].endpoint() != Some(dst) {
        lemma_first_listener_some(s, dst, i + 1);
    }
}

/// The last emitter really emits, and lies below `i`.
proof fn lemma_last_emitter_emits(s: Seq<Socket>, rt: RouteTable, i: int)
    requires
        spec_last_emitter_before(s, rt, i) is Some,
    ensures
        spec_last_emitter_before(s, rt, i) matches Some(k) && 0 <= k < i && spec_emits(s, rt, k),
    decreases i,
{
    if i > 0 && !spec_emits(s, rt, i - 1) {
        lemma_last_emitter_emits(s, rt, i - 1);
    }
}

/// The unroutable count only looks at the outbound rings, so it is the
/// same over two socket collections whose outbound rings agree.
proof fn lemma_unroutable_congruent(a: Seq<Socket>, b: Seq<Socket>, rt: RouteTable, i: int)
    requires
        a.len() == b.len(),
        forall|j: int| 0 <= j < a.len() ==> (#[trigger] a[j]).outbound() == b[j].outbound(),
    ensures
        spec_unroutable_from(a, rt, i) == spec_unroutable_from(b, rt, i),
    decreases a.len() - i,
{
    if 0 <= i < a.len() {
        lemma_unroutable_congruent(a, b, rt, i + 1);
    }
}

/// Removing an element and inserting another at the same position is a
/// pointwise update.
proof fn lemma_remove_insert_is_update<A>(s: Seq<A>, j: int, x: A)
    requires
        0 <= j < s.len(),
    ensures
        s.remove(j).insert(j, x) == s.update(j, x),
{
    s.remove_ensures(j);
    s.remove(j).insert_ensures(j, x);
    assert(s.remove(j).insert(j, x) =~= s.update(j, x));
}

/// The orchestrator: owns the device, the route table, the neighbor cache
/// and the current time reference. The socket collection is not owned: it
/// is passed by exclusive reference to each poll call.
pub struct Interface {
    device: Loopback,
    routes: RouteTable,
    neighbors: NeighborCache,
    now: Instant,
}

impl Interface {
    /// The device's pending frame; empty means none.
    pub closed spec fn device_frame(&self) -> Seq<u8> {
        self.device@
    }

    /// The route table.
    pub closed spec fn route_table(&self) -> RouteTable {
        self.routes
    }

    /// The neighbor cache.
    pub closed spec fn neighbor_cache(&self) -> NeighborCache {
        self.neighbors
    }

    /// The time reference of the most recent poll.
    pub closed spec fn time(&self) -> Instant {
        self.now
    }

    /// Well-formedness: the pending frame fits the MTU and the owned
    /// components are themselves well formed.
    pub open spec fn wf(&self) -> bool {
        &&& self.device_frame().len() <= LOOPBACK_MTU
        &&& self.route_table().wf()
        &&& self.neighbor_cache().wf()
    }

    /// Assemble an interface from its parts.
    pub fn new(device: Loopback, routes: RouteTable, neighbors: NeighborCache, now: Instant) -> (ifc:
        Interface)
        requires
            device@.len() <= LOOPBACK_MTU,
            routes.wf(),
            neighbors.wf(),
        ensures
            ifc.device_frame() == device@,
            ifc.route_table() == routes,
            ifc.neighbor_cache() == neighbors,
            ifc.time() == now,
            ifc.wf(),
    {
        Interface { device, routes, neighbors, now }
    }

    /// One drain-and-dispatch step: consume the pending frame, if any, and
    /// deliver its datagram to the first socket bound to its destination.
    /// An unparseable frame, or one that arrives at a full inbound ring, is
    /// dropped and counted; a frame no socket listens on is dropped
    /// silently. Returns `(changed, malformed, rx_full)` for this step.
    pub fn ingress_step(&mut self, sockets: &mut Vec<Socket>) -> (r: (bool, u64, u64))
        requires
            old(self).wf(),
            forall|i: int| 0 <= i < old(sockets)@.len() ==> (#[trigger] old(sockets)@[i]).wf(),
        ensures
            final(self).wf(),
            final(self).route_table() == old(self).route_table(),
            final(self).neighbor_cache() == old(self).neighbor_cache(),
            final(self).time() == old(self).time(),
            final(self).device_frame().len() == 0,
            final(sockets)@.len() == old(sockets)@.len(),
            forall|i: int|
                0 <= i < old(sockets)@.len() ==> (#[trigger] final(sockets)@[i]).wf() && final(sockets)@[i].outbound() == old(sockets)@[i].outbound() && final(sockets)@[i].endpoint()
                    == old(sockets)@[i].endpoint() && final(sockets)@[i].inbound_capacity() == old(sockets)@[i].inbound_capacity() && final(sockets)@[i].outbound_capacity() == old(sockets)@[i].outbound_capacity() && old(sockets)@[i].inbound().is_prefix_of(
                    final(sockets)@[i].inbound(),
                ) && final(sockets)@[i].dropped() >= old(sockets)@[i].dropped() && final(sockets)@[i].inbound().len() <= old(sockets)@[i].inbound().len() + 1,
            r.1 <= 1 && r.2 <= 1,
            spec_parse(old(self).device_frame()) is None ==> (forall|i: int|
                0 <= i < old(sockets)@.len() ==> final(sockets)@[i] == old(sockets)@[i]) && r == (
                false,
                if old(self).device_frame().len() > 0 {
                    1u64
                } else {
                    0u64
                },
                0u64,
            ),
            spec_parse(old(self).device_frame()) matches Some(t) ==> match spec_first_listener(
                old(sockets)@,
                t.1,
            ) {
                None => (forall|i: int|
                    0 <= i < old(sockets)@.len() ==> final(sockets)@[i] == old(sockets)@[i]) && r
                    == (false, 0u64, 0u64),
                Some(j) => (forall|i: int|
                    0 <= i < old(sockets)@.len() && i != j ==> final(sockets)@[i] == old(sockets)@[i]) && (if old(sockets)@[j].inbound().len() < old(sockets)@[j].inbound_capacity() {
                    final(sockets)@[j].inbound() == old(sockets)@[j].inbound().push((t.2, t.0))
                        && final(sockets)@[j].dropped() == old(sockets)@[j].dropped() && r == (
                    true,
                    0u64,
                    0u64,
                )
                } else {
                    final(sockets)@[j].inbound() == old(sockets)@[j].inbound() && final(sockets)@[j].dropped() == (if old(sockets)@[j].dropped() == u64::MAX {
                        u64::MAX
                    } else {
                        (old(sockets)@[j].dropped() + 1) as u64
                    }) && r == (true, 0u64, 1u64)
                }),
            },
    {
        let ghost s0 = sockets@;
        let received = self.device.receive();
        match received {
            None => (false, 0, 0),
            Some((rx, _tx)) => {
                let frame = rx.consume();
                match parse_datagram(&frame) {
                    None => (false, 1, 0),
                    Some((src, dst, payload)) => {
                        match find_listener(sockets, dst) {
                            None => (false, 0, 0),
                            Some(j) => {
                                let mut sock = sockets.remove(j);
                                let accepted = sock.deliver(payload, src);
                                sockets.insert(j, sock);
                                proof {
                                    lemma_remove_insert_is_update(s0, j as int, sock);
                                    assert(sockets@ == s0.update(j as int, sock));
                                    assert(s0[j as int].inbound().is_prefix_of(
                                        sockets@[j as int].inbound(),
                                    )) by {
                                        if s0[j as int].inbound().len() < s0[
                                            j as int].inbound_capacity() {
                                            assert(s0[j as int].inbound() =~= sockets@[
                                                j as int].inbound().subrange(
                                                0,
                                                s0[j as int].inbound().len() as int,
                                            ));
                                        }
                                    }
                                }
                                if accepted {
                                    (true, 0, 0)
                                } else {
                                    (true, 0, 1)
                                }
                            },
                        }
                    },
                }
            },
        }
    }

    /// One egress step: pop at most one outbound datagram from each socket,
    /// in the collection's order, look its destination up in the route
    /// table, and write the framed datagram to the device. The loopback
    /// medium is pure IP, so neighbor resolution is bypassed. A datagram
    /// with no route is dropped and counted. On the single-slot device a
    /// later frame overwrites an earlier one that was not drained in
    /// between. Returns `(changed, no_route)` for this step.
    pub fn egress_step(&mut self, sockets: &mut Vec<Socket>) -> (r: (bool, u64))
        requires
            old(self).wf(),
            forall|i: int| 0 <= i < old(sockets)@.len() ==> (#[trigger] old(sockets)@[i]).wf(),
        ensures
            final(self).wf(),
            final(self).route_table() == old(self).route_table(),
            final(self).neighbor_cache() == old(self).neighbor_cache(),
            final(self).time() == old(self).time(),
            final(sockets)@.len() == old(sockets)@.len(),
            forall|i: int|
                0 <= i < old(sockets)@.len() ==> (#[trigger] final(sockets)@[i]).wf() && final(sockets)@[i].inbound() == old(sockets)@[i].inbound() && final(sockets)@[i].dropped() == old(sockets)@[i].dropped() && final(sockets)@[i].endpoint() == old(sockets)@[i].endpoint()
                    && final(sockets)@[i].inbound_capacity() == old(sockets)@[i].inbound_capacity()
                    && final(sockets)@[i].outbound_capacity() == old(sockets)@[i].outbound_capacity()
                    && final(sockets)@[i].outbound() == (if old(sockets)@[i].outbound().len() > 0 {
                    old(sockets)@[i].outbound().drop_first()
                } else {
                    old(sockets)@[i].outbound()
                }),
            r.0 == exists|i: int|
                0 <= i < old(sockets)@.len() && (#[trigger] old(sockets)@[i]).outbound().len() > 0,
            r.1 == spec_unroutable_from(old(sockets)@, old(self).route_table(), 0),
            match spec_last_emitter_before(
                old(sockets)@,
                old(self).route_table(),
                old(sockets)@.len() as int,
            ) {
                None => final(self).device_frame() == old(self).device_frame(),
                Some(k) => final(self).device_frame() == spec_frame_of(old(sockets)@, k),
            },
    {
        let ghost s0 = sockets@;
        let ghost rt0 = self.routes;
        let ghost dev0 = self.device@;
        let mut changed: bool = false;
        let mut no_route: u64 = 0;
        let mut i: usize = 0;
        while i < sockets.len()
            invariant
                old(self).wf(),
                s0.len() == sockets@.len(),
                i <= s0.len(),
                self.route_table() == rt0,
                rt0 == old(self).route_table(),
                self.neighbor_cache() == old(self).neighbor_cache(),
                self.time() == old(self).time(),
                self.wf(),
                forall|j: int| i <= j < s0.len() ==> sockets@[j] == s0[j],
                forall|j: int| 0 <= j < s0.len() ==> (#[trigger] s0[j]).wf(),
                forall|j: int| 0 <= j < s0.len() ==> (#[trigger] sockets@[j]).wf(),
                forall|j: int|
                    0 <= j < i ==> (#[trigger] sockets@[j]).inbound() == s0[j].inbound()
                        && sockets@[j].dropped() == s0[j].dropped() && sockets@[j].endpoint()
                        == s0[j].endpoint() && sockets@[j].inbound_capacity()
                        == s0[j].inbound_capacity() && sockets@[j].outbound_capacity()
                        == s0[j].outbound_capacity() && sockets@[j].outbound() == (if s0[
                        j].outbound().len() > 0 {
                        s0[j].outbound().drop_first()
                    } else {
                        s0[j].outbound()
                    }),
                changed == exists|j: int|
                    0 <= j < i && (#[trigger] s0[j]).outbound().len() > 0,
                no_route + spec_unroutable_from(s0, rt0, i as int) == spec_unroutable_from(
                    s0,
                    rt0,
                    0,
                ),
                no_route <= i,
                match spec_last_emitter_before(s0, rt0, i as int) {
                    None => self.device_frame() == dev0,
                    Some(k) => 0 <= k < i && self.device_frame() == spec_frame_of(s0, k),
                },
            decreases s0.len() - i,
        {
            let ghost cur = sockets@;
            let mut sock = sockets.remove(i);
            let ep_opt = sock.local_endpoint();
            let popped = sock.pop_outbound();
            match popped {
                None => {
                    proof {
                        assert(spec_unroutable_from(s0, rt0, i as int) == spec_unroutable_from(
                            s0,
                            rt0,
                            i + 1,
                        ));
                        assert(spec_last_emitter_before(s0, rt0, i + 1)
                            == spec_last_emitter_before(s0, rt0, i as int));
                    }
                },
                Some(dg) => {
                    changed = true;
                    let routed = self.routes.lookup(dg.endpoint.addr);
                    match routed {
                        Ok(next_hop) => {
                            let caps = self.device.capabilities();
                            if caps.medium == Medium::Ethernet {
                                let _ = self.neighbors.lookup_and_touch(next_hop);
                            }
                            proof {
                                assert(ep_opt is Some);
                            }
                            let src = match ep_opt {
                                Some(e) => e,
                                None => Endpoint { addr: 0, port: 0 },
                            };
                            let frame = frame_datagram(src, dg.endpoint, &dg.payload);
                            let token = self.device.transmit();
                            match token {
                                Some(tok) => {
                                    tok.consume(&mut self.device, &frame);
                                },
                                None => {},
                            }
                            proof {
                                assert(spec_emits(s0, rt0, i as int));
                                assert(spec_last_emitter_before(s0, rt0, i + 1) == Some(
                                    i as int,
                                ));
                                assert(self.device_frame() == spec_frame_of(s0, i as int));
                                assert(spec_unroutable_from(s0, rt0, i as int)
                                    == spec_unroutable_from(s0, rt0, i + 1));
                            }
                        },
                        Err(_e) => {
                            no_route = no_route + 1;
                            proof {
                                assert(!rt0.spec_has_route(s0[i as int].outbound()[0].1.addr));
                                assert(!spec_emits(s0, rt0, i as int));
                                assert(spec_last_emitter_before(s0, rt0, i + 1)
                                    == spec_last_emitter_before(s0, rt0, i as int));
                                assert(spec_unroutable_from(s0, rt0, i as int) == 1
                                    + spec_unroutable_from(s0, rt0, i + 1));
                            }
                        },
                    }
                },
            }
            sockets.insert(i, sock);
            proof {
                lemma_remove_insert_is_update(cur, i as int, sock);
                assert(sockets@ == cur.update(i as int, sock));
            }
            i = i + 1;
        }
        proof {
            assert(spec_unroutable_from(s0, rt0, s0.len() as int) == 0);
        }
        (changed, no_route)
    }

    /// One poll cycle, the only entry point driving packet processing:
    /// drain and dispatch the pending frame, pop one outbound datagram per
    /// socket through the route table onto the device, then drain once
    /// more, so a datagram sent to a local listener is delivered within
    /// this very call. Returns `Ok(changed)` — whether any socket state
    /// changed — when nothing was dropped, and the drop summary otherwise;
    /// a partial failure never aborts the cycle.
    pub fn poll(&mut self, sockets: &mut Vec<Socket>, now: Instant) -> (r: Result<
        bool,
        PollError,
    >)
        requires
            old(self).wf(),
            forall|i: int| 0 <= i < old(sockets)@.len() ==> (#[trigger] old(sockets)@[i]).wf(),
        ensures
            final(self).wf(),
            final(self).route_table() == old(self).route_table(),
            final(self).neighbor_cache() == old(self).neighbor_cache(),
            final(self).time() == now,
            final(self).device_frame().len() == 0,
            final(sockets)@.len() == old(sockets)@.len(),
            forall|i: int|
                0 <= i < old(sockets)@.len() ==> (#[trigger] final(sockets)@[i]).wf() && final(sockets)@[i].endpoint() == old(sockets)@[i].endpoint()
                    && final(sockets)@[i].inbound_capacity() == old(sockets)@[i].inbound_capacity()
                    && final(sockets)@[i].outbound_capacity() == old(sockets)@[i].outbound_capacity()
                    && final(sockets)@[i].outbound() == (if old(sockets)@[i].outbound().len() > 0 {
                    old(sockets)@[i].outbound().drop_first()
                } else {
                    old(sockets)@[i].outbound()
                }),
            // dispatch, exactly: each socket's inbound ring gains the pending
            // frame's datagram and then the egressed frame's datagram, each
            // where it finds its first listener with room, and nowhere else;
            // drop counters grow by exactly the arrivals that found no room
            forall|i: int|
                0 <= i < old(sockets)@.len() ==> (#[trigger] final(sockets)@[i]).inbound()
                    == spec_final_inbound(
                    old(sockets)@,
                    old(self).route_table(),
                    old(self).device_frame(),
                    i,
                ) && final(sockets)@[i].dropped() == spec_dropped_after(
                    old(sockets)@,
                    old(self).route_table(),
                    old(self).device_frame(),
                    i,
                ),
            ({
                let deliverable = spec_parse(old(self).device_frame()) matches Some(t)
                    && spec_first_listener(old(sockets)@, t.1) is Some;
                let queued = exists|i: int|
                    0 <= i < old(sockets)@.len() && (#[trigger] old(sockets)@[i]).outbound().len()
                        > 0;
                let bad_frame: u64 = if old(self).device_frame().len() > 0 && spec_parse(
                    old(self).device_frame(),
                ) is None {
                    1u64
                } else {
                    0u64
                };
                let unroutable = spec_unroutable_from(
                    old(sockets)@,
                    old(self).route_table(),
                    0,
                );
                match r {
                    Ok(changed) => changed == (deliverable || queued) && bad_frame == 0
                        && unroutable == 0 && (forall|i: int|
                        0 <= i < old(sockets)@.len() ==> (#[trigger] final(sockets)@[i]).dropped()
                            == old(sockets)@[i].dropped()),
                    Err(e) => e matches PollError::Dropped { malformed, no_route, rx_full }
                        && malformed == bad_frame && no_route == unroutable && rx_full
                        == spec_rx_full_count(
                        old(sockets)@,
                        old(self).route_table(),
                        old(self).device_frame(),
                    ) && malformed + no_route + rx_full > 0,
                }
            }),
            // success is owed: when the pending frame (if any) parses, every
            // queued destination is routable, and every inbound ring has room
            // for the two frames one cycle can deliver, nothing is dropped
            (spec_parse(old(self).device_frame()) is Some || old(self).device_frame().len() == 0)
                && spec_unroutable_from(old(sockets)@, old(self).route_table(), 0) == 0 && (
            forall|i: int|
                0 <= i < old(sockets)@.len() ==> (#[trigger] old(sockets)@[i]).inbound().len() + 2
                    <= old(sockets)@[i].inbound_capacity()) ==> r is Ok,
    {
        let ghost s0 = sockets@;
        let ghost rt = old(self).route_table();
        let ghost f0 = old(self).device_frame();
        let a = self.ingress_step(sockets);
        let ghost s1 = sockets@;
        let b = self.egress_step(sockets);
        let ghost s2 = sockets@;
        proof {
            lemma_unroutable_congruent(s1, s0, rt, 0);
            assert(b.0 == exists|i: int|
                0 <= i < s0.len() && (#[trigger] s0[i]).outbound().len() > 0) by {
                if exists|i: int| 0 <= i < s1.len() && (#[trigger] s1[i]).outbound().len() > 0 {
                    let w = choose|i: int|
                        0 <= i < s1.len() && (#[trigger] s1[i]).outbound().len() > 0;
                    assert(s0[w].outbound().len() > 0);
                }
                if exists|i: int| 0 <= i < s0.len() && (#[trigger] s0[i]).outbound().len() > 0 {
                    let w = choose|i: int|
                        0 <= i < s0.len() && (#[trigger] s0[i]).outbound().len() > 0;
                    assert(s1[w].outbound().len() > 0);
                }
            }
            match spec_last_emitter_before(s1, rt, s1.len() as int) {
                None => {
                    assert(self.device_frame().len() == 0);
                },
                Some(k) => {
                    lemma_last_emitter_emits(s1, rt, s1.len() as int);
                    assert(s1[k].outbound()[0].0.len() <= MAX_PAYLOAD);
                    crate::wire::lemma_frame_parse_round_trip(
                        spec_local_endpoint(s1, k),
                        s1[k].outbound()[0].1,
                        s1[k].outbound()[0].0,
                    );
                },
            }
        }
        let ghost dev2 = self.device_frame();
        let c = self.ingress_step(sockets);
        self.now = now;
        proof {
            // under the success hypotheses nothing can be dropped
            if (spec_parse(f0) is Some || f0.len() == 0) && spec_unroutable_from(s0, rt, 0) == 0
                && (forall|i: int|
                0 <= i < s0.len() ==> (#[trigger] s0[i]).inbound().len() + 2
                    <= s0[i].inbound_capacity()) {
                assert(a.1 == 0 && a.2 == 0) by {
                    match spec_parse(f0) {
                        Some(t) => {
                            match spec_first_listener(s0, t.1) {
                                Some(j) => {
                                    lemma_first_listener_some(s0, t.1, 0);
                                    assert(s0[j].inbound().len() < s0[j].inbound_capacity());
                                },
                                None => {},
                            }
                        },
                        None => {},
                    }
                }
                assert(c.2 == 0) by {
                    match spec_parse(dev2) {
                        Some(t2) => {
                            match spec_first_listener(s2, t2.1) {
                                Some(j2) => {
                                    lemma_first_listener_some(s2, t2.1, 0);
                                    assert(s2[j2].inbound() == s1[j2].inbound());
                                    assert(s1[j2].inbound().len() <= s0[j2].inbound().len() + 1);
                                    assert(s2[j2].inbound().len() < s2[j2].inbound_capacity());
                                },
                                None => {},
                            }
                        },
                        None => {},
                    }
                }
            }
        }
        proof {
            // the frame the second drain sees always parses, so it never counts
            // as malformed
            assert(c.1 == 0);
            // pin the outbound rings: the drains leave them alone
            assert forall|i: int| 0 <= i < s0.len() implies (#[trigger] final(sockets)@[i]).outbound() == (if s0[i].outbound().len() > 0 {
                s0[i].outbound().drop_first()
            } else {
                s0[i].outbound()
            }) by {
                assert(s1[i].outbound() == s0[i].outbound());
                assert(final(sockets)@[i].outbound() == s2[i].outbound());
            }
            // what the first drain did, stated over the old state
            assert forall|i: int| 0 <= i < s0.len() implies (#[trigger] s1[i]).inbound()
                == spec_mid_inbound(s0, f0, i) && s1[i].dropped() == (if spec_full1(s0, f0, i) {
                if s0[i].dropped() == u64::MAX {
                    u64::MAX
                } else {
                    (s0[i].dropped() + 1) as u64
                }
            } else {
                s0[i].dropped()
            }) by {
                match spec_parse(f0) {
                    Some(t) => {
                        if spec_first_listener(s0, t.1) is Some {
                            lemma_first_listener_some(s0, t.1, 0);
                        }
                    },
                    None => {},
                }
            }
            // the egressed frame, stated over the old state
            lemma_last_emitter_congruent(s1, s0, rt, s0.len() as int);
            let f2 = spec_egress_frame(s0, rt);
            assert(dev2 == f2) by {
                match spec_last_emitter_before(s0, rt, s0.len() as int) {
                    Some(k) => {
                        lemma_last_emitter_emits(s0, rt, s0.len() as int);
                        assert(spec_frame_of(s1, k) == spec_frame_of(s0, k));
                    },
                    None => {
                        assert(dev2 =~= Seq::<u8>::empty());
                    },
                }
            }
            // bindings never change, so listeners found on the old state are
            // the listeners throughout the cycle
            assert(forall|j: int|
                0 <= j < s0.len() ==> (#[trigger] s2[j]).endpoint() == s0[j].endpoint());
            // what the second drain did: exactly the egressed frame's
            // datagram, delivered to its first listener if it has room
            assert forall|i: int| 0 <= i < s0.len() implies (#[trigger] final(sockets)@[i]).inbound() == spec_final_inbound(s0, rt, f0, i) && final(sockets)@[i].dropped()
                == spec_dropped_after(s0, rt, f0, i) by {
                assert(s2[i].inbound() == spec_mid_inbound(s0, f0, i));
                match spec_parse(f2) {
                    Some(t2) => {
                        lemma_first_listener_congruent(s2, s0, t2.1, 0);
                        if spec_first_listener(s0, t2.1) is Some {
                            lemma_first_listener_some(s0, t2.1, 0);
                            lemma_first_listener_some(s2, t2.1, 0);
                        }
                    },
                    None => {},
                }
            }
            // the ring-full drops of the two drains are the cycle's count
            assert(a.2 + c.2 == spec_rx_full_count(s0, rt, f0)) by {
                match spec_parse(f0) {
                    Some(t) => {
                        if spec_first_listener(s0, t.1) is Some {
                            lemma_first_listener_some(s0, t.1, 0);
                        }
                    },
                    None => {},
                }
                match spec_parse(f2) {
                    Some(t2) => {
                        lemma_first_listener_congruent(s2, s0, t2.1, 0);
                        if spec_first_listener(s0, t2.1) is Some {
                            lemma_first_listener_some(s0, t2.1, 0);
                            lemma_first_listener_some(s2, t2.1, 0);
                        }
                    },
                    None => {},
                }
            }
        }
        let malformed = a.1 + c.1;
        let rx_full = a.2 + c.2;
        let no_route = b.1;
        let changed = a.0 || b.0 || c.0;
        proof {
            // a second drain only finds work that egress queued
            if c.0 {
                assert(b.0);
            }
        }
        if malformed == 0 && no_route == 0 && rx_full == 0 {
            Ok(changed)
        } else {
            Err(PollError::Dropped { malformed, no_route, rx_full })
        }
    }

    /// Mutable access to the route table, for configuration.
    pub fn routes_mut(&mut self) -> (r: &mut RouteTable)
        ensures
            *r == old(self).route_table(),
            final(self).route_table() == *final(r),
            final(self).device_frame() == old(self).device_frame(),
            final(self).neighbor_cache() == old(self).neighbor_cache(),
            final(self).time() == old(self).time(),
    {
        &mut self.routes
    }
}

/// The first socket bound to `dst`, if any.
fn find_listener(sockets: &Vec<Socket>, dst: Endpoint) -> (r: Option<usize>)
    ensures
        r is None ==> spec_first_listener(sockets@, dst) is None,
        r matches Some(k) ==> k < sockets@.len() && spec_first_listener(sockets@, dst) == Some(
            k as int,
        ),
{
    let mut k: usize = 0;
    while k < sockets.len()
        invariant
            k <= sockets@.len(),
            spec_first_listener(sockets@, dst) == spec_first_listener_from(
                sockets@,
                dst,
                k as int,
            ),
        decreases sockets@.len() - k,
    {
        let matches_dst: bool = match sockets[k].local_endpoint() {
            Some(e) => e == dst,
            None => false,
        };
        if matches_dst {
            return Some(k);
        }
        k = k + 1;
    }
    None
}

} // verus!
