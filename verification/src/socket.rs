//! Connectionless datagram sockets: a bound local endpoint plus bounded
//! FIFO ring buffers for inbound and outbound datagrams.

use vstd::prelude::*;
use crate::wire::MAX_PAYLOAD;

verus! {

/// A network endpoint: an IPv4 address and a port.
#[derive(Clone, Copy, PartialEq, Eq, Structural, Debug)]
pub struct Endpoint {
    pub addr: u32,
    pub port: u16,
}

/// An endpoint a socket may be bound to: neither the unspecified address
/// nor port zero.
pub open spec fn spec_endpoint_valid(e: Endpoint) -> bool {
    e.addr != 0 && e.port != 0
}

/// A queued datagram: a payload and the remote endpoint it came from or
/// is addressed to.
pub struct Datagram {
    pub payload: Vec<u8>,
    pub endpoint: Endpoint,
}

/// The mathematical content of a queue of datagrams: payload bytes paired
/// with the remote endpoint.
pub open spec fn spec_queue(q: Seq<Datagram>) -> Seq<(Seq<u8>, Endpoint)> {
    q.map_values(|d: Datagram| (d.payload@, d.endpoint))
}

/// Failures of socket operations.
#[derive(Clone, Copy, PartialEq, Eq, Structural, Debug)]
pub enum SocketError {
    /// `bind` on a socket that is already bound.
    AlreadyBound,
    /// `bind` to an endpoint that is not assignable, or `send_slice` on an
    /// unbound socket, which has no source endpoint to stamp on the datagram.
    InvalidEndpoint,
    /// `send_slice` with a full outbound ring.
    BufferFull,
    /// `send_slice` with a payload larger than the device MTU minus the
    /// header overhead.
    Truncated,
    /// `recv` with an empty inbound ring.
    Exhausted,
}

/// A connectionless datagram socket.
pub struct Socket {
    endpoint: Option<Endpoint>,
    rx: Vec<Datagram>,
    tx: Vec<Datagram>,
    rx_capacity: usize,
    tx_capacity: usize,
    dropped: u64,
}

impl Socket {
    /// The bound local endpoint, if any.
    pub closed spec fn endpoint(&self) -> Option<Endpoint> {
        self.endpoint
    }

    /// The inbound ring's content, oldest first.
    pub closed spec fn inbound(&self) -> Seq<(Seq<u8>, Endpoint)> {
        spec_queue(self.rx@)
    }

    /// The outbound ring's content, oldest first.
    pub closed spec fn outbound(&self) -> Seq<(Seq<u8>, Endpoint)> {
        spec_queue(self.tx@)
    }

    /// Capacity of the inbound ring.
    pub closed spec fn inbound_capacity(&self) -> nat {
        self.rx_capacity as nat
    }

    /// Capacity of the outbound ring.
    pub closed spec fn outbound_capacity(&self) -> nat {
        self.tx_capacity as nat
    }

    /// How many inbound datagrams were dropped because the ring was full.
    pub closed spec fn dropped(&self) -> u64 {
        self.dropped
    }

    /// Well-formedness: the rings respect their capacities, an unbound
    /// socket has nothing queued for egress, and every queued outbound
    /// payload fits in a frame.
    pub open spec fn wf(&self) -> bool {
        &&& 1 <= self.inbound_capacity()
        &&& 1 <= self.outbound_capacity()
        &&& self.inbound().len() <= self.inbound_capacity()
        &&& self.outbound().len() <= self.outbound_capacity()
        &&& self.endpoint() is None ==> self.outbound().len() == 0
        &&& forall|i: int|
            0 <= i < self.outbound().len() ==> (#[trigger] self.outbound()[i]).0.len()
                <= MAX_PAYLOAD
    }

    /// Everything but the ring contents: the binding, the capacities and
    /// the drop counter are the same in `a` and `b`.
    pub open spec fn spec_same_config(a: Socket, b: Socket) -> bool {
        &&& a.endpoint() == b.endpoint()
        &&& a.inbound_capacity() == b.inbound_capacity()
        &&& a.outbound_capacity() == b.outbound_capacity()
        &&& a.dropped() == b.dropped()
    }

    /// The sockets are in the same state, at the level of the model.
    pub open spec fn spec_same_state(a: Socket, b: Socket) -> bool {
        &&& Self::spec_same_config(a, b)
        &&& a.inbound() == b.inbound()
        &&& a.outbound() == b.outbound()
    }

    /// A fresh, unbound socket with empty rings of the given capacities.
    pub fn new(rx_capacity: usize, tx_capacity: usize) -> (s: Socket)
        requires
            1 <= rx_capacity,
            1 <= tx_capacity,
        ensures
            s.endpoint() is None,
            s.inbound() =~= Seq::<(Seq<u8>, Endpoint)>::empty(),
            s.outbound() =~= Seq::<(Seq<u8>, Endpoint)>::empty(),
            s.inbound_capacity() == rx_capacity,
            s.outbound_capacity() == tx_capacity,
            s.dropped() == 0,
            s.wf(),
    {
        let s = Socket {
            endpoint: None,
            rx: Vec::new(),
            tx: Vec::new(),
            rx_capacity,
            tx_capacity,
            dropped: 0,
        };
        proof {
            assert(s.inbound() =~= Seq::<(Seq<u8>, Endpoint)>::empty());
            assert(s.outbound() =~= Seq::<(Seq<u8>, Endpoint)>::empty());
        }
        s
    }

    /// Bind the socket to a local endpoint. Fails with `AlreadyBound` on a
    /// bound socket and with `InvalidEndpoint` on an endpoint that is not
    /// assignable; on failure the socket is unchanged.
    pub fn bind(&mut self, endpoint: Endpoint) -> (r: Result<(), SocketError>)
        requires
            old(self).wf(),
        ensures
            final(self).wf(),
            old(self).endpoint() is Some ==> r == Err::<(), SocketError>(SocketError::AlreadyBound)
                && Self::spec_same_state(*final(self), *old(self)),
            old(self).endpoint() is None && !spec_endpoint_valid(endpoint) ==> r == Err::<
                (),
                SocketError,
            >(SocketError::InvalidEndpoint) && Self::spec_same_state(*final(self), *old(self)),
            old(self).endpoint() is None && spec_endpoint_valid(endpoint) ==> r == Ok::<
                (),
                SocketError,
            >(()) && final(self).endpoint() == Some(endpoint) && final(self).inbound() == old(self).inbound() && final(self).outbound() == old(self).outbound() && final(self).dropped()
                == old(self).dropped() && final(self).inbound_capacity() == old(self).inbound_capacity() && final(self).outbound_capacity() == old(self).outbound_capacity(),
    {
        if self.endpoint.is_some() {
            Err(SocketError::AlreadyBound)
        } else if endpoint.addr == 0 || endpoint.port == 0 {
            Err(SocketError::InvalidEndpoint)
        } else {
            self.endpoint = Some(endpoint);
            Ok(())
        }
    }

    /// Queue a datagram for egress. Fails with `InvalidEndpoint` on an
    /// unbound socket, with `Truncated` if the payload cannot fit in one
    /// frame, and with `BufferFull` if the outbound ring is at capacity;
    /// on failure the socket — the outbound ring included — is unchanged.
    pub fn send_slice(&mut self, data: &[u8], remote: Endpoint) -> (r: Result<(), SocketError>)
        requires
            old(self).wf(),
        ensures
            final(self).wf(),
            old(self).endpoint() is None ==> r == Err::<(), SocketError>(
                SocketError::InvalidEndpoint,
            ) && Self::spec_same_state(*final(self), *old(self)),
            old(self).endpoint() is Some && data@.len() > MAX_PAYLOAD ==> r == Err::<
                (),
                SocketError,
            >(SocketError::Truncated) && Self::spec_same_state(*final(self), *old(self)),
            old(self).endpoint() is Some && data@.len() <= MAX_PAYLOAD && old(self).outbound().len()
                >= old(self).outbound_capacity() ==> r == Err::<(), SocketError>(
                SocketError::BufferFull,
            ) && Self::spec_same_state(*final(self), *old(self)),
            old(self).endpoint() is Some && data@.len() <= MAX_PAYLOAD && old(self).outbound().len()
                < old(self).outbound_capacity() ==> r == Ok::<(), SocketError>(()) && final(self).outbound() == old(self).outbound().push((data@, remote)) && final(self).inbound()
                == old(self).inbound() && Self::spec_same_config(*final(self), *old(self)),
    {
        if self.endpoint.is_none() {
            return Err(SocketError::InvalidEndpoint);
        }
        if data.len() > MAX_PAYLOAD {
            return Err(SocketError::Truncated);
        }
        if self.tx.len() >= self.tx_capacity {
            return Err(SocketError::BufferFull);
        }
        let mut payload: Vec<u8> = Vec::new();
        let mut i: usize = 0;
        while i < data.len()
            invariant
                i <= data@.len(),
                payload@ == data@.subrange(0, i as int),
            decreases data@.len() - i,
        {
            payload.push(*vstd::slice::slice_index_get(data, i));
            i = i + 1;
        }
        proof {
            assert(payload@ =~= data@);
        }
        self.tx.push(Datagram { payload, endpoint: remote });
        proof {
            assert(self.outbound() =~= old(self).outbound().push((data@, remote)));
        }
        Ok(())
    }

    /// Dequeue the oldest inbound datagram. Fails with `Exhausted` if the
    /// inbound ring is empty, leaving the socket unchanged.
    pub fn recv(&mut self) -> (r: Result<(Vec<u8>, Endpoint), SocketError>)
        requires
            old(self).wf(),
        ensures
            final(self).wf(),
            old(self).inbound().len() == 0 ==> (r matches Err(e) && e == SocketError::Exhausted)
                && Self::spec_same_state(*final(self), *old(self)),
            old(self).inbound().len() > 0 ==> (r matches Ok(p) && p.0@ == old(self).inbound()[0].0
                && p.1 == old(self).inbound()[0].1) && final(self).inbound() == old(self).inbound().drop_first() && final(self).outbound() == old(self).outbound()
                && Self::spec_same_config(*final(self), *old(self)),
    {
        if self.rx.len() == 0 {
            return Err(SocketError::Exhausted);
        }
        let dg = self.rx.remove(0);
        proof {
            assert(self.inbound() =~= old(self).inbound().drop_first());
        }
        Ok((dg.payload, dg.endpoint))
    }

    /// The bound local endpoint, if any.
    pub fn local_endpoint(&self) -> (r: Option<Endpoint>)
        ensures
            r == self.endpoint(),
    {
        self.endpoint
    }

    /// How many inbound datagrams have been dropped because the inbound
    /// ring was full when they arrived.
    pub fn drop_count(&self) -> (r: u64)
        ensures
            r == self.dropped(),
    {
        self.dropped
    }

    /// Push a received datagram into the inbound ring: the interface calls
    /// this during dispatch. If the ring is full the newest datagram — the
    /// arriving one — is dropped and the drop counter grows (saturating);
    /// the queued datagrams are kept unchanged.
    pub(crate) fn deliver(&mut self, payload: Vec<u8>, from: Endpoint) -> (accepted: bool)
        requires
            old(self).wf(),
        ensures
            final(self).wf(),
            accepted == (old(self).inbound().len() < old(self).inbound_capacity()),
            accepted ==> final(self).inbound() == old(self).inbound().push((payload@, from))
                && final(self).dropped() == old(self).dropped(),
            !accepted ==> final(self).inbound() == old(self).inbound() && final(self).dropped() == (
            if old(self).dropped() == u64::MAX {
                u64::MAX
            } else {
                (old(self).dropped() + 1) as u64
            }),
            final(self).outbound() == old(self).outbound(),
            final(self).endpoint() == old(self).endpoint(),
            final(self).inbound_capacity() == old(self).inbound_capacity(),
            final(self).outbound_capacity() == old(self).outbound_capacity(),
    {
        if self.rx.len() < self.rx_capacity {
            let ghost before = self.inbound();
            self.rx.push(Datagram { payload, endpoint: from });
            proof {
                assert(self.inbound() =~= before.push((payload@, from)));
            }
            true
        } else {
            if self.dropped < u64::MAX {
                self.dropped = self.dropped + 1;
            }
            false
        }
    }

    /// Pop the oldest outbound datagram for egress, if one is queued; the
    /// interface calls this during the egress step.
    pub(crate) fn pop_outbound(&mut self) -> (r: Option<Datagram>)
        requires
            old(self).wf(),
        ensures
            final(self).wf(),
            old(self).outbound().len() == 0 ==> r is None && Self::spec_same_state(
                *final(self),
                *old(self),
            ),
            old(self).outbound().len() > 0 ==> (r matches Some(d) && d.payload@ == old(self).outbound()[0].0 && d.endpoint == old(self).outbound()[0].1 && d.payload@.len()
                <= MAX_PAYLOAD) && final(self).outbound() == old(self).outbound().drop_first()
                && final(self).inbound() == old(self).inbound() && Self::spec_same_config(
                *final(self),
                *old(self),
            ),
    {
        if self.tx.len() == 0 {
            return None;
        }
        let dg = self.tx.remove(0);
        proof {
            assert(self.outbound() =~= old(self).outbound().drop_first());
        }
        Some(dg)
    }
}

} // verus!
