//! The virtual loopback device and its single-use packet tokens.
//!
//! The device stores at most one outstanding frame: bytes written through a
//! transmit token become the pending frame (overwriting any frame that has
//! not been drained yet), and the next `receive` hands that frame back.

use vstd::prelude::*;

verus! {

/// Transmission medium kind of a device: pure IP (no link-layer framing)
/// or Ethernet (requires neighbor resolution).
#[derive(Clone, Copy, PartialEq, Eq, Structural, Debug)]
pub enum Medium {
    Ip,
    Ethernet,
}

/// Static capability descriptor of a device.
pub struct DeviceCapabilities {
    pub max_transmission_unit: usize,
    pub medium: Medium,
}

/// Maximum transmission unit of the loopback device, in bytes.
pub const LOOPBACK_MTU: usize = 1500;

/// A virtual loopback network device.
///
/// Holds zero or one pending frame; an empty buffer means no frame is
/// pending. A transmit writes the next pending frame, a receive drains it.
pub struct Loopback {
    buffer: Vec<u8>,
}

/// A single-use receive capability: owns a private copy of the frame that
/// was pending when it was issued. Consuming it yields those bytes; the
/// token is moved and cannot be used twice.
pub struct LoopbackRxToken {
    buffer: Vec<u8>,
}

/// A single-use transmit capability issued by the device. Consuming it
/// writes a frame into the device; the token is moved and cannot be used
/// twice.
pub struct LoopbackTxToken {
    // no public constructor: only the device issues transmit tokens
    _private: (),
}

impl Loopback {
    /// The pending frame's bytes; the empty sequence means none is pending.
    pub closed spec fn view(&self) -> Seq<u8> {
        self.buffer@
    }

    /// A fresh device with no pending frame.
    pub fn new() -> (d: Loopback)
        ensures
            d@ =~= Seq::<u8>::empty(),
    {
        Loopback { buffer: Vec::new() }
    }

    /// The static descriptor: pure-IP medium with a fixed MTU, so the
    /// interface skips link-layer neighbor resolution.
    pub fn capabilities(&self) -> (c: DeviceCapabilities)
        ensures
            c.max_transmission_unit == LOOPBACK_MTU,
            c.medium == Medium::Ip,
    {
        DeviceCapabilities { max_transmission_unit: LOOPBACK_MTU, medium: Medium::Ip }
    }

    /// If a frame is pending, drain it: the receive token carries the frame's
    /// bytes and a transmit token for a reply comes with it. Otherwise
    /// nothing is ready, which is not an error.
    pub fn receive(&mut self) -> (r: Option<(LoopbackRxToken, LoopbackTxToken)>)
        ensures
            old(self)@.len() == 0 ==> r is None && final(self)@ == old(self)@,
            old(self)@.len() > 0 ==> match r {
                Some(pair) => pair.0@ == old(self)@ && final(self)@.len() == 0,
                None => false,
            },
    {
        if self.buffer.len() == 0 {
            None
        } else {
            let mut drained: Vec<u8> = Vec::new();
            core::mem::swap(&mut drained, &mut self.buffer);
            Some((LoopbackRxToken { buffer: drained }, LoopbackTxToken { _private: () }))
        }
    }

    /// A transmit token is always available; the device is not touched
    /// until the token is consumed.
    pub fn transmit(&mut self) -> (r: Option<LoopbackTxToken>)
        ensures
            r is Some,
            final(self)@ == old(self)@,
    {
        Some(LoopbackTxToken { _private: () })
    }
}

impl LoopbackRxToken {
    /// The frame bytes this token grants access to.
    pub closed spec fn view(&self) -> Seq<u8> {
        self.buffer@
    }

    /// Consume the token, yielding the received frame. The bytes are the
    /// token's private copy: no later device operation can alias them.
    pub fn consume(self) -> (r: Vec<u8>)
        ensures
            r@ == self@,
    {
        self.buffer
    }
}

impl LoopbackTxToken {
    /// Consume the token: the written bytes become the device's next pending
    /// frame, overwriting any frame that was not drained yet.
    pub fn consume(self, device: &mut Loopback, data: &Vec<u8>)
        requires
            data@.len() <= LOOPBACK_MTU,
        ensures
            final(device)@ == data@,
    {
        let mut frame: Vec<u8> = Vec::new();
        let mut i: usize = 0;
        while i < data.len()
            invariant
                i <= data@.len(),
                frame@ == data@.subrange(0, i as int),
            decreases data@.len() - i,
        {
            frame.push(data[i]);
            i = i + 1;
        }
        proof {
            assert(frame@ =~= data@);
        }
        device.buffer = frame;
    }
}

/// Loopback echo: for every payload `d` within the MTU, transmitting `d`
/// and then draining the device yields exactly `d`, byte for byte. The
/// hypotheses are what `LoopbackTxToken::consume`, `Loopback::receive` and
/// `LoopbackRxToken::consume` each ensure about their results.
pub proof fn lemma_loopback_echo(
    d: Seq<u8>,
    pending: Seq<u8>,
    granted: Seq<u8>,
    delivered: Seq<u8>,
)
    requires
        d.len() <= LOOPBACK_MTU,
        pending == d,
        granted == pending,
        delivered == granted,
    ensures
        delivered == d,
{
}

} // verus!
