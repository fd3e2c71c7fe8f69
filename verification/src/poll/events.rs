//! The events that a task can wait for, and what can be polled for them.

use core::task::Context;
use vstd::prelude::*;

verus! {

/// A set of I/O readiness events, one bit each.
#[derive(Debug, Clone, Copy)]
pub struct IoEvents {
    bits: u16,
}

impl IoEvents {
    /// Data other than high-priority data can be read.
    pub const IN: u16 = 0x0001;

    /// High-priority data can be read.
    pub const PRI: u16 = 0x0002;

    /// Data can be written.
    pub const OUT: u16 = 0x0004;

    /// An error has occurred.
    pub const ERR: u16 = 0x0008;

    /// The other side has hung up.
    pub const HUP: u16 = 0x0010;

    /// The request is not valid.
    pub const NVAL: u16 = 0x0020;

    /// Normal data can be read.
    pub const RDNORM: u16 = 0x0040;

    /// Priority band data can be read.
    pub const RDBAND: u16 = 0x0080;

    /// Normal data can be written.
    pub const WRNORM: u16 = 0x0100;

    /// Priority band data can be written.
    pub const WRBAND: u16 = 0x0200;

    /// A message is there.
    pub const MSG: u16 = 0x0400;

    /// The descriptor was removed.
    pub const REMOVE: u16 = 0x1000;

    /// The other side has shut down its writing half.
    pub const RDHUP: u16 = 0x2000;

    /// Events that are always polled even without specifying them.
    pub const ALWAYS_POLL: u16 = Self::ERR | Self::HUP;

    /// Every bit that stands for an event.
    pub const ALL: u16 = 0x37ff;

    /// The bits of the set.
    pub closed spec fn view(&self) -> u16 {
        self.bits
    }

    /// The set without any event.
    pub fn empty() -> (e: IoEvents)
        ensures
            e@ == 0,
    {
        IoEvents { bits: 0 }
    }

    /// The set of all events.
    pub fn all() -> (e: IoEvents)
        ensures
            e@ == IoEvents::ALL,
    {
        IoEvents { bits: Self::ALL }
    }

    /// Returns the bits of the set.
    pub fn bits(&self) -> (b: u16)
        ensures
            b == self@,
    {
        self.bits
    }

    /// The set with the given bits, unless one of them stands for no event.
    pub fn from_bits(bits: u16) -> (e: Option<IoEvents>)
        ensures
            e is Some <==> bits & !IoEvents::ALL == 0,
            e matches Some(events) ==> events@ == bits,
    {
        if bits & !Self::ALL == 0 {
            Some(IoEvents { bits })
        } else {
            None
        }
    }

    /// The set with those of the given bits that stand for an event.
    pub fn from_bits_truncate(bits: u16) -> (e: IoEvents)
        ensures
            e@ == bits & IoEvents::ALL,
    {
        IoEvents { bits: bits & Self::ALL }
    }

    /// Returns whether the set holds no event.
    pub fn is_empty(&self) -> (b: bool)
        ensures
            b <==> self@ == 0,
    {
        self.bits == 0
    }

    /// Returns whether every event of `other` is in the set.
    pub fn contains(&self, other: IoEvents) -> (b: bool)
        ensures
            b <==> self@ & other@ == other@,
    {
        self.bits & other.bits == other.bits
    }

    /// Returns whether some event of `other` is in the set.
    pub fn intersects(&self, other: IoEvents) -> (b: bool)
        ensures
            b <==> self@ & other@ != 0,
    {
        self.bits & other.bits != 0
    }

    /// The events of either set.
    pub fn union(self, other: IoEvents) -> (e: IoEvents)
        ensures
            e@ == self@ | other@,
    {
        IoEvents { bits: self.bits | other.bits }
    }

    /// The events of both sets.
    pub fn intersection(self, other: IoEvents) -> (e: IoEvents)
        ensures
            e@ == self@ & other@,
    {
        IoEvents { bits: self.bits & other.bits }
    }

    /// The events of the set that are not in `other`.
    pub fn difference(self, other: IoEvents) -> (e: IoEvents)
        ensures
            e@ == self@ & !other@,
    {
        IoEvents { bits: self.bits & !other.bits }
    }
}

/// The always-polled events, the error and the hang-up, have the bits `0x0018`.
pub proof fn lemma_always_poll()
    ensures
        IoEvents::ALWAYS_POLL == 0x0018,
{
    assert(0x0008u16 | 0x0010u16 == 0x0018u16) by (bit_vector);
}

/// `ALL` holds the bit of every event and no other.
pub proof fn lemma_all_events()
    ensures
        IoEvents::ALL == IoEvents::IN | IoEvents::PRI | IoEvents::OUT | IoEvents::ERR
            | IoEvents::HUP | IoEvents::NVAL | IoEvents::RDNORM | IoEvents::RDBAND
            | IoEvents::WRNORM | IoEvents::WRBAND | IoEvents::MSG | IoEvents::REMOVE
            | IoEvents::RDHUP,
{
    assert(0x37ffu16 == 0x0001u16 | 0x0002u16 | 0x0004u16 | 0x0008u16 | 0x0010u16 | 0x0020u16
        | 0x0040u16 | 0x0080u16 | 0x0100u16 | 0x0200u16 | 0x0400u16 | 0x1000u16 | 0x2000u16)
        by (bit_vector);
}

/// `core::task::Context`, carried through as an opaque value.
#[verifier::external_type_specification]
#[verifier::external_body]
pub struct ExContext<'a>(core::task::Context<'a>);

/// Trait for types that can be polled for I/O events.
pub trait Pollable {
    /// Polls the type for I/O events.
    fn poll(&self) -> IoEvents;

    /// Registers wakers for I/O events.
    fn register(&self, context: &mut Context<'_>, events: IoEvents);
}

} // verus!
