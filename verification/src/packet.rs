//! A received packet.

use vstd::prelude::*;

use crate::addr::{IpAddress, Ipv4Address, SocketAddress};
use crate::mem::{FrameBuf, FrameDesc, SharedMem};

verus! {

/// The most bytes that a packet carries.
pub const PACKET_DATA_SIZE: usize = 1232;

/// What is known of a packet besides its bytes.
#[derive(Debug, Clone, Copy, PartialEq, Eq, Structural)]
pub struct Meta {
    pub size: usize,
    pub addr: IpAddress,
    pub port: u16,
    pub from_staked_node: bool,
}

impl Meta {
    /// Nothing is known.
    pub open spec fn spec_default() -> Meta {
        Meta {
            size: 0,
            addr: IpAddress::V4(Ipv4Address { bits: 0 }),
            port: 0,
            from_staked_node: false,
        }
    }

    /// Records where the packet came from.
    pub fn set_socket_addr(&mut self, addr: &SocketAddress)
        ensures
            *final(self) == (Meta { addr: addr.spec_ip(), port: addr.spec_port(), ..*old(self) }),
    {
        self.addr = addr.ip();
        self.port = addr.port();
    }

    /// Records whether the packet came from a staked node.
    pub fn set_from_staked_node(&mut self, from_staked_node: bool)
        ensures
            *final(self) == (Meta { from_staked_node, ..*old(self) }),
    {
        self.from_staked_node = from_staked_node;
    }
}

impl Default for Meta {
    fn default() -> (meta: Self)
        ensures
            meta == Meta::spec_default(),
    {
        Meta {
            size: 0,
            addr: IpAddress::V4(Ipv4Address::unspecified()),
            port: 0,
            from_staked_node: false,
        }
    }
}

/// A received packet: its bytes, in a frame, and what is known of it.
#[derive(Debug)]
pub struct TritonPacket {
    pub buffer: FrameBuf,
    pub meta: Meta,
}

impl TritonPacket {
    /// The packet lies within its frame and is no larger than what was written.
    pub open spec fn wf(&self) -> bool {
        &&& self.buffer.wf()
        &&& self.meta.size <= self.buffer.end() - self.buffer.start()
    }

    /// The frame that holds the packet.
    pub open spec fn frame(&self) -> FrameDesc {
        self.buffer.spec_desc()
    }

    /// The bytes of the packet, in a region that holds `mem`.
    pub open spec fn payload(&self, mem: Seq<u8>) -> Seq<u8> {
        self.buffer.bytes(mem).take(self.meta.size as int)
    }

    /// A packet of which nothing is known but its bytes.
    pub fn new(buffer: FrameBuf) -> (packet: Self)
        ensures
            packet.buffer == buffer,
            packet.meta == Meta::spec_default(),
    {
        TritonPacket { buffer, meta: Meta::default() }
    }

    /// What is known of the packet, to be changed.
    pub fn meta_mut(&mut self) -> (meta: &mut Meta)
        ensures
            *meta == old(self).meta,
            *final(self) == (TritonPacket { buffer: old(self).buffer, meta: *final(meta) }),
    {
        &mut self.meta
    }

    /// All bytes that were written for the packet.
    pub fn as_ref<'a>(&self, mem: &'a SharedMem) -> (bytes: &'a [u8])
        requires
            self.buffer.end() <= mem@.len(),
        ensures
            bytes@ == self.buffer.bytes(mem@),
    {
        self.buffer.chunk(mem)
    }
}

} // verus!
