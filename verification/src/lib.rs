//! A proxy that receives shred packets and forwards them.
//!
//! Receivers take packets from sockets into frames of shared memory, find the
//! forwarder each packet goes to, and send it there through a ring. Forwarders
//! drop what came before, send the rest to every destination, and give the frames
//! back through other rings. This crate holds what the proxy computes and decides;
//! the threads, sockets and system calls around it are the application's.
//!
//! - [`mem`], [`region_log`] and [`region`]: frames of shared memory.
//! - [`ring`], [`ring_log`] and [`ring_handle`]: the rings between threads.
//! - [`recv_mmsg`], [`routing`], [`packet`] and [`recv_tile`]: receiving.
//! - [`fwd_tile`]: forwarding.
//! - [`sizing`], [`triton_forwarder`] and [`pool`]: how the memory is laid out and
//!   which frames may travel between tiles.
//! - [`triton_multicast_config`] and [`args`]: what the proxy is asked to do.
//! - [`prom`]: what it counts.
//! - [`mem_laws`], [`text_laws`], [`setup_laws`], [`multicast_laws`], [`recv_laws`],
//!   [`fwd_laws`] and [`tile_laws`]: what each operation comes to, for all inputs.
//! - [`ring_laws`], [`log_laws`], [`pool_laws`], [`step_laws`] and [`payload_laws`]: what
//!   holds over many steps and for all interleavings of threads.
//! - [`addr`], [`ip_text`], [`ipv4_text`], [`text`], [`bits`] and [`io_error`]: plain values.

pub mod addr;
pub mod args;
pub mod bits;
pub mod fwd_laws;
pub mod fwd_tile;
pub mod io_error;
pub mod ip_text;
pub mod ipv4_text;
pub mod log_laws;
pub mod mem;
pub mod mem_laws;
pub mod multicast_laws;
pub mod packet;
pub mod payload_laws;
pub mod pool;
pub mod pool_laws;
pub mod prom;
pub mod recv_laws;
pub mod recv_mmsg;
pub mod recv_tile;
pub mod region;
pub mod region_log;
pub mod ring;
pub mod ring_handle;
pub mod ring_laws;
pub mod ring_log;
pub mod routing;
pub mod setup_laws;
pub mod sizing;
pub mod step_laws;
pub mod text;
pub mod text_laws;
pub mod tile_laws;
pub mod triton_forwarder;
pub mod triton_multicast_config;
