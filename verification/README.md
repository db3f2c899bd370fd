# shredstream_proxy

A proxy that receives shred packets on UDP sockets, drops duplicates, and forwards
the rest to every destination. The library under `src/` holds what the proxy
computes and decides, with contracts that Verus proves. The program under `app/`
holds the command line, the threads, the sockets and the metrics server.

A packet travels like this:

1. A receiver takes free frames of its memory region from a ring, receives a burst
   of packets into them, and finds the forwarder for each packet by the slot and
   the FEC set of the shred (`recv_tile`, `recv_mmsg`, `routing`).
2. The packet goes to the forwarder through a ring (`ring`, `ring_handle`).
3. The forwarder drops payloads that came before, builds batches of as many
   messages as the kernel sends at once, and gives the frames back (`fwd_tile`).

Each handle of a ring keeps a log, in ghost state, of what was sent or received
through it, of what it was refused, of how often a send asked for the consumer to be
woken, and of how often it found nothing. A log grows only by an operation on the ring
that it belongs to (`ring_log`). Regions have such logs too: of what was received into
them, and of what a tile saw of them (`region_log`, `region`). The contracts of the
tiles speak of these logs: every routed packet is sent once, to the ring of its
forwarder; every frame is given back once, to the ring of its region, and not before
the sending of its batch ended; what is received is taken in; what is sent are the
bytes that were seen; and a tile stops early only if a ring was full or empty when it
asked. What a ring or a region holds between two calls depends on the other threads.
The functions that work on a ring or on bytes alone state what happens for every
content.

The `*_laws` modules state what follows. Messages leave a ring in the order of their
tickets and no wake-up is lost. Every queued packet is sent to every destination
exactly once, and no payload is queued twice. `pool_laws` describes the whole proxy
as a state and the steps that the tiles take, which `step_laws` ties to the contracts:
in that description, however the steps interleave, every frame is at exactly one place,
no ring overflows, and what is sent is what was received (`payload_laws`). `log_laws`
ties the logs to the rings: they account for all that a ring holds, in that description
as in the ring itself.

Three things are trusted: the Bloom filter of `solana-perf`, which tells duplicates,
the standard library's lower-casing of text, and its reading of IPv6 addresses.
