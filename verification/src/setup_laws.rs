//! What holds of the plan of the proxy's memory and of the sockets of its receivers.

use vstd::arithmetic::power2::{lemma_pow2_adds, lemma_pow2_pos, pow2};
use vstd::prelude::*;

use crate::addr::SocketAddress;
use crate::args::{
    destinations_error, spec_destination_addrs, spec_discovery_service, spec_regions_in_use,
    spec_tile_count,
};
use crate::bits::{least_power_of_two_from, power_of_two};
use crate::fwd_tile::dest_count_error;
use crate::mem::FrameDesc;
use crate::sizing::{
    ascii_lowercase, lemma_size_is_power_of_two, spec_sizing_of_name, PktRecvMemSizing,
    PktRecvTileMemConfig,
};
use crate::text::decimal;
use crate::triton_forwarder::{
    all_frames, planned_sizes, socket_count_error_text, spec_check_socket_counts,
    spec_choose_send_socket, spec_plan_pool, spec_tile_sockets, Pool, PoolPlan, ProxyMemory,
    SendSocket, SetupError, SocketCountError, SocketSource,
};

verus! {

/// How many bytes each memory size has.
pub proof fn law_memory_sizes()
    ensures
        PktRecvMemSizing::XSmall.spec_bytes() == 128 * 1024 * 1024,
        PktRecvMemSizing::Small.spec_bytes() == 256 * 1024 * 1024,
        PktRecvMemSizing::Medium.spec_bytes() == 512 * 1024 * 1024,
        PktRecvMemSizing::Large.spec_bytes() == 1 * 1024 * 1024 * 1024,
        PktRecvMemSizing::XLarge.spec_bytes() == 2 * 1024 * 1024 * 1024,
        PktRecvMemSizing::XXLarge.spec_bytes() == 4 * 1024 * 1024 * 1024,
        PktRecvMemSizing::XXXLarge.spec_bytes() == 8 * 1024 * 1024 * 1024,
        PktRecvMemSizing::XXXXLarge.spec_bytes() == 16 * 1024 * 1024 * 1024,
        PktRecvMemSizing::XXXXXLarge.spec_bytes() == 32 * 1024 * 1024 * 1024,
{
}

/// A power of two that is not larger divides a power of two.
proof fn lemma_power_of_two_divides(n: int, f: int)
    requires
        power_of_two(n),
        power_of_two(f),
    ensures
        f > 0,
        f <= n ==> n / f * f == n && power_of_two(n / f),
        f > n ==> n / f == 0,
{
    let a = choose|e: nat| n == #[trigger] pow2(e);
    let b = choose|e: nat| f == #[trigger] pow2(e);
    lemma_pow2_pos(a);
    lemma_pow2_pos(b);
    if f <= n {
        if a < b {
            vstd::arithmetic::power2::lemma_pow2_strictly_increases(a, b);
        }
        let c = (a - b) as nat;
        lemma_pow2_adds(b, c);
        assert(pow2(c) * f == n) by (nonlinear_arith)
            requires
                f * pow2(c) == n,
        ;
        vstd::arithmetic::div_mod::lemma_div_by_multiple(pow2(c) as int, f);
        assert(n / f == pow2(c));
    } else {
        vstd::arithmetic::div_mod::lemma_basic_div(n, f);
    }
}

proof fn lemma_zero_is_no_power_of_two()
    ensures
        !power_of_two(0),
{
    assert forall|e: nat| 0 != #[trigger] pow2(e) by {
        lemma_pow2_pos(e);
    }
}

/// Whenever a plan is made, it is for as many receivers and forwarders as were asked for,
/// with frames of the size that was asked for, which use up the memory of each receiver;
/// and the ring of each forwarder can hold all frames of all receivers.
pub proof fn law_plan_is_as_asked_for(
    config: PktRecvTileMemConfig,
    num_recv: usize,
    num_fwd: usize,
    plan: PoolPlan,
)
    requires
        spec_plan_pool(config, num_recv, num_fwd) == Ok::<PoolPlan, SetupError>(plan),
    ensures
        plan.num_recv_tiles == num_recv,
        plan.num_fwd_tiles == num_fwd,
        plan.frame_size == config.frame_size,
        plan.num_frames * plan.frame_size == config.memory_size.spec_bytes(),
        plan.packet_ring_capacity == plan.num_frames * num_recv,
        plan.hugepage == config.hugepage,
        plan.num_recv_tiles > 0,
        plan.num_fwd_tiles > 0,
        power_of_two(plan.num_frames as int),
        power_of_two(plan.frame_size as int),
        plan.packet_ring_capacity <= (usize::MAX + 1) / 2,
{
    let bytes = config.memory_size.spec_bytes() as int;
    let f = config.frame_size as int;
    lemma_size_is_power_of_two(config.memory_size);
    lemma_power_of_two_divides(bytes, f);
    lemma_zero_is_no_power_of_two();
    let n = bytes / f;
    assert(0 <= n <= bytes) by (nonlinear_arith)
        requires
            n * f == bytes,
            f >= 1,
            bytes >= 0,
    ;
    assert(0 <= n * num_recv) by (nonlinear_arith)
        requires
            n >= 0,
    ;
}

/// A plan is made exactly if there is a receiver and a forwarder, the memory can be
/// addressed and is cut into frames whose size is a power of two and no larger than it,
/// and a ring can hold all frames. Else the first of these that fails is told, the number
/// of frames before their size.
pub proof fn law_plan_is_made_where_it_can_be(
    config: PktRecvTileMemConfig,
    num_recv: usize,
    num_fwd: usize,
)
    ensures
        ({
            let bytes = config.memory_size.spec_bytes() as int;
            let frame_size = config.frame_size as int;
            let r = spec_plan_pool(config, num_recv, num_fwd);
            let counts = num_recv > 0 && num_fwd > 0;
            let cut = power_of_two(frame_size) && frame_size <= bytes;
            &&& r is Ok <==> counts && bytes <= usize::MAX && cut && bytes / frame_size * num_recv
                <= (usize::MAX + 1) / 2
            &&& r == Err::<PoolPlan, SetupError>(SetupError::NoRecvTiles) <==> num_recv == 0
            &&& r == Err::<PoolPlan, SetupError>(SetupError::NoFwdTiles) <==> num_recv > 0
                && num_fwd == 0
            &&& r == Err::<PoolPlan, SetupError>(SetupError::MemoryTooLarge) <==> counts && bytes
                > usize::MAX
            &&& r == Err::<PoolPlan, SetupError>(SetupError::TooManyFrames) <==> counts && bytes
                <= usize::MAX && cut && bytes / frame_size * num_recv > (usize::MAX + 1) / 2
            &&& r == Err::<PoolPlan, SetupError>(SetupError::NumFramesNotPowerOfTwo) <==> counts
                && bytes <= usize::MAX && frame_size > 0 && !power_of_two(bytes / frame_size)
        }),
{
    let bytes = config.memory_size.spec_bytes() as int;
    let f = config.frame_size as int;
    lemma_size_is_power_of_two(config.memory_size);
    lemma_zero_is_no_power_of_two();
    if power_of_two(f) {
        lemma_power_of_two_divides(bytes, f);
    }
}

/// The frames of a region are numbered from its beginning: the `i`-th one begins behind
/// `i` others, has the size of all and belongs to the region. Each byte of the region is
/// in exactly one of them.
pub proof fn law_each_byte_is_in_one_frame(
    num_frames: usize,
    frame_size: usize,
    shmem_idx: usize,
    a: int,
)
    requires
        frame_size > 0,
        num_frames * frame_size <= usize::MAX,
        0 <= a < num_frames * frame_size,
    ensures
        ({
            let frames = all_frames(num_frames as nat, frame_size, shmem_idx);
            &&& frames.len() == num_frames
            &&& forall|i: int|
                0 <= i < num_frames ==> {
                    &&& (#[trigger] frames[i]).ptr == i * frame_size
                    &&& frames[i].frame_size == frame_size
                    &&& frames[i].shmem_idx == shmem_idx
                }
            &&& 0 <= a / (frame_size as int) < num_frames
            &&& forall|i: int|
                0 <= i < num_frames ==> ((#[trigger] frames[i]).ptr <= a < frames[i].ptr
                    + frames[i].frame_size <==> i == a / (frame_size as int))
        }),
{
    let frames = all_frames(num_frames as nat, frame_size, shmem_idx);
    let f = frame_size as int;
    let k = a / f;
    vstd::arithmetic::div_mod::lemma_fundamental_div_mod(a, f);
    assert(0 <= k < num_frames) by (nonlinear_arith)
        requires
            a == f * k + a % f,
            0 <= a % f < f,
            0 <= a < num_frames * f,
            f > 0,
    ;
    assert forall|i: int| 0 <= i < num_frames implies {
        &&& (#[trigger] frames[i]).ptr == i * frame_size
        &&& frames[i].frame_size == frame_size
        &&& frames[i].shmem_idx == shmem_idx
        &&& (frames[i].ptr <= a < frames[i].ptr + frames[i].frame_size <==> i == k)
    } by {
        assert(0 <= i * f <= num_frames * f) by (nonlinear_arith)
            requires
                0 <= i < num_frames,
                f > 0,
        ;
        assert((i * f <= a < i * f + f) <==> i == k) by (nonlinear_arith)
            requires
                a == f * k + a % f,
                0 <= a % f < f,
                f > 0,
        ;
    }
}

/// Every receiver's region is as large as its frames together.
pub proof fn law_regions_hold_their_frames(plan: PoolPlan, i: int)
    requires
        0 <= i < plan.num_recv_tiles,
    ensures
        planned_sizes(plan).len() == plan.num_recv_tiles,
        planned_sizes(plan)[i] == plan.num_frames * plan.frame_size,
{
    assert(0 <= plan.num_frames * plan.frame_size) by (nonlinear_arith);
}

/// A receiver reads its own listening socket, its own multicast socket exactly if
/// multicast is used, and its own DoubleZero socket exactly if there are so many; the
/// listening socket first and the DoubleZero socket last, each once, and no other.
pub proof fn law_receiver_reads_its_own_sockets(
    idx: usize,
    multicast: bool,
    doublezero: usize,
    socket: SocketSource,
)
    ensures
        ({
            let sockets = spec_tile_sockets(idx, multicast, doublezero);
            &&& sockets.contains(socket) <==> match socket {
                SocketSource::Listening(i) => i == idx,
                SocketSource::Multicast(i) => i == idx && multicast,
                SocketSource::Doublezero(i) => i == idx && idx < doublezero,
            }
            &&& sockets.no_duplicates()
            &&& sockets.len() > 0
            &&& sockets[0] == SocketSource::Listening(idx)
            &&& idx < doublezero ==> sockets.last() == SocketSource::Doublezero(idx)
        }),
{
    let sockets = spec_tile_sockets(idx, multicast, doublezero);
    assert(sockets[0] == SocketSource::Listening(idx));
    if multicast {
        assert(sockets[1] == SocketSource::Multicast(idx));
    }
    if idx < doublezero {
        assert(sockets[sockets.len() - 1] == SocketSource::Doublezero(idx));
    }
}

/// Where there are as many sockets as receivers, each socket is read by exactly one of
/// them: the one with its number. Of DoubleZero sockets there may be fewer.
pub proof fn law_each_socket_is_read_by_one_receiver(
    tiles: usize,
    multicast: bool,
    doublezero: usize,
    socket: SocketSource,
    number: usize,
)
    requires
        doublezero <= tiles,
        match socket {
            SocketSource::Listening(i) => i == number && number < tiles,
            SocketSource::Multicast(i) => i == number && number < tiles && multicast,
            SocketSource::Doublezero(i) => i == number && number < doublezero,
        },
    ensures
        number < tiles,
        forall|r: usize|
            r < tiles ==> (#[trigger] spec_tile_sockets(r, multicast, doublezero).contains(socket)
                <==> r == number),
{
    assert forall|r: usize| r < tiles implies (#[trigger] spec_tile_sockets(
        r,
        multicast,
        doublezero,
    ).contains(socket) <==> r == number) by {
        law_receiver_reads_its_own_sockets(r, multicast, doublezero, socket);
    }
}

/// A wrong number of sockets is reported with the number that there is and the number of
/// receivers.
pub proof fn law_socket_counts_are_reported(got: usize, tiles: usize)
    ensures
        socket_count_error_text(SocketCountError::TooManyDoublezero(got, tiles))
            =~= "doublezero_v4_sk_vec.len() ("@ + decimal(got as nat) + ") > num_pkt_recv_tiles ("@
            + decimal(tiles as nat) + ")"@,
        socket_count_error_text(SocketCountError::WrongListenCount(got, tiles))
            =~= "pkt_recv_sk_vec.len() ("@ + decimal(got as nat) + ") != num_pkt_recv_tiles ("@
            + decimal(tiles as nat) + ")"@,
        socket_count_error_text(SocketCountError::WrongMulticastCount(got, tiles))
            =~= "multicast_sk_vec.len() ("@ + decimal(got as nat) + ") != num_pkt_recv_tiles ("@
            + decimal(tiles as nat) + ")"@,
{
}

/// The arguments about destinations are in order exactly if discovery has both its URL
/// and its port, or neither and there is some destination.
pub proof fn law_destinations_are_needed(has_url: bool, has_port: bool, num_dests: int)
    requires
        num_dests >= 0,
    ensures
        destinations_error(has_url, has_port, num_dests) is None <==> (has_url && has_port) || (
        !has_url && !has_port && num_dests > 0),
        (has_url && !has_port) || (has_port && !has_url) ==> destinations_error(
            has_url,
            has_port,
            num_dests,
        ) == Some(
            "Invalid arguments provided, dynamic endpoints requires both --endpoint-discovery-url and --discovered-endpoints-port."@,
        ),
        !has_url && !has_port && num_dests == 0 ==> destinations_error(
            has_url,
            has_port,
            num_dests,
        ) == Some(
            "No destinations found. You must provide values for --dest-ip-ports or --endpoint-discovery-url."@,
        ),
{
}

/// The size that is `k` steps above the large one.
pub open spec fn size_above_large(k: int) -> PktRecvMemSizing {
    if k == 1 {
        PktRecvMemSizing::XLarge
    } else if k == 2 {
        PktRecvMemSizing::XXLarge
    } else if k == 3 {
        PktRecvMemSizing::XXXLarge
    } else if k == 4 {
        PktRecvMemSizing::XXXXLarge
    } else {
        PktRecvMemSizing::XXXXXLarge
    }
}

/// `k` times the letter x.
pub open spec fn exes(k: int) -> Seq<char> {
    Seq::new(k as nat, |i: int| 'x')
}

/// No two names are the same.
proof fn lemma_names_differ()
    ensures
        "xsmall"@ != "medium"@,
        "xsmall"@ != "xlarge"@,
        "xsmall"@ != "xxxxxl"@,
        "xs"@ != "xl"@,
        "small"@ != "large"@,
        "small"@ != "xxxxl"@,
        "s"@ != "m"@,
        "s"@ != "l"@,
        "medium"@ != "xlarge"@,
        "medium"@ != "xxxxxl"@,
        "m"@ != "l"@,
        "large"@ != "xxxxl"@,
        "xlarge"@ != "xxxxxl"@,
        "xxl"@ != "2xl"@,
        "xxl"@ != "3xl"@,
        "xxl"@ != "4xl"@,
        "xxl"@ != "5xl"@,
        "2xl"@ != "3xl"@,
        "2xl"@ != "4xl"@,
        "2xl"@ != "5xl"@,
        "3xl"@ != "4xl"@,
        "3xl"@ != "5xl"@,
        "4xl"@ != "5xl"@,
{
    reveal_strlit("xsmall");
    reveal_strlit("xs");
    reveal_strlit("small");
    reveal_strlit("s");
    reveal_strlit("medium");
    reveal_strlit("m");
    reveal_strlit("large");
    reveal_strlit("l");
    reveal_strlit("xlarge");
    reveal_strlit("xl");
    reveal_strlit("xxlarge");
    reveal_strlit("xxl");
    reveal_strlit("2xl");
    reveal_strlit("xxxlarge");
    reveal_strlit("xxxl");
    reveal_strlit("3xl");
    reveal_strlit("xxxxlarge");
    reveal_strlit("xxxxl");
    reveal_strlit("4xl");
    reveal_strlit("xxxxxlarge");
    reveal_strlit("xxxxxl");
    reveal_strlit("5xl");
    assert("xsmall"@[0] != "medium"@[0]);
    assert("xsmall"@[1] != "xlarge"@[1]);
    assert("xsmall"@[1] != "xxxxxl"@[1]);
    assert("xs"@[1] != "xl"@[1]);
    assert("small"@[0] != "large"@[0]);
    assert("small"@[0] != "xxxxl"@[0]);
    assert("s"@[0] != "m"@[0]);
    assert("s"@[0] != "l"@[0]);
    assert("medium"@[0] != "xlarge"@[0]);
    assert("medium"@[0] != "xxxxxl"@[0]);
    assert("m"@[0] != "l"@[0]);
    assert("large"@[0] != "xxxxl"@[0]);
    assert("xlarge"@[1] != "xxxxxl"@[1]);
    assert("xxl"@[0] != "2xl"@[0]);
    assert("xxl"@[0] != "3xl"@[0]);
    assert("xxl"@[0] != "4xl"@[0]);
    assert("xxl"@[0] != "5xl"@[0]);
    assert("2xl"@[0] != "3xl"@[0]);
    assert("2xl"@[0] != "4xl"@[0]);
    assert("2xl"@[0] != "5xl"@[0]);
    assert("3xl"@[0] != "4xl"@[0]);
    assert("3xl"@[0] != "5xl"@[0]);
    assert("4xl"@[0] != "5xl"@[0]);
}

/// Of the sizes above the large one each has three names, where there are `k` steps: `k`
/// times x and then large, `k` times x and then l, and, but for the first, `k` and then
/// xl. No other text names one of them.
pub proof fn law_names_of_the_larger_sizes(name: Seq<char>, k: int)
    requires
        1 <= k <= 5,
    ensures
        spec_sizing_of_name(name) == Some(size_above_large(k)) <==> {
            ||| name == exes(k) + seq!['l', 'a', 'r', 'g', 'e']
            ||| name == exes(k) + seq!['l']
            ||| k >= 2 && name == decimal(k as nat) + seq!['x', 'l']
        },
{
    lemma_names_differ();
    reveal_strlit("xsmall");
    reveal_strlit("xs");
    reveal_strlit("small");
    reveal_strlit("s");
    reveal_strlit("medium");
    reveal_strlit("m");
    reveal_strlit("large");
    reveal_strlit("l");
    reveal_strlit("xlarge");
    reveal_strlit("xl");
    reveal_strlit("xxlarge");
    reveal_strlit("xxl");
    reveal_strlit("2xl");
    reveal_strlit("xxxlarge");
    reveal_strlit("xxxl");
    reveal_strlit("3xl");
    reveal_strlit("xxxxlarge");
    reveal_strlit("xxxxl");
    reveal_strlit("4xl");
    reveal_strlit("xxxxxlarge");
    reveal_strlit("xxxxxl");
    reveal_strlit("5xl");
    let long = exes(k) + seq!['l', 'a', 'r', 'g', 'e'];
    let short = exes(k) + seq!['l'];
    let digits = decimal(k as nat) + seq!['x', 'l'];
    if k == 1 {
        assert(long =~= "xlarge"@);
        assert(short =~= "xl"@);
    } else if k == 2 {
        assert(long =~= "xxlarge"@);
        assert(short =~= "xxl"@);
        assert(digits =~= "2xl"@);
    } else if k == 3 {
        assert(long =~= "xxxlarge"@);
        assert(short =~= "xxxl"@);
        assert(digits =~= "3xl"@);
    } else if k == 4 {
        assert(long =~= "xxxxlarge"@);
        assert(short =~= "xxxxl"@);
        assert(digits =~= "4xl"@);
    } else {
        assert(long =~= "xxxxxlarge"@);
        assert(short =~= "xxxxxl"@);
        assert(digits =~= "5xl"@);
    }
}

/// The large size and those below it have two names each: one that is written out and one
/// that is its first letter, behind an x for the smallest. No other text names one of
/// them.
pub proof fn law_names_of_the_smaller_sizes(name: Seq<char>)
    ensures
        spec_sizing_of_name(name) == Some(PktRecvMemSizing::XSmall) <==> name == exes(1) + seq![
            's',
            'm',
            'a',
            'l',
            'l',
        ] || name == exes(1) + seq!['s'],
        spec_sizing_of_name(name) == Some(PktRecvMemSizing::Small) <==> name == seq![
            's',
            'm',
            'a',
            'l',
            'l',
        ] || name == seq!['s'],
        spec_sizing_of_name(name) == Some(PktRecvMemSizing::Medium) <==> name == seq![
            'm',
            'e',
            'd',
            'i',
            'u',
            'm',
        ] || name == seq!['m'],
        spec_sizing_of_name(name) == Some(PktRecvMemSizing::Large) <==> name == seq![
            'l',
            'a',
            'r',
            'g',
            'e',
        ] || name == seq!['l'],
{
    lemma_names_differ();
    reveal_strlit("xsmall");
    reveal_strlit("xs");
    reveal_strlit("small");
    reveal_strlit("s");
    reveal_strlit("medium");
    reveal_strlit("m");
    reveal_strlit("large");
    reveal_strlit("l");
    reveal_strlit("xlarge");
    reveal_strlit("xl");
    reveal_strlit("xxlarge");
    reveal_strlit("xxl");
    reveal_strlit("2xl");
    reveal_strlit("xxxlarge");
    reveal_strlit("xxxl");
    reveal_strlit("3xl");
    reveal_strlit("xxxxlarge");
    reveal_strlit("xxxxl");
    reveal_strlit("4xl");
    reveal_strlit("xxxxxlarge");
    reveal_strlit("xxxxxl");
    reveal_strlit("5xl");
    assert(exes(1) + seq!['s', 'm', 'a', 'l', 'l'] =~= "xsmall"@);
    assert(exes(1) + seq!['s'] =~= "xs"@);
    assert(seq!['s', 'm', 'a', 'l', 'l'] =~= "small"@);
    assert(seq!['s'] =~= "s"@);
    assert(seq!['m', 'e', 'd', 'i', 'u', 'm'] =~= "medium"@);
    assert(seq!['m'] =~= "m"@);
    assert(seq!['l', 'a', 'r', 'g', 'e'] =~= "large"@);
    assert(seq!['l'] =~= "l"@);
}

/// Names are read in any case: of the letters `A` to `Z` each stands for the one 32 places
/// behind it, and no other character changes.
pub proof fn law_case_does_not_matter(c: char)
    ensures
        'A' <= c <= 'Z' ==> ascii_lowercase(c) as int == c as int + 32,
        !('A' <= c <= 'Z') ==> ascii_lowercase(c) == c,
{
}

/// A ring has room for what it is made for, and less than twice as much.
pub proof fn law_capacity_is_rounded_up(n: int, p: int)
    requires
        least_power_of_two_from(n, p),
        n >= 1,
    ensures
        n <= p < 2 * n,
        power_of_two(p),
{
    let e = choose|e: nat| p == #[trigger] pow2(e);
    if e > 0 {
        vstd::arithmetic::power2::lemma_pow2_unfold(e);
        let q = pow2((e - 1) as nat) as int;
        assert(power_of_two(q));
    } else {
        vstd::arithmetic::power2::lemma2_to64();
    }
}

/// New memory of the proxy has a region for each receiver, as large as its frames, a ring
/// for its free frames, in which all of them are, in the order of their addresses, and for
/// each forwarder a ring that can hold all frames and holds nothing. The ends of a ring
/// belong to each other.
pub proof fn law_new_memory_is_as_planned(memory: ProxyMemory, plan: PoolPlan, r: int, f: int)
    requires
        memory.shares_regions(plan, plan.num_recv_tiles as int),
        memory.shares_packet_rings(plan, plan.num_fwd_tiles as int),
        memory.starts_with_all_frames(plan),
        0 <= r < plan.num_recv_tiles,
        0 <= f < plan.num_fwd_tiles,
    ensures
        memory.regions@.len() == plan.num_recv_tiles,
        memory.burst_logs@.len() == plan.num_recv_tiles,
        memory.shmem_info_vec@.len() == plan.num_recv_tiles,
        memory.fill_tx_vec@.len() == plan.num_recv_tiles,
        memory.fill_rx_vec@.len() == plan.num_recv_tiles,
        memory.packet_tx_vec@.len() == plan.num_fwd_tiles,
        memory.packet_rx_vec@.len() == plan.num_fwd_tiles,
        memory.regions@[r].spec_len() == plan.num_frames * plan.frame_size,
        memory.shmem_info_vec@[r].start_ptr == 0,
        memory.shmem_info_vec@[r].len == plan.num_frames * plan.frame_size,
        memory.burst_logs@[r].region() == memory.regions@[r].id(),
        memory.fill_tx_vec@[r].ring() == memory.fill_rx_vec@[r].ring(),
        memory.fill_tx_vec@[r].ring().pred().capacity == plan.num_frames,
        memory.fill_tx_vec@[r].sent() == all_frames(
            plan.num_frames as nat,
            plan.frame_size,
            r as usize,
        ),
        memory.fill_rx_vec@[r].received().len() == 0,
        memory.packet_tx_vec@[f].ring() == memory.packet_rx_vec@[f].ring(),
        memory.packet_tx_vec@[f].ring().pred().capacity >= plan.packet_ring_capacity,
        memory.packet_tx_vec@[f].sent().len() == 0,
        memory.packet_rx_vec@[f].received().len() == 0,
{
    assert(memory.regions@[r].spec_len() == plan.num_frames * plan.frame_size);
    assert(memory.fill_tx_vec@[r].ring() == memory.fill_rx_vec@[r].ring());
    assert(memory.packet_tx_vec@[f].ring() == memory.packet_rx_vec@[f].ring());
}

/// A new pool has for each receiver a region of zeros, as large as its frames, and a ring
/// that holds all of them; and for each forwarder an empty ring that can hold all frames
/// of all receivers.
pub proof fn law_new_pool_is_as_planned(pool: Pool, plan: PoolPlan, r: int, f: int, a: int)
    requires
        pool.has_regions(plan, plan.num_recv_tiles as int),
        pool.has_packet_rings(plan, plan.num_fwd_tiles as int),
        0 <= r < plan.num_recv_tiles,
        0 <= f < plan.num_fwd_tiles,
        0 <= a < plan.num_frames * plan.frame_size,
    ensures
        pool.regions@.len() == plan.num_recv_tiles,
        pool.fill_rings@.len() == plan.num_recv_tiles,
        pool.packet_rings@.len() == plan.num_fwd_tiles,
        pool.regions@[r]@.len() == plan.num_frames * plan.frame_size,
        pool.regions@[r]@[a] == 0,
        pool.regions@[r].spec_huge() == plan.hugepage,
        pool.fill_rings@[r]@.capacity == plan.num_frames,
        pool.fill_rings@[r]@.pending == all_frames(
            plan.num_frames as nat,
            plan.frame_size,
            r as usize,
        ).map_values(|d: FrameDesc| Some(d)),
        pool.packet_rings@[f]@.capacity >= plan.packet_ring_capacity,
        pool.packet_rings@[f]@.pending.len() == 0,
{
    assert(pool.regions@[r].spec_huge() == plan.hugepage);
    assert(pool.fill_rings@[r].wf());
    assert(pool.packet_rings@[f].wf());
}

/// The sockets are in order exactly if there is one to listen on for each receiver, one for
/// multicast each if that is used, and no more DoubleZero sockets than receivers. Else the
/// first of these numbers that is wrong is told, the DoubleZero sockets before the others
/// and those to listen on before those for multicast.
pub proof fn law_each_receiver_needs_its_sockets(
    tiles: usize,
    doublezero: usize,
    listening: usize,
    multicast: Option<usize>,
)
    ensures
        ({
            let r = spec_check_socket_counts(tiles, doublezero, listening, multicast);
            &&& r is Ok <==> doublezero <= tiles && listening == tiles && (multicast is None
                || multicast == Some(tiles))
            &&& r == Err::<(), SocketCountError>(
                SocketCountError::TooManyDoublezero(doublezero, tiles),
            ) <==> doublezero > tiles
            &&& r == Err::<(), SocketCountError>(
                SocketCountError::WrongListenCount(listening, tiles),
            ) <==> doublezero <= tiles && listening != tiles
            &&& multicast matches Some(n) ==> (r == Err::<(), SocketCountError>(
                SocketCountError::WrongMulticastCount(n, tiles),
            ) <==> doublezero <= tiles && listening == tiles && n != tiles)
        }),
{
}

/// A forwarder sends through IPv6 where that can be bound; where the system has no IPv6,
/// which is error 97, through IPv4, with multicast messages that pass up to 8 routers; and
/// after any other error not at all.
pub proof fn law_sending_falls_back_to_ipv4(errno: i32)
    ensures
        spec_choose_send_socket(Ok(())) == SendSocket::V6,
        spec_choose_send_socket(Err(None)) == SendSocket::Fail,
        errno == 97 ==> spec_choose_send_socket(Err(Some(errno))) == SendSocket::V4(8),
        errno != 97 ==> spec_choose_send_socket(Err(Some(errno))) == SendSocket::Fail,
{
}

/// As many tiles are made as were asked for, and one if nobody asked.
pub proof fn law_number_of_tiles(n: usize)
    ensures
        spec_tile_count(Some(n)) == n,
        spec_tile_count(None) == 1,
{
}

/// Up to 1024 destinations can be sent to; with more, both numbers are told.
pub proof fn law_number_of_destinations(n: nat)
    ensures
        dest_count_error(n) is None <==> n <= 1024,
        n > 1024 ==> dest_count_error(n) == Some(
            "number of destinations ("@ + decimal(n) + ") cannot be greater than UIO_MAXIOV ("@
                + decimal(1024) + ")"@,
        ),
{
}

/// Every destination is sent to, at its address, in the order in which they were given.
pub proof fn law_no_destination_is_left_out(dests: Seq<(SocketAddress, String)>, i: int)
    requires
        0 <= i < dests.len(),
    ensures
        spec_destination_addrs(dests).len() == dests.len(),
        spec_destination_addrs(dests)[i] == dests[i].0,
{
}

/// Of the regions that are asked for the first two are used.
pub proof fn law_two_regions_are_used(regions: Seq<Seq<char>>)
    ensures
        spec_regions_in_use(regions) is None <==> regions.len() <= 2,
        regions.len() > 2 ==> spec_regions_in_use(regions)->0 =~= seq![regions[0], regions[1]],
{
}

/// Endpoints are discovered exactly if both the URL and the port are given, and then there.
pub proof fn law_discovery_takes_both(url: String, port: u16)
    ensures
        spec_discovery_service(Some(url), Some(port)) == Some((url, port)),
        spec_discovery_service(Some(url), None) is None,
        spec_discovery_service(None, Some(port)) is None,
        spec_discovery_service(None, None) is None,
{
}

} // verus!
