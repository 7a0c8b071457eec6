//! The usable addresses of a subnet: every address strictly between the
//! network address and the broadcast address, in ascending order.

use vstd::prelude::*;

verus! {

/// The network address of the subnet of `address` under `mask`: `address`
/// with every host bit cleared.
pub open spec fn network_of(address: u32, mask: u32) -> u32 {
    address & mask
}

/// The broadcast address of the subnet of `address` under `mask`: the
/// network address with every host bit set.
pub open spec fn broadcast_of(address: u32, mask: u32) -> u32 {
    (address & mask) | !mask
}

/// The number of usable addresses of the subnet: those strictly between
/// the network address and the broadcast address. A subnet whose two
/// boundary addresses coincide or are neighbours has none.
pub open spec fn usable_count(address: u32, mask: u32) -> nat {
    if broadcast_of(address, mask) - network_of(address, mask) >= 2 {
        (broadcast_of(address, mask) - network_of(address, mask) - 1) as nat
    } else {
        0
    }
}

/// The usable addresses of the subnet, ascending: the address after the
/// network address first, the address before the broadcast address last.
pub open spec fn usable_range(address: u32, mask: u32) -> Seq<u32> {
    Seq::new(usable_count(address, mask), |i: int| (network_of(address, mask) + 1 + i) as u32)
}

/// The network address of the subnet of `address` under `mask`.
pub fn network_address(address: u32, mask: u32) -> (network: u32)
    ensures
        network == network_of(address, mask),
{
    address & mask
}

/// The broadcast address of the subnet of `address` under `mask`.
pub fn broadcast_address(address: u32, mask: u32) -> (broadcast: u32)
    ensures
        broadcast == broadcast_of(address, mask),
        broadcast >= network_of(address, mask),
{
    proof {
        lemma_subnet_bounds(address, mask);
    }
    (address & mask) | !mask
}

/// The first usable address of the subnet and the number of usable
/// addresses; where there is none, the first is reported as zero.
pub fn usable_span(address: u32, mask: u32) -> (span: (u32, u32))
    ensures
        span.1 == usable_count(address, mask),
        span.1 > 0 ==> span.0 == network_of(address, mask) + 1,
        span.1 == 0 ==> span.0 == 0,
        span.0 + span.1 <= u32::MAX,
{
    let network: u32 = network_address(address, mask);
    let broadcast: u32 = broadcast_address(address, mask);
    if broadcast - network < 2 {
        (0, 0)
    } else {
        (network + 1, broadcast - network - 1)
    }
}

/// Enumerates the usable addresses of the subnet of `starting_ip` under
/// `subnet_mask`, ascending. The result is empty where the subnet leaves no
/// address between its network address and its broadcast address.
pub fn get_ip_range(starting_ip: u32, subnet_mask: u32) -> (range: Vec<u32>)
    ensures
        range@ == usable_range(starting_ip, subnet_mask),
        range@.len() == usable_count(starting_ip, subnet_mask),
        forall|i: int|
            0 <= i < range@.len() ==> network_of(starting_ip, subnet_mask) < #[trigger] range@[i]
                < broadcast_of(starting_ip, subnet_mask),
        forall|i: int, j: int| 0 <= i < j < range@.len() ==> range@[i] < range@[j],
        forall|i: int|
            0 <= i < range@.len() ==> #[trigger] range@[i] == network_of(starting_ip, subnet_mask)
                + 1 + i,
{
    let span: (u32, u32) = usable_span(starting_ip, subnet_mask);
    let first: u32 = span.0;
    let count: u32 = span.1;
    let mut range: Vec<u32> = Vec::new();
    let mut done: u32 = 0;
    while done < count
        invariant
            done <= count,
            first + count <= u32::MAX,
            range@.len() == done,
            forall|i: int| 0 <= i < done ==> #[trigger] range@[i] == first + i,
        decreases count - done,
    {
        range.push(first + done);
        done = done + 1;
    }
    assert(range@ =~= usable_range(starting_ip, subnet_mask));
    range
}

/// The broadcast address of a subnet is never below its network address.
pub proof fn lemma_subnet_bounds(address: u32, mask: u32)
    ensures
        network_of(address, mask) <= broadcast_of(address, mask),
{
    assert((address & mask) <= ((address & mask) | !mask)) by (bit_vector);
}

/// The usable range holds exactly the addresses strictly between the
/// network address and the broadcast address.
pub proof fn lemma_usable_range_contains(address: u32, mask: u32, host: u32)
    ensures
        usable_range(address, mask).contains(host) <==> network_of(address, mask) < host
            < broadcast_of(address, mask),
{
    lemma_subnet_bounds(address, mask);
    let range: Seq<u32> = usable_range(address, mask);
    if network_of(address, mask) < host < broadcast_of(address, mask) {
        let i: int = host - network_of(address, mask) - 1;
        assert(range[i] == host);
    }
}

/// A mask that leaves one host bit or none (a `/31` or a `/32`) leaves no
/// usable address, whatever the address.
pub proof fn lemma_narrow_mask_leaves_no_host(address: u32, mask: u32)
    requires
        mask == 0xffff_ffffu32 || mask == 0xffff_fffeu32,
    ensures
        usable_count(address, mask) == 0,
        usable_range(address, mask) == Seq::<u32>::empty(),
{
    assert(((address & mask) | !mask) - (address & mask) <= 1) by (bit_vector)
        requires
            mask == 0xffff_ffffu32 || mask == 0xffff_fffeu32,
    ;
    assert(usable_range(address, mask) =~= Seq::<u32>::empty());
}

/// Under a mask that leaves the low eight bits to the host (a `/24`), the
/// usable addresses are the 254 addresses that end in 1 to 254.
pub proof fn lemma_class_c_range(address: u32)
    ensures
        usable_count(address, 0xffff_ff00u32) == 254,
        usable_range(address, 0xffff_ff00u32).first() == (address & 0xffff_ff00u32) + 1,
        usable_range(address, 0xffff_ff00u32).last() == (address & 0xffff_ff00u32) + 254,
{
    let mask: u32 = 0xffff_ff00u32;
    assert(((address & mask) | !mask) - (address & mask) == 255) by (bit_vector)
        requires
            mask == 0xffff_ff00u32,
    ;
}

} // verus!
