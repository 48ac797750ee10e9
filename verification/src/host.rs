//! The networks that are in use on the host, and the search through the
//! partition for a block that overlaps none of them.

use vstd::prelude::*;
use vstd::arithmetic::power2::lemma_pow2_adds;
use vstd::arithmetic::power2::lemma_pow2_pos;
use vstd::arithmetic::power2::lemma_pow2_strictly_increases;
use vstd::arithmetic::power2::lemma_pow2_unfold;
use vstd::arithmetic::power2::lemma2_to64;
use vstd::arithmetic::power2::lemma2_to64_rest;
use vstd::arithmetic::power2::pow2;
use crate::network::first_address;
use crate::network::last_address;
use crate::network::SUBNET_MAX;
use crate::network::SUBNET_SPLIT;

verus! {

/// A network that is in use on the host: one of its addresses, as a number,
/// and the number of leading bits that all its addresses share.
#[derive(Clone, Copy, Debug, PartialEq, Eq)]
pub struct HostNetwork {
    address: u32,
    netmask_bits: u8,
}

/// What a host network is to the contracts.
pub struct HostNetworkView {
    pub address: nat,
    pub netmask_bits: nat,
}

impl View for HostNetwork {
    type V = HostNetworkView;

    closed spec fn view(&self) -> HostNetworkView {
        HostNetworkView { address: self.address as nat, netmask_bits: self.netmask_bits as nat }
    }
}

impl HostNetworkView {
    /// The number of addresses of the network.
    pub open spec fn size(&self) -> nat {
        pow2((32 - self.netmask_bits) as nat)
    }

    /// The lowest address of the network.
    pub open spec fn first(&self) -> nat {
        (self.address / self.size()) * self.size()
    }

    /// The highest address of the network.
    pub open spec fn last(&self) -> nat {
        (self.first() + self.size() - 1) as nat
    }

    /// The network and the block with index `n` share an address.
    pub open spec fn overlaps(&self, n: nat) -> bool {
        first_address(n) <= self.last() && self.first() <= last_address(n)
    }
}

impl HostNetwork {
    /// An address has 32 bits, and no netmask has more.
    pub open spec fn wf(&self) -> bool {
        &&& self@.address <= u32::MAX
        &&& self@.netmask_bits <= 32
    }

    /// The network of `address` under a netmask of `netmask_bits` leading
    /// bits; none where the netmask is longer than an address.
    pub fn new(address: u32, netmask_bits: u8) -> (network: Option<HostNetwork>)
        ensures
            network is Some <==> netmask_bits <= 32,
            network is Some ==> network.unwrap().wf() && network.unwrap()@ == (HostNetworkView {
                address: address as nat,
                netmask_bits: netmask_bits as nat,
            }),
    {
        if netmask_bits <= 32 {
            Some(HostNetwork { address, netmask_bits })
        } else {
            None
        }
    }

    /// Returns the lowest and the highest address of the network.
    pub fn bounds(&self) -> (bounds: (u64, u64))
        requires
            self.wf(),
        ensures
            bounds.0 == self@.first(),
            bounds.1 == self@.last(),
    {
        let mut size: u64 = 1;
        let mut bits: u8 = 32;
        proof {
            lemma2_to64();
        }
        while bits > self.netmask_bits
            invariant
                self.netmask_bits <= bits <= 32,
                size == pow2((32 - bits) as nat),
                size <= 0x1_0000_0000,
            decreases bits,
        {
            proof {
                lemma_pow2_unfold((32 - bits + 1) as nat);
                lemma_size_bound((32 - bits) as nat);
            }
            size = size * 2;
            bits = bits - 1;
        }
        proof {
            lemma_pow2_pos((32 - bits) as nat);
            lemma_stretch(self.address as nat, size as nat);
        }
        let first: u64 = (self.address as u64 / size) * size;
        (first, first + size - 1)
    }
}

/// A power of two with an exponent below 32 is at most 2 to the 31st.
proof fn lemma_size_bound(e: nat)
    requires
        e < 32,
    ensures
        0 < pow2(e) <= 0x8000_0000,
{
    lemma2_to64();
    lemma2_to64_rest();
    lemma_pow2_pos(e);
    if e < 31 {
        lemma_pow2_strictly_increases(e, 31);
    }
}

/// Returns the lowest and the highest address of the block with index `n`.
pub fn block_bounds(n: u32) -> (bounds: (u64, u64))
    requires
        n < SUBNET_MAX,
    ensures
        bounds.0 == first_address(n as nat),
        bounds.1 == last_address(n as nat),
{
    let first: u64 = if n < SUBNET_SPLIT {
        172 * 0x100_0000 + (18 + n as u64 / 256) * 0x1_0000 + (n as u64 % 256) * 0x100
    } else {
        192 * 0x100_0000 + 168 * 0x1_0000 + (16 + (n - SUBNET_SPLIT) as u64) * 0x100
    };
    (first, first + 0xff)
}

/// The block with index `n` shares no address with any of the networks
/// `in_use`.
pub open spec fn is_free(n: nat, in_use: Seq<HostNetwork>) -> bool {
    forall|i: int| 0 <= i < in_use.len() ==> !(#[trigger] in_use[i])@.overlaps(n)
}

/// All the networks have a netmask that fits an address.
pub open spec fn all_wf(in_use: Seq<HostNetwork>) -> bool {
    forall|i: int| 0 <= i < in_use.len() ==> (#[trigger] in_use[i]).wf()
}

/// Tells whether the block with index `n` shares no address with any of the
/// networks `in_use`.
pub fn block_is_free(n: u32, in_use: &Vec<HostNetwork>) -> (free: bool)
    requires
        n < SUBNET_MAX,
        all_wf(in_use@),
    ensures
        free == is_free(n as nat, in_use@),
{
    let (first, last) = block_bounds(n);
    let mut i: usize = 0;
    while i < in_use.len()
        invariant
            i <= in_use@.len(),
            all_wf(in_use@),
            first == first_address(n as nat),
            last == last_address(n as nat),
            forall|j: int| 0 <= j < i ==> !(#[trigger] in_use@[j])@.overlaps(n as nat),
        decreases in_use@.len() - i,
    {
        let (low, high) = in_use[i].bounds();
        if first <= high && low <= last {
            return false;
        }
        i += 1;
    }
    true
}

/// Scans the partition from its first block for one that shares no address
/// with any of the networks `in_use`. Returns the index of the first such
/// block, or nothing where every block is taken.
pub fn first_free(in_use: &Vec<HostNetwork>) -> (found: Option<u32>)
    requires
        all_wf(in_use@),
    ensures
        match found {
            Some(n) => {
                &&& n < SUBNET_MAX
                &&& is_free(n as nat, in_use@)
                &&& forall|m: nat| m < n ==> !is_free(m, in_use@)
            },
            None => forall|m: nat| m < SUBNET_MAX ==> !is_free(m, in_use@),
        },
{
    let mut n: u32 = 0;
    while n < SUBNET_MAX
        invariant
            n <= SUBNET_MAX,
            all_wf(in_use@),
            forall|m: nat| m < n ==> !is_free(m, in_use@),
        decreases SUBNET_MAX - n,
    {
        if block_is_free(n, in_use) {
            return Some(n);
        }
        n += 1;
    }
    None
}

/// The network that the block with index `n` makes, once it is in use.
pub closed spec fn network_of_block(n: nat) -> HostNetwork {
    HostNetwork { address: first_address(n) as u32, netmask_bits: 24 }
}

/// The network of a block has the addresses of the block.
pub proof fn lemma_network_of_block(n: nat)
    requires
        n < SUBNET_MAX,
    ensures
        network_of_block(n).wf(),
        network_of_block(n)@.netmask_bits == 24,
        network_of_block(n)@.first() == first_address(n),
        network_of_block(n)@.last() == last_address(n),
{
    lemma2_to64();
    assert(first_address(n) % 256 == 0);
    assert(first_address(n) / 256 * 256 == first_address(n));
}

/// Returns the network that the block with index `n` makes, once it is in
/// use.
pub fn block_network(n: u32) -> (network: HostNetwork)
    requires
        n < SUBNET_MAX,
    ensures
        network == network_of_block(n as nat),
{
    let (first, _) = block_bounds(n);
    HostNetwork { address: first as u32, netmask_bits: 24 }
}

/// No block of the partition shares an address with 172.17.0.0/16, where
/// the host's default bridge network lives.
pub proof fn law_partition_avoids_bridge(n: nat)
    requires
        n < SUBNET_MAX,
    ensures
        last_address(n) < 172 * 0x100_0000 + 17 * 0x1_0000 || 172 * 0x100_0000 + 17 * 0x1_0000
            + 0xffff < first_address(n),
{
}

/// The blocks with the indices `i` and `j` share an address.
pub open spec fn block_overlap(i: nat, j: nat) -> bool {
    first_address(i) <= last_address(j) && first_address(j) <= last_address(i)
}

/// The networks of the first `k` of the blocks `blocks`.
pub open spec fn networks_of(blocks: Seq<nat>, k: int) -> Seq<HostNetwork> {
    Seq::new(k as nat, |j: int| network_of_block(blocks[j]))
}

/// The blocks `blocks` were taken one after the other, each of them free of
/// what was in use then: the networks `in_use` and the networks of the
/// blocks taken before it.
pub open spec fn taken_in_turn(blocks: Seq<nat>, in_use: Seq<HostNetwork>) -> bool {
    forall|k: int|
        0 <= k < blocks.len() ==> #[trigger] blocks[k] < SUBNET_MAX && is_free(
            blocks[k],
            in_use + networks_of(blocks, k),
        )
}

/// Blocks that were taken one after the other, each of them free of what
/// was in use then, are pairwise apart: no two of them are the same block,
/// and no two of them share an address.
pub proof fn law_taken_in_turn_disjoint(blocks: Seq<nat>, in_use: Seq<HostNetwork>, i: int, j: int)
    requires
        taken_in_turn(blocks, in_use),
        0 <= i < j < blocks.len(),
    ensures
        blocks[i] != blocks[j],
        !block_overlap(blocks[i], blocks[j]),
{
    let seen = in_use + networks_of(blocks, j);
    assert(blocks[i] < SUBNET_MAX);
    assert(blocks[j] < SUBNET_MAX);
    assert(seen[in_use.len() + i] == network_of_block(blocks[i]));
    assert(!seen[in_use.len() + i]@.overlaps(blocks[j]));
    lemma_network_of_block(blocks[i]);
}

/// The quotient of `x` by `s` is the number of the stretch of `s` numbers in
/// which `x` lies.
proof fn lemma_stretch(x: nat, s: nat)
    requires
        s > 0,
    ensures
        (x / s) * s <= x < (x / s) * s + s,
{
    vstd::arithmetic::div_mod::lemma_fundamental_div_mod(x as int, s as int);
    vstd::arithmetic::div_mod::lemma_mod_pos_bound(x as int, s as int);
    assert((x / s) * s == s * (x / s)) by (nonlinear_arith);
}

/// A stretch of `s` numbers lies within one stretch of `t * s` numbers.
proof fn lemma_stretch_in_stretch(x: nat, s: nat, t: nat)
    requires
        s > 0,
        t > 0,
    ensures
        (x / (t * s)) * (t * s) <= (x / s) * s,
        (x / s) * s + s <= (x / (t * s)) * (t * s) + t * s,
{
    let big = t * s;
    assert(big > 0) by (nonlinear_arith)
        requires
            s > 0,
            t > 0,
            big == t * s,
    ;
    lemma_stretch(x, s);
    lemma_stretch(x, big);
    let c = x / big;
    let q = x / s;
    // the bounds of the large stretch are multiples of `s`
    assert(c * big == (c * t) * s) by (nonlinear_arith)
        requires
            big == t * s,
    ;
    assert(c * big + big == (c * t + t) * s) by (nonlinear_arith)
        requires
            big == t * s,
    ;
    assert(c * t <= q && q + 1 <= c * t + t) by (nonlinear_arith)
        requires
            s > 0,
            (c * t) * s <= x,
            x < (c * t + t) * s,
            q * s <= x,
            x < q * s + s,
    ;
    assert((c * t) * s <= q * s && q * s + s <= (c * t + t) * s) by (nonlinear_arith)
        requires
            s > 0,
            c * t <= q,
            q + 1 <= c * t + t,
    ;
}

impl HostNetworkView {
    /// The number of leading bits that the netmask of the network and the
    /// netmask of a block have in common.
    pub open spec fn shared_bits(&self) -> nat {
        if self.netmask_bits < 24 {
            self.netmask_bits
        } else {
            24
        }
    }
}

/// A network and a block share an address if and only if their addresses
/// agree in the leading bits that both netmasks cover.
pub proof fn law_overlap_is_shared_prefix(host: HostNetworkView, n: nat)
    requires
        n < SUBNET_MAX,
        host.netmask_bits <= 32,
    ensures
        host.overlaps(n) <==> first_address(n) / pow2((32 - host.shared_bits()) as nat)
            == host.address / pow2((32 - host.shared_bits()) as nat),
{
    lemma2_to64();
    let low = first_address(n);
    let size = host.size();
    lemma_pow2_pos((32 - host.netmask_bits) as nat);
    assert(low % 256 == 0);
    assert((low / 256) * 256 == low);
    lemma_stretch(host.address, size);
    if host.netmask_bits >= 24 {
        // the network lies within one stretch of 256 addresses
        let t = pow2((host.netmask_bits - 24) as nat);
        lemma_pow2_pos((host.netmask_bits - 24) as nat);
        lemma_pow2_adds((host.netmask_bits - 24) as nat, (32 - host.netmask_bits) as nat);
        assert(t * size == 256);
        lemma_stretch_in_stretch(host.address, size, t);
        lemma_stretch(host.address, 256);
        let c = host.address / 256;
        let k = low / 256;
        if host.overlaps(n) {
            assert(k == c) by (nonlinear_arith)
                requires
                    k * 256 <= c * 256 + 255,
                    c * 256 <= k * 256 + 255,
            ;
        }
    } else {
        // the block lies within one stretch of as many addresses as the network has
        let t = pow2((24 - host.netmask_bits) as nat);
        lemma_pow2_pos((24 - host.netmask_bits) as nat);
        lemma_pow2_adds((24 - host.netmask_bits) as nat, 8);
        assert(t * 256 == size);
        lemma_stretch_in_stretch(low, 256, t);
        lemma_stretch(low, size);
        let c = host.address / size;
        let e = low / size;
        if host.overlaps(n) {
            assert(e == c) by (nonlinear_arith)
                requires
                    size > 0,
                    e * size <= c * size + size - 1,
                    c * size <= e * size + size - 1,
            ;
        }
    }
}

} // verus!
