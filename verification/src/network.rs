//! Sandbox networks and the partition of the private address space from
//! which each of them gets a /24 block of its own.
//!
//! The blocks are numbered. The first `SUBNET_SPLIT` of them are the /24
//! blocks of 172.18.0.0 to 172.31.255.0, in address order; the others are
//! the blocks of 192.168.16.0 to 192.168.255.0. The blocks of 172.17.0.0/16,
//! where the host's default bridge network lives, are not among them.

use vstd::prelude::*;
use rand::rngs::ThreadRng;
use rand::Rng;
use crate::decimal::decimal;
use crate::decimal::is_digit;
use crate::decimal::lemma_decimal_digits;
use crate::decimal::lemma_decimal_injective;
use crate::decimal::push_decimal;
use crate::host::all_wf;
use crate::host::block_network;
use crate::host::first_free;
use crate::host::is_free;
use crate::host::network_of_block;
use crate::host::HostNetwork;

verus! {

/// The number of blocks in the first of the two address ranges.
pub const SUBNET_SPLIT: u32 = (31 - 18 + 1) * 256;

/// The number of blocks in the partition.
pub const SUBNET_MAX: u32 = SUBNET_SPLIT + (255 - 16 + 1);

/// The three leading octets of the block with index `n`.
pub open spec fn octets(n: nat) -> (nat, nat, nat) {
    if n < SUBNET_SPLIT {
        (172, 18 + n / 256, n % 256)
    } else {
        (192, 168, (16 + (n - SUBNET_SPLIT)) as nat)
    }
}

/// The decimal text of `head`, a dot, and `rest`.
pub open spec fn dotted(head: nat, rest: Seq<char>) -> Seq<char> {
    decimal(head) + seq!['.'] + rest
}

/// The CIDR text of the /24 block with the given leading octets.
pub open spec fn cidr(block: (nat, nat, nat)) -> Seq<char> {
    dotted(block.0, dotted(block.1, dotted(block.2, seq!['0', '/', '2', '4'])))
}

/// The CIDR text of the block with index `n`.
pub open spec fn subnet_text(n: nat) -> Seq<char> {
    cidr(octets(n))
}

/// The lowest address of the block with index `n`, as a number.
pub open spec fn first_address(n: nat) -> nat {
    octets(n).0 * 0x100_0000 + octets(n).1 * 0x1_0000 + octets(n).2 * 0x100
}

/// The highest address of the block with index `n`, as a number.
pub open spec fn last_address(n: nat) -> nat {
    first_address(n) + 0xff
}

/// Returns the CIDR text of the block with index `n`.
pub fn subnet(n: u32) -> (text: String)
    requires
        n < SUBNET_MAX,
    ensures
        text@ == subnet_text(n as nat),
{
    let mut text = String::new();
    if n < SUBNET_SPLIT {
        let a: u32 = 18 + n / 256;
        let b: u32 = n % 256;
        text.append("172.");
        push_decimal(&mut text, a as u64);
        text.append(".");
        push_decimal(&mut text, b as u64);
    } else {
        let a: u32 = 16 + (n - SUBNET_SPLIT);
        text.append("192.168.");
        push_decimal(&mut text, a as u64);
    }
    text.append(".0/24");
    proof {
        reveal_strlit("172.");
        reveal_strlit("192.168.");
        reveal_strlit(".");
        reveal_strlit(".0/24");
        assert(decimal(172) =~= seq!['1', '7', '2']) by {
            reveal_with_fuel(decimal, 3);
        }
        assert(decimal(192) =~= seq!['1', '9', '2']) by {
            reveal_with_fuel(decimal, 3);
        }
        assert(decimal(168) =~= seq!['1', '6', '8']) by {
            reveal_with_fuel(decimal, 3);
        }
        assert(text@ =~= subnet_text(n as nat));
    }
    text
}

/// Returns the CIDR text of the block with index `n`, or nothing for an
/// index that the partition does not have.
pub fn checked_subnet(n: u32) -> (text: Option<String>)
    ensures
        text is Some <==> n < SUBNET_MAX,
        text is Some ==> text.unwrap()@ == subnet_text(n as nat),
{
    if n < SUBNET_MAX {
        Some(subnet(n))
    } else {
        None
    }
}

/// Two texts that each start with a run of digits and a mark that is no
/// digit are equal only if the runs are equal and what follows the marks is
/// equal.
proof fn lemma_split_at_mark(
    mark: char,
    a: Seq<char>,
    rest_a: Seq<char>,
    b: Seq<char>,
    rest_b: Seq<char>,
)
    requires
        !is_digit(mark),
        forall|i: int| 0 <= i < a.len() ==> is_digit(#[trigger] a[i]),
        forall|i: int| 0 <= i < b.len() ==> is_digit(#[trigger] b[i]),
        a + seq![mark] + rest_a == b + seq![mark] + rest_b,
    ensures
        a == b,
        rest_a == rest_b,
{
    let x = a + seq![mark] + rest_a;
    let y = b + seq![mark] + rest_b;
    if a.len() < b.len() {
        assert(x[a.len() as int] == mark);
        assert(y[a.len() as int] == b[a.len() as int]);
        assert(false);
    }
    if b.len() < a.len() {
        assert(y[b.len() as int] == mark);
        assert(x[b.len() as int] == a[b.len() as int]);
        assert(false);
    }
    assert(a =~= x.take(a.len() as int));
    assert(b =~= y.take(a.len() as int));
    assert(rest_a =~= x.skip(a.len() as int + 1));
    assert(rest_b =~= y.skip(a.len() as int + 1));
}

/// A dotted text tells its head and its rest.
proof fn lemma_dotted_injective(a: nat, rest_a: Seq<char>, b: nat, rest_b: Seq<char>)
    requires
        dotted(a, rest_a) == dotted(b, rest_b),
    ensures
        a == b,
        rest_a == rest_b,
{
    lemma_decimal_digits(a);
    lemma_decimal_digits(b);
    assert(!is_digit('.'));
    lemma_split_at_mark('.', decimal(a), rest_a, decimal(b), rest_b);
    lemma_decimal_injective(a, b);
}

/// Different blocks have different CIDR texts.
pub proof fn lemma_cidr_injective(x: (nat, nat, nat), y: (nat, nat, nat))
    requires
        cidr(x) == cidr(y),
    ensures
        x == y,
{
    let tail = seq!['0', '/', '2', '4'];
    let x1 = dotted(x.1, dotted(x.2, tail));
    let y1 = dotted(y.1, dotted(y.2, tail));
    lemma_dotted_injective(x.0, x1, y.0, y1);
    lemma_dotted_injective(x.1, dotted(x.2, tail), y.1, dotted(y.2, tail));
    lemma_dotted_injective(x.2, tail, y.2, tail);
}

/// Every block of the partition lies in one of the two address ranges.
pub proof fn law_subnet_in_range(n: nat)
    requires
        n < SUBNET_MAX,
    ensures
        octets(n).0 == 172 && 18 <= octets(n).1 <= 31 && octets(n).2 <= 255 || octets(n).0 == 192
            && octets(n).1 == 168 && 16 <= octets(n).2 <= 255,
{
}

/// The index of the block with the given leading octets.
pub open spec fn index_of(block: (nat, nat, nat)) -> nat {
    if block.0 == 172 {
        ((block.1 - 18) * 256 + block.2) as nat
    } else {
        (SUBNET_SPLIT + (block.2 - 16)) as nat
    }
}

/// The partition has no gaps: every /24 block of 172.18.0.0 to 172.31.255.0
/// and of 192.168.16.0 to 192.168.255.0 has an index.
pub proof fn law_partition_complete(block: (nat, nat, nat))
    requires
        block.0 == 172 && 18 <= block.1 <= 31 && block.2 <= 255 || block.0 == 192 && block.1 == 168
            && 16 <= block.2 <= 255,
    ensures
        index_of(block) < SUBNET_MAX,
        octets(index_of(block)) == block,
{
}

/// The blocks are laid out in the order of their indices, each wholly below
/// the next.
pub proof fn law_subnets_ordered(i: nat, j: nat)
    requires
        i < j < SUBNET_MAX,
    ensures
        last_address(i) < first_address(j),
{
}

/// The blocks of two different indices share no address.
pub proof fn law_subnets_disjoint(i: nat, j: nat)
    requires
        i < SUBNET_MAX,
        j < SUBNET_MAX,
        i != j,
    ensures
        last_address(i) < first_address(j) || last_address(j) < first_address(i),
{
    if i < j {
        law_subnets_ordered(i, j);
    } else {
        law_subnets_ordered(j, i);
    }
}

/// Two different indices give two different CIDR texts.
pub proof fn law_subnets_distinct(i: nat, j: nat)
    requires
        i < SUBNET_MAX,
        j < SUBNET_MAX,
        i != j,
    ensures
        subnet_text(i) != subnet_text(j),
{
    if subnet_text(i) == subnet_text(j) {
        lemma_cidr_injective(octets(i), octets(j));
        law_subnets_disjoint(i, j);
    }
}

/// The name of the project, under which the harness makes its networks.
pub const PROJECT: &'static str = "dns-test";

/// The number of times that an allocation tries to create its network.
///
/// Each try picks one of the `SUBNET_MAX` blocks at random. With one other
/// network alive, a try hits its block with probability 1/3824, about
/// 2.6e-4, and all three tries do so with probability 1.8e-11. With `k`
/// networks alive a try fails with probability `k`/3824. A network that was
/// made outside, over a whole /16, takes 256 blocks at once: a try then
/// fails with probability 6.7e-2 and all three with 3e-4.
pub const NUM_TRIES: usize = 3;

/// The count that the first network of a process gets.
pub const FIRST_COUNT: usize = 1;

/// Takes the next count from a process-wide counter: returns its value and
/// moves it on by one, from the largest value to zero.
pub fn network_count(counter: &mut usize) -> (count: usize)
    ensures
        count == *old(counter),
        *final(counter) == if *old(counter) == usize::MAX {
            0
        } else {
            *old(counter) + 1
        },
{
    let count: usize = *counter;
    *counter = if count == usize::MAX {
        0
    } else {
        count + 1
    };
    count
}

/// The name of the network that the process `pid` makes as its `count`-th,
/// under the project name `prefix`.
pub open spec fn network_name(prefix: Seq<char>, pid: nat, count: nat) -> Seq<char> {
    prefix + seq!['-'] + decimal(pid) + seq!['-'] + decimal(count)
}

/// Under one project name, two networks have the same name only if they
/// were made by the same process under the same count.
pub proof fn law_names_unique(
    prefix: Seq<char>,
    pid: nat,
    count: nat,
    other_pid: nat,
    other_count: nat,
)
    requires
        network_name(prefix, pid, count) == network_name(prefix, other_pid, other_count),
    ensures
        pid == other_pid,
        count == other_count,
{
    let x = network_name(prefix, pid, count);
    let y = network_name(prefix, other_pid, other_count);
    let tail_x = decimal(pid) + seq!['-'] + decimal(count);
    let tail_y = decimal(other_pid) + seq!['-'] + decimal(other_count);
    assert(tail_x =~= x.skip(prefix.len() as int + 1));
    assert(tail_y =~= y.skip(prefix.len() as int + 1));
    lemma_decimal_digits(pid);
    lemma_decimal_digits(other_pid);
    assert(!is_digit('-'));
    lemma_split_at_mark(
        '-',
        decimal(pid),
        decimal(count),
        decimal(other_pid),
        decimal(other_count),
    );
    lemma_decimal_injective(pid, other_pid);
    lemma_decimal_injective(count, other_count);
}

/// Collects all important configs.
#[derive(Clone, Debug)]
pub struct NetworkConfig {
    /// The CIDR text of the subnet, e.g. "172.21.0.0/24".
    subnet: String,
    /// The index of the subnet's block in the partition.
    index: u32,
}

impl NetworkConfig {
    /// The CIDR text of the subnet.
    pub closed spec fn subnet(&self) -> Seq<char> {
        self.subnet@
    }

    /// The index of the subnet's block in the partition.
    pub closed spec fn index(&self) -> nat {
        self.index as nat
    }

    /// The subnet is a block of the partition, and the text is its CIDR text.
    pub open spec fn wf(&self) -> bool {
        &&& self.index() < SUBNET_MAX
        &&& self.subnet() == subnet_text(self.index())
    }
}

/// What a network is to the contracts: its name and its config.
pub struct NetworkView {
    pub name: Seq<char>,
    pub config: NetworkConfig,
}

/// Represents a network in which to put containers into.
#[derive(Clone, Debug)]
pub struct Network {
    name: String,
    config: NetworkConfig,
}

impl View for Network {
    type V = NetworkView;

    closed spec fn view(&self) -> NetworkView {
        NetworkView { name: self.name@, config: self.config }
    }
}

impl Network {
    /// The network's subnet is a block of the partition.
    pub open spec fn wf(&self) -> bool {
        self@.config.wf()
    }

    /// Returns the name of the network.
    pub fn name(&self) -> (name: &str)
        ensures
            name@ == self@.name,
    {
        self.name.as_str()
    }

    /// Returns the subnet mask
    pub fn netmask(&self) -> (subnet: &str)
        ensures
            subnet@ == self@.config.subnet(),
    {
        self.config.subnet.as_str()
    }

    /// Returns the network as it shows among the networks in use on the
    /// host.
    pub fn host_network(&self) -> (network: HostNetwork)
        requires
            self.wf(),
        ensures
            network == network_of_block(self@.config.index()),
    {
        block_network(self.config.index)
    }
}

/// The address space had no free block for a network: every try to create
/// one was refused.
#[derive(Clone, Copy, Debug, PartialEq, Eq, Structural)]
pub struct AllocationError {
    /// The number of tries that were made.
    pub tries: usize,
}

/// The text of an `AllocationError` after `tries` tries.
pub open spec fn exhausted_text(tries: nat) -> Seq<char> {
    "failed to allocate a network in the address ranges\n- 172.18.0.0/16 - 172.31.0.0/16 and\n- 192.168.16.0/20 - 192.168.24.0/20\n\nafter "@
        + decimal(tries) + " tries"@
}

impl AllocationError {
    /// Says in words what failed, with the address ranges that were tried and
    /// the number of tries.
    pub fn message(&self) -> (text: String)
        ensures
            text@ == exhausted_text(self.tries as nat),
    {
        let mut text = String::from_str(
            "failed to allocate a network in the address ranges\n- 172.18.0.0/16 - 172.31.0.0/16 and\n- 192.168.16.0/20 - 192.168.24.0/20\n\nafter ",
        );
        push_decimal(&mut text, self.tries as u64);
        text.append(" tries");
        text
    }
}

/// `rand::rngs::ThreadRng`, the handle to the generator of the calling
/// thread. Nothing of what it holds is known here.
#[verifier::external_type_specification]
#[verifier::external_body]
pub struct ExThreadRng(ThreadRng);

/// `rand::thread_rng` hands out the generator of the calling thread, which
/// the operating system has seeded. Nothing is claimed of the generator. The
/// call panics where the operating system gives no seed.
pub assume_specification[ rand::thread_rng ]() -> (rng: ThreadRng)
;

/// `rand::Rng::gen_range` on the range from zero up to `bound`, without
/// `bound`: the number drawn lies in that range. Which number is drawn is
/// left open. The range must not be empty.
#[verifier::external_body]
fn pick_below(rng: &mut ThreadRng, bound: u32) -> (pick: u32)
    requires
        bound > 0,
    ensures
        pick < bound,
{
    rng.gen_range(0..bound)
}

/// An allocation of a network, with the number of tries that it has made.
/// It leads to an `Attempt` for each try, and each refused attempt leads
/// back to the allocation.
pub struct Allocation {
    name: String,
    tries: usize,
}

/// One try of an allocation: a network with a name and a subnet that is
/// still to be created.
pub struct Attempt {
    name: String,
    tries: usize,
    config: NetworkConfig,
}

/// What an allocation does next.
pub enum Step {
    /// Try to create the network of this attempt.
    Try(Attempt),
    /// Give up: no try is left, or no block is free.
    Exhausted(AllocationError),
}

impl Allocation {
    /// The name of the network to be.
    pub closed spec fn name(&self) -> Seq<char> {
        self.name@
    }

    /// The number of tries that were made.
    pub closed spec fn tries(&self) -> nat {
        self.tries as nat
    }

    /// The step that tries the block with index `pick`.
    pub open spec fn tries_block(&self, step: Step, pick: nat) -> bool {
        &&& step is Try
        &&& step->Try_0.name() == self.name()
        &&& step->Try_0.tries() == self.tries() + 1
        &&& step->Try_0.config().wf()
        &&& step->Try_0.config().index() == pick
    }

    /// The step that gives up.
    pub open spec fn gives_up(&self, step: Step) -> bool {
        step == Step::Exhausted(AllocationError { tries: self.tries() as usize })
    }

    /// Starts the allocation of the network that the process `pid` makes as
    /// its `count`-th, under the project name `network_name`.
    pub fn new(pid: u32, network_name: &str, count: usize) -> (allocation: Allocation)
        ensures
            allocation.name() == self::network_name(network_name@, pid as nat, count as nat),
            allocation.tries() == 0,
    {
        let mut name = String::from_str(network_name);
        name.append("-");
        push_decimal(&mut name, pid as u64);
        name.append("-");
        push_decimal(&mut name, count as u64);
        proof {
            reveal_strlit("-");
        }
        Allocation { name, tries: 0 }
    }

    /// The next step where the block with index `pick` is the one to try:
    /// an attempt on that block while fewer than `NUM_TRIES` tries were
    /// made, else the error.
    pub fn next_with(self, pick: u32) -> (step: Step)
        requires
            pick < SUBNET_MAX,
        ensures
            self.tries() >= NUM_TRIES ==> self.gives_up(step),
            self.tries() < NUM_TRIES ==> self.tries_block(step, pick as nat),
    {
        if self.tries >= NUM_TRIES {
            Step::Exhausted(AllocationError { tries: self.tries })
        } else {
            Step::Try(
                Attempt {
                    name: self.name,
                    tries: self.tries + 1,
                    config: NetworkConfig { subnet: subnet(pick), index: pick },
                },
            )
        }
    }

    /// The next step by random choice: an attempt on a block picked at
    /// random while fewer than `NUM_TRIES` tries were made, else the error.
    pub fn next(self) -> (step: Step)
        ensures
            self.tries() >= NUM_TRIES ==> self.gives_up(step),
            self.tries() < NUM_TRIES ==> exists|pick: nat|
                pick < SUBNET_MAX && self.tries_block(step, pick),
    {
        if self.tries >= NUM_TRIES {
            Step::Exhausted(AllocationError { tries: self.tries })
        } else {
            let mut rng = rand::thread_rng();
            let pick: u32 = pick_below(&mut rng, SUBNET_MAX);
            let step = self.next_with(pick);
            assert(self.tries_block(step, pick as nat));
            step
        }
    }

    /// The next step by scan: an attempt on the first block that shares no
    /// address with the networks `in_use`, while there is such a block and
    /// fewer than `NUM_TRIES` tries were made, else the error.
    pub fn next_scanned(self, in_use: &Vec<HostNetwork>) -> (step: Step)
        requires
            all_wf(in_use@),
        ensures
            self.tries() >= NUM_TRIES ==> self.gives_up(step),
            self.tries() < NUM_TRIES ==> if exists|n: nat| n < SUBNET_MAX && is_free(n, in_use@) {
                exists|pick: nat|
                    {
                        &&& pick < SUBNET_MAX
                        &&& is_free(pick, in_use@)
                        &&& forall|m: nat| m < pick ==> !is_free(m, in_use@)
                        &&& self.tries_block(step, pick)
                    }
            } else {
                self.gives_up(step)
            },
    {
        if self.tries >= NUM_TRIES {
            return Step::Exhausted(AllocationError { tries: self.tries });
        }
        match first_free(in_use) {
            Some(pick) => {
                let step = self.next_with(pick);
                assert(is_free(pick as nat, in_use@) && self.tries_block(step, pick as nat));
                step
            },
            None => Step::Exhausted(AllocationError { tries: self.tries }),
        }
    }
}

impl Attempt {
    /// The name of the network to create.
    pub closed spec fn name(&self) -> Seq<char> {
        self.name@
    }

    /// The number of tries that were made, this one among them.
    pub closed spec fn tries(&self) -> nat {
        self.tries as nat
    }

    /// The subnet of the network to create.
    pub closed spec fn config(&self) -> NetworkConfig {
        self.config
    }

    /// Returns the name of the network to create.
    pub fn network_name(&self) -> (name: &str)
        ensures
            name@ == self.name(),
    {
        self.name.as_str()
    }

    /// Returns the CIDR text of the subnet of the network to create.
    pub fn subnet(&self) -> (subnet: &str)
        ensures
            subnet@ == self.config().subnet(),
    {
        self.config.subnet.as_str()
    }

    /// The network was created: the attempt becomes the network.
    pub fn created(self) -> (network: Network)
        ensures
            network@.name == self.name(),
            network@.config == self.config(),
    {
        Network { name: self.name, config: self.config }
    }

    /// The creation was refused: the allocation goes on.
    pub fn refused(self) -> (allocation: Allocation)
        ensures
            allocation.name() == self.name(),
            allocation.tries() == self.tries(),
    {
        Allocation { name: self.name, tries: self.tries }
    }
}

} // verus!
