//! Sampling addresses from published networks, and the names of edge locations.
use crate::config;
use crate::order;
use crate::random;
use crate::random::Source;
use crate::text;
use std::collections::HashSet;
use vstd::hash_map::StringHashMap;
use vstd::prelude::*;

verus! {

broadcast use vstd::std_specs::hash::group_hash_axioms;

/// How many addresses are sampled where no limit is given; without one there is still this cap.
pub const DEFAULT_MAX_IPS: usize = 5500;

/// An address.
#[derive(Clone, Copy, Debug, PartialEq, Eq, Structural)]
pub enum Ip {
    V4(u32),
    V6(u128),
}

/// A network: one of its addresses and the length of its prefix.
#[derive(Clone, Copy, Debug, PartialEq, Eq, Structural)]
#[allow(inconsistent_fields)]
pub enum Network {
    V4 { address: u32, prefix: u8 },
    V6 { address: u128, prefix: u8 },
}

impl Network {
    /// Whether the prefix is no longer than an address.
    pub open spec fn well_formed(self) -> bool {
        match self {
            Network::V4 { address: _, prefix } => prefix <= 32,
            Network::V6 { address: _, prefix } => prefix <= 128,
        }
    }

    /// Whether addresses can be sampled: an IPv4 network of all addresses has a size that does not
    /// fit the 32 bits that sizes of IPv4 networks have.
    pub open spec fn sampleable(self) -> bool {
        self.well_formed() && match self {
            Network::V4 { address: _, prefix } => prefix >= 1,
            Network::V6 { .. } => true,
        }
    }

    /// How many addresses the network has.
    pub open spec fn size(self) -> nat {
        match self {
            Network::V4 { address: _, prefix } => vstd::arithmetic::power2::pow2((32 - prefix) as nat),
            Network::V6 { address: _, prefix } => vstd::arithmetic::power2::pow2((128 - prefix) as nat),
        }
    }

    /// The lowest address of the network, as a number.
    pub open spec fn base(self) -> int {
        match self {
            Network::V4 { address, prefix: _ } => address - address as int % self.size() as int,
            Network::V6 { address, prefix: _ } => address - address as int % self.size() as int,
        }
    }

    /// The address that stands `offset` after the lowest one.
    pub open spec fn nth(self, offset: int) -> Ip {
        match self {
            Network::V4 { .. } => Ip::V4((self.base() + offset) as u32),
            Network::V6 { .. } => Ip::V6((self.base() + offset) as u128),
        }
    }

    /// Whether `ip` is an address of the network.
    pub open spec fn contains(self, ip: Ip) -> bool {
        match (self, ip) {
            (Network::V4 { .. }, Ip::V4(a)) => self.base() <= a < self.base() + self.size(),
            (Network::V6 { .. }, Ip::V6(a)) => self.base() <= a < self.base() + self.size(),
            _ => false,
        }
    }

    /// Offsets below the size lead to addresses of the network, and different ones to different
    /// addresses.
    pub proof fn lemma_nth(self, a: int, b: int)
        requires
            self.well_formed(),
            0 <= a < self.size(),
            0 <= b < self.size(),
        ensures
            self.contains(self.nth(a)),
            0 <= self.base(),
            match self.nth(a) {
                Ip::V4(x) => x == self.base() + a,
                Ip::V6(x) => x == self.base() + a,
            },
            self.nth(a) == self.nth(b) ==> a == b,
    {
        match self {
            Network::V4 { address, prefix } => {
                vstd::arithmetic::power2::lemma2_to64();
                lemma_block(address as int, 32, (32 - prefix) as nat);
            },
            Network::V6 { address, prefix } => {
                lemma_pow2_128();
                lemma_block(address as int, 128, (128 - prefix) as nat);
            },
        }
    }
}

proof fn lemma_pow2_128()
    ensures
        vstd::arithmetic::power2::pow2(128) == 0x1_0000_0000_0000_0000_0000_0000_0000_0000,
{
    vstd::arithmetic::power2::lemma2_to64();
    vstd::arithmetic::power2::lemma_pow2_adds(64, 64);
    assert(vstd::arithmetic::power2::pow2(64) == 0x1_0000_0000_0000_0000);
    assert(0x1_0000_0000_0000_0000 * 0x1_0000_0000_0000_0000
        == 0x1_0000_0000_0000_0000_0000_0000_0000_0000) by (nonlinear_arith);
}

/// The block of `2^e` numbers in which `a` lies does not reach past `2^bits`.
proof fn lemma_block(a: int, bits: nat, e: nat)
    requires
        e <= bits,
        0 <= a < vstd::arithmetic::power2::pow2(bits),
    ensures
        0 <= a - a % vstd::arithmetic::power2::pow2(e) as int,
        a - a % vstd::arithmetic::power2::pow2(e) as int + vstd::arithmetic::power2::pow2(e) <= vstd::arithmetic::power2::pow2(bits),
{
    let s = vstd::arithmetic::power2::pow2(e) as int;
    let t = vstd::arithmetic::power2::pow2((bits - e) as nat) as int;
    vstd::arithmetic::power2::lemma_pow2_pos(e);
    vstd::arithmetic::power2::lemma_pow2_pos((bits - e) as nat);
    vstd::arithmetic::power2::lemma_pow2_adds(e, (bits - e) as nat);
    vstd::arithmetic::div_mod::lemma_fundamental_div_mod(a, s);
    let q = a / s;
    assert(s * t == vstd::arithmetic::power2::pow2(bits));
    assert(q < t) by (nonlinear_arith)
        requires
            s * q <= a,
            a < s * t,
            s > 0,
    ;
    assert(s * q + s <= s * t) by (nonlinear_arith)
        requires
            q + 1 <= t,
            s > 0,
    ;
    assert(0 <= a % s);
    assert(q >= 0) by {
        vstd::arithmetic::div_mod::lemma_div_pos_is_pos(a, s);
    }
    assert(s * q >= 0) by (nonlinear_arith)
        requires
            s > 0,
            q >= 0,
    ;
}

// ---- what `ipnetwork` and `rand` are trusted for ----

/// The network that the parser of `ipnetwork` reads in a text, if it reads one: a function of the
/// text alone.
pub uninterp spec fn parsed_network(s: Seq<char>) -> Option<Network>;

/// Calls `ipnetwork::IpNetwork::from_str`, whose result `parsed_network` names. The prefix that it
/// reads is no longer than an address. A text that is an address by itself is read as the network
/// of that one address.
#[verifier::external_body]
fn parse_network(s: &str) -> (r: Option<Network>)
    ensures
        r == parsed_network(s@),
        r matches Some(n) ==> n.well_formed(),
{
    match s.parse::<ipnetwork::IpNetwork>() {
        Ok(ipnetwork::IpNetwork::V4(n)) => {
            Some(Network::V4 { address: n.ip().into(), prefix: n.prefix() })
        },
        Ok(ipnetwork::IpNetwork::V6(n)) => {
            Some(Network::V6 { address: n.ip().into(), prefix: n.prefix() })
        },
        Err(_) => None,
    }
}

/// Calls `ipnetwork::Ipv4Network::network`: the address with its bits after the prefix cleared,
/// which is the lowest address of the network.
#[verifier::external_body]
fn v4_base(address: u32, prefix: u8) -> (r: u32)
    requires
        prefix <= 32,
    ensures
        r == (Network::V4 { address, prefix }).base(),
{
    ipnetwork::Ipv4Network::new(address.into(), prefix).unwrap().network().into()
}

/// Calls `ipnetwork::Ipv6Network::network`: the address with its bits after the prefix cleared,
/// which is the lowest address of the network.
#[verifier::external_body]
fn v6_base(address: u128, prefix: u8) -> (r: u128)
    requires
        prefix <= 128,
    ensures
        r == (Network::V6 { address, prefix }).base(),
{
    ipnetwork::Ipv6Network::new(address.into(), prefix).unwrap().network().into()
}

/// Calls `ipnetwork::Ipv4Network::size`: two to the power of the number of bits after the prefix,
/// computed in 32 bits.
#[verifier::external_body]
fn v4_size(address: u32, prefix: u8) -> (r: u32)
    requires
        1 <= prefix <= 32,
    ensures
        r == (Network::V4 { address, prefix }).size(),
{
    ipnetwork::Ipv4Network::new(address.into(), prefix).unwrap().size()
}

/// Calls `ipnetwork::Ipv4Network::iter`, which gives every address of the network once, from the
/// lowest to the highest.
#[verifier::external_body]
fn v4_addresses(address: u32, prefix: u8) -> (r: Vec<u32>)
    requires
        1 <= prefix <= 32,
    ensures
        r@ == Seq::new(
            (Network::V4 { address, prefix }).size(),
            |i: int| ((Network::V4 { address, prefix }).base() + i) as u32,
        ),
{
    ipnetwork::Ipv4Network::new(address.into(), prefix).unwrap().iter().map(u32::from).collect()
}

/// Calls `rand::Rng::gen_range` on the numbers below `n`. Which of them comes out is a matter of
/// chance; that it was drawn out of `n` goes into the record of the source. An empty range makes it
/// panic.
#[verifier::external_body]
pub(crate) fn random_below(source: &mut Source, n: u128) -> (r: u128)
    requires
        n > 0,
        random::is_record(old(source)@),
    ensures
        r < n,
        final(source)@ == old(source)@.push((n as nat, r)),
        random::is_record(final(source)@),
{
    rand::Rng::gen_range(&mut rand::thread_rng(), 0..n)
}

/// Calls `rand::Rng::gen`. Which number comes out is a matter of chance; that it was drawn out of all
/// numbers of 128 bits goes into the record of the source.
#[verifier::external_body]
fn random_u128(source: &mut Source) -> (r: u128)
    requires
        random::is_record(old(source)@),
    ensures
        final(source)@ == old(source)@.push((vstd::arithmetic::power2::pow2(128), r)),
        random::is_record(final(source)@),
{
    rand::Rng::gen(&mut rand::thread_rng())
}

/// Calls `rand::seq::SliceRandom::shuffle`, which swaps items of the slice. In which order they end
/// up is a matter of chance.
#[verifier::external_body]
fn shuffle<T>(v: &mut Vec<T>)
    ensures
        final(v)@.to_multiset() == old(v)@.to_multiset(),
        random::is_shuffled(old(v)@, final(v)@),
{
    rand::seq::SliceRandom::shuffle(v.as_mut_slice(), &mut rand::thread_rng())
}

// ---- sets of addresses ----

/// A set of addresses.
#[derive(Debug)]
pub struct IpSet {
    v4: HashSet<u32>,
    v6: HashSet<u128>,
}

impl IpSet {
    /// Whether `ip` is in the set.
    pub closed spec fn has(self, ip: Ip) -> bool {
        match ip {
            Ip::V4(a) => self.v4@.contains(a),
            Ip::V6(a) => self.v6@.contains(a),
        }
    }
}

impl View for IpSet {
    type V = Set<Ip>;

    open spec fn view(&self) -> Set<Ip> {
        Set::new(|ip: Ip| self.has(ip))
    }
}

impl IpSet {
    /// The empty set.
    pub fn new() -> (r: IpSet)
        ensures
            r@ == Set::<Ip>::empty(),
    {
        let r = IpSet { v4: HashSet::new(), v6: HashSet::new() };
        assert(r@ =~= Set::<Ip>::empty());
        r
    }

    /// Puts `ip` into the set.
    pub fn insert(&mut self, ip: Ip)
        ensures
            final(self)@ == old(self)@.insert(ip),
    {
        match ip {
            Ip::V4(a) => {
                self.v4.insert(a);
            },
            Ip::V6(a) => {
                self.v6.insert(a);
            },
        }
        assert(self@ =~= old(self)@.insert(ip));
    }

    /// Whether `ip` is in the set.
    pub fn contains(&self, ip: Ip) -> (r: bool)
        ensures
            r == self@.contains(ip),
    {
        match ip {
            Ip::V4(a) => self.v4.contains(&a),
            Ip::V6(a) => self.v6.contains(&a),
        }
    }
}

// ---- sampling one network ----

/// The addresses that a series of drawn offsets yields: an offset that was drawn before, or whose
/// address is excluded, yields none.
pub open spec fn yielded(net: Network, exclude: Set<Ip>, draws: Seq<u128>) -> Seq<Ip>
    decreases draws.len(),
{
    if draws.len() == 0 {
        Seq::empty()
    } else {
        let before = yielded(net, exclude, draws.drop_last());
        let ip = net.nth(draws.last() as int);
        if draws.drop_last().contains(draws.last()) || exclude.contains(ip) {
            before
        } else {
            before.push(ip)
        }
    }
}

/// The record of draws that were each made out of `n` outcomes.
pub open spec fn asked(n: nat, draws: Seq<u128>) -> Seq<(nat, u128)> {
    draws.map_values(|d: u128| (n, d))
}

/// Whether `draws` is a series of draws that was ended in time: each offset was drawn out of all
/// offsets of the network, and drawing went on until `take` addresses were found or eight draws were
/// made for each of them.
pub open spec fn complete_draws(
    net: Network,
    exclude: Set<Ip>,
    take: nat,
    draws: Seq<u128>,
) -> bool {
    &&& random::is_record(asked(net.size(), draws))
    &&& forall|i: int| 0 <= i < draws.len() ==> #[trigger] draws[i] < net.size()
    &&& draws.len() <= take * 8
    &&& yielded(net, exclude, draws).len() <= take
    &&& yielded(net, exclude, draws).len() == take || draws.len() == take * 8
    &&& draws.len() > 0 ==> yielded(net, exclude, draws.drop_last()).len() < take
}

/// The addresses of `net` that are not excluded, from the lowest to the highest, out of its first
/// `n`.
pub open spec fn unexcluded(net: Network, exclude: Set<Ip>, n: nat) -> Seq<Ip>
    decreases n,
{
    if n == 0 {
        Seq::empty()
    } else {
        let before = unexcluded(net, exclude, (n - 1) as nat);
        let ip = net.nth(n - 1);
        if exclude.contains(ip) {
            before
        } else {
            before.push(ip)
        }
    }
}

/// Whether an IPv4 network is so small that all its addresses are taken. Addresses of an IPv6
/// network are always drawn.
pub open spec fn taken_whole(net: Network, take: usize) -> bool {
    net is V4 && net.size() <= take
}

/// Whether `added` is what sampling up to `take` addresses of `net` may give.
pub open spec fn sampled(net: Network, exclude: Set<Ip>, take: usize, added: Seq<Ip>) -> bool {
    if taken_whole(net, take) {
        added == unexcluded(net, exclude, net.size())
    } else {
        exists|draws: Seq<u128>| #[trigger]
            complete_draws(net, exclude, take as nat, draws) && added == yielded(
                net,
                exclude,
                draws,
            )
    }
}

/// The address `offset` after the lowest address of a network.
pub fn address_at(net: &Network, offset: u128) -> (r: Ip)
    requires
        net.well_formed(),
        offset < net.size(),
    ensures
        r == net.nth(offset as int),
        net.contains(r),
{
    proof {
        net.lemma_nth(offset as int, offset as int);
    }
    match net {
        Network::V4 { address, prefix } => {
            let base: u32 = v4_base(*address, *prefix);
            Ip::V4((base as u128 + offset) as u32)
        },
        Network::V6 { address, prefix } => {
            let base: u128 = v6_base(*address, *prefix);
            Ip::V6(base + offset)
        },
    }
}

/// Takes one drawn offset into account: its address is appended to `out` unless the offset was
/// seen before or the address is excluded. Tells whether it was appended.
pub fn offer(
    net: &Network,
    offset: u128,
    exclude: &IpSet,
    seen: &mut HashSet<u128>,
    out: &mut Vec<Ip>,
) -> (r: bool)
    requires
        net.well_formed(),
        offset < net.size(),
    ensures
        r == (!old(seen)@.contains(offset) && !exclude@.contains(net.nth(offset as int))),
        final(seen)@ == old(seen)@.insert(offset),
        final(out)@ == if r {
            old(out)@.push(net.nth(offset as int))
        } else {
            old(out)@
        },
{
    if seen.insert(offset) {
        let ip = address_at(net, offset);
        if !exclude.contains(ip) {
            out.push(ip);
            return true;
        }
    } else {
        assert(old(seen)@ =~= old(seen)@.insert(offset));
    }
    false
}

/// Two to the power of `e`.
fn power_of_two(e: u8) -> (r: u128)
    requires
        e < 128,
    ensures
        r == vstd::arithmetic::power2::pow2(e as nat),
{
    let mut r: u128 = 1;
    let mut i: u8 = 0;
    proof {
        vstd::arithmetic::power2::lemma2_to64();
        lemma_pow2_128();
    }
    while i < e
        invariant
            i <= e < 128,
            r == vstd::arithmetic::power2::pow2(i as nat),
            vstd::arithmetic::power2::pow2(128) == 0x1_0000_0000_0000_0000_0000_0000_0000_0000,
        decreases e - i,
    {
        proof {
            vstd::arithmetic::power2::lemma_pow2_unfold((i + 1) as nat);
            vstd::arithmetic::power2::lemma_pow2_strictly_increases((i + 1) as nat, 128);
        }
        r = r * 2;
        i += 1;
    }
    r
}

/// Draws the offset of an address of a network, out of all its offsets.
fn draw_offset(source: &mut Source, net: &Network) -> (r: u128)
    requires
        net.sampleable(),
        random::is_record(old(source)@),
    ensures
        r < net.size(),
        final(source)@ == old(source)@.push((net.size(), r)),
        random::is_record(final(source)@),
{
    match net {
        Network::V4 { address, prefix } => {
            let size: u32 = v4_size(*address, *prefix);
            proof {
                vstd::arithmetic::power2::lemma_pow2_pos((32 - *prefix) as nat);
            }
            random_below(source, size as u128)
        },
        Network::V6 { address: _, prefix } => {
            let bits: u8 = 128 - *prefix;
            if bits >= 128 {
                proof {
                    lemma_pow2_128();
                }
                random_u128(source)
            } else {
                proof {
                    vstd::arithmetic::power2::lemma_pow2_pos(bits as nat);
                }
                random_below(source, power_of_two(bits))
            }
        },
    }
}

/// Draws addresses of a network at random until `take` of them are found or eight draws were made
/// for each.
fn sample_by_chance(net: &Network, take: usize, out: &mut Vec<Ip>, exclude: &IpSet)
    requires
        net.sampleable(),
        take <= usize::MAX / 8,
    ensures
        final(out)@.len() >= old(out)@.len(),
        final(out)@.take(old(out)@.len() as int) == old(out)@,
        exists|draws: Seq<u128>| #[trigger]
            complete_draws(*net, exclude@, take as nat, draws) && final(out)@.skip(
                old(out)@.len() as int,
            ) == yielded(*net, exclude@, draws),
{
    let mut source = Source::new();
    let mut seen: HashSet<u128> = HashSet::new();
    let mut hit: usize = 0;
    let mut attempts: usize = 0;
    let most: usize = take * 8;
    let ghost mut draws: Seq<u128> = Seq::empty();
    let ghost start = old(out)@.len() as int;
    proof {
        assert(out@.skip(start) =~= Seq::<Ip>::empty());
        assert(out@.take(start) =~= old(out)@);
        assert(seen@ =~= draws.to_set());
        assert(source@ =~= asked(net.size(), draws));
    }
    while hit < take && attempts < most
        invariant
            net.sampleable(),
            most == take * 8,
            attempts <= most,
            hit <= take,
            start == old(out)@.len(),
            out@.len() == start + hit,
            out@.take(start) == old(out)@,
            draws.len() == attempts,
            out@.skip(start) == yielded(*net, exclude@, draws),
            seen@ == draws.to_set(),
            source@ == asked(net.size(), draws),
            random::is_record(source@),
            forall|i: int| 0 <= i < draws.len() ==> #[trigger] draws[i] < net.size(),
            draws.len() > 0 ==> yielded(*net, exclude@, draws.drop_last()).len() < take,
        decreases most - attempts,
    {
        let ghost before = out@;
        let offset: u128 = draw_offset(&mut source, net);
        if offer(net, offset, exclude, &mut seen, out) {
            hit += 1;
        }
        attempts += 1;
        proof {
            let next = draws.push(offset);
            assert(next.drop_last() =~= draws);
            assert(asked(net.size(), next) =~= asked(net.size(), draws).push((net.size(), offset)));
            assert(draws.to_set().contains(offset) == draws.contains(offset));
            assert(next.to_set() =~= draws.to_set().insert(offset)) by {
                assert(next[draws.len() as int] == offset);
                assert forall|x: u128| draws.contains(x) implies next.contains(x) by {
                    let k = choose|k: int| 0 <= k < draws.len() && draws[k] == x;
                    assert(next[k] == x);
                }
            }
            assert(out@.take(start) =~= before.take(start));
            assert(out@.skip(start) =~= yielded(*net, exclude@, next));
            draws = next;
        }
    }
    proof {
        assert(complete_draws(*net, exclude@, take as nat, draws));
    }
}

/// Appends every address of an IPv4 network that is not excluded.
fn take_whole(address: u32, prefix: u8, out: &mut Vec<Ip>, exclude: &IpSet)
    requires
        1 <= prefix <= 32,
    ensures
        final(out)@ == old(out)@ + unexcluded(
            Network::V4 { address, prefix },
            exclude@,
            (Network::V4 { address, prefix }).size(),
        ),
{
    let all = v4_addresses(address, prefix);
    let ghost net = Network::V4 { address, prefix };
    let n: usize = all.len();
    let mut i: usize = 0;
    assert(out@ =~= old(out)@ + unexcluded(net, exclude@, 0));
    while i < n
        invariant
            i <= n,
            n == all@.len(),
            net == (Network::V4 { address, prefix }),
            net.well_formed(),
            all@ == Seq::new(net.size(), |k: int| (net.base() + k) as u32),
            out@ == old(out)@ + unexcluded(net, exclude@, i as nat),
        decreases n - i,
    {
        let ip = Ip::V4(all[i]);
        assert(ip == net.nth(i as int));
        if !exclude.contains(ip) {
            out.push(ip);
        }
        assert(out@ =~= old(out)@ + unexcluded(net, exclude@, (i + 1) as nat));
        i += 1;
    }
}

/// Samples up to `take` addresses of a network that are not in `exclude`, and appends them to
/// `out`. A small IPv4 network is taken whole; the addresses of any other are drawn at random.
pub fn sample_from_network_excluding(
    net: &Network,
    take: usize,
    out: &mut Vec<Ip>,
    exclude: &IpSet,
)
    requires
        net.sampleable(),
        take <= usize::MAX / 8,
    ensures
        final(out)@.len() >= old(out)@.len(),
        final(out)@.take(old(out)@.len() as int) == old(out)@,
        sampled(*net, exclude@, take, final(out)@.skip(old(out)@.len() as int)),
{
    match net {
        Network::V4 { address, prefix } => {
            let size: u32 = v4_size(*address, *prefix);
            if size as u64 <= take as u64 {
                take_whole(*address, *prefix, out, exclude);
                proof {
                    let start = old(out)@.len() as int;
                    assert(out@.take(start) =~= old(out)@);
                    assert(out@.skip(start) =~= unexcluded(*net, exclude@, net.size()));
                }
            } else {
                sample_by_chance(net, take, out, exclude);
            }
        },
        Network::V6 { .. } => {
            sample_by_chance(net, take, out, exclude);
        },
    }
}

/// What was drawn: each address lies in the network, is not excluded, and stands for one of the
/// offsets; none comes twice.
proof fn lemma_yielded(net: Network, exclude: Set<Ip>, draws: Seq<u128>)
    requires
        net.well_formed(),
        forall|i: int| 0 <= i < draws.len() ==> #[trigger] draws[i] < net.size(),
    ensures
        forall|i: int|
            0 <= i < yielded(net, exclude, draws).len() ==> {
                let ip = #[trigger] yielded(net, exclude, draws)[i];
                net.contains(ip) && !exclude.contains(ip) && exists|k: int|
                    0 <= k < draws.len() && ip == net.nth(#[trigger] draws[k] as int)
            },
        yielded(net, exclude, draws).no_duplicates(),
    decreases draws.len(),
{
    if draws.len() > 0 {
        let init = draws.drop_last();
        let last = draws.last();
        lemma_yielded(net, exclude, init);
        net.lemma_nth(last as int, last as int);
        let before = yielded(net, exclude, init);
        let all = yielded(net, exclude, draws);
        let ip = net.nth(last as int);
        assert forall|i: int| 0 <= i < before.len() implies {
            let x = #[trigger] before[i];
            exists|k: int| 0 <= k < draws.len() && x == net.nth(#[trigger] draws[k] as int)
        } by {
            let x = before[i];
            let k = choose|k: int|
                0 <= k < init.len() && x == net.nth(#[trigger] init[k] as int);
            assert(draws[k] == init[k]);
        }
        if all.len() > before.len() {
            assert(!init.contains(last));
            assert forall|i: int| 0 <= i < before.len() implies before[i] != ip by {
                let k = choose|k: int|
                    0 <= k < init.len() && before[i] == net.nth(#[trigger] init[k] as int);
                assert(init[k] == draws[k]);
                net.lemma_nth(init[k] as int, last as int);
                assert(init[k] != last);
            }
            assert(ip == net.nth(draws[draws.len() - 1] as int));
            assert(all =~= before.push(ip));
        }
    }
}

proof fn lemma_unexcluded(net: Network, exclude: Set<Ip>, n: nat)
    requires
        net.well_formed(),
        n <= net.size(),
    ensures
        unexcluded(net, exclude, n).len() <= n,
        forall|i: int|
            0 <= i < unexcluded(net, exclude, n).len() ==> {
                let ip = #[trigger] unexcluded(net, exclude, n)[i];
                net.contains(ip) && !exclude.contains(ip) && exists|k: int|
                    0 <= k < n && ip == #[trigger] net.nth(k)
            },
        unexcluded(net, exclude, n).no_duplicates(),
        forall|k: int|
            0 <= k < n && !exclude.contains(#[trigger] net.nth(k)) ==> unexcluded(
                net,
                exclude,
                n,
            ).contains(net.nth(k)),
    decreases n,
{
    if n > 0 {
        let m = (n - 1) as nat;
        lemma_unexcluded(net, exclude, m);
        net.lemma_nth(m as int, m as int);
        let before = unexcluded(net, exclude, m);
        let all = unexcluded(net, exclude, n);
        let ip = net.nth(m as int);
        assert forall|i: int| 0 <= i < before.len() implies before[i] != ip by {
            let k = choose|k: int| 0 <= k < m && before[i] == #[trigger] net.nth(k);
            net.lemma_nth(k, m as int);
        }
        assert forall|k: int| 0 <= k < n && !exclude.contains(#[trigger] net.nth(k)) implies
            all.contains(net.nth(k)) by {
            if k < m {
                assert(before.contains(net.nth(k)));
                let j = choose|j: int| 0 <= j < before.len() && before[j] == net.nth(k);
                assert(all[j] == before[j]);
            } else {
                assert(all[before.len() as int] == ip);
            }
        }
    }
}

/// Sampling a network gives at most as many addresses as were asked for, all of them addresses of
/// the network, none of them excluded, and none of them twice.
pub proof fn law_sample(net: Network, exclude: Set<Ip>, take: usize, added: Seq<Ip>)
    requires
        net.well_formed(),
        sampled(net, exclude, take, added),
    ensures
        added.len() <= take,
        forall|i: int|
            0 <= i < added.len() ==> net.contains(#[trigger] added[i]) && !exclude.contains(
                added[i],
            ),
        added.no_duplicates(),
{
    if taken_whole(net, take) {
        lemma_unexcluded(net, exclude, net.size());
    } else {
        let draws = choose|draws: Seq<u128>| #[trigger]
            complete_draws(net, exclude, take as nat, draws) && added == yielded(
                net,
                exclude,
                draws,
            );
        lemma_yielded(net, exclude, draws);
    }
}

/// An IPv4 network that has no more addresses than were asked for is taken whole: none of its addresses
/// is missing that is not excluded.
pub proof fn law_small_network_is_complete(
    net: Network,
    exclude: Set<Ip>,
    take: usize,
    added: Seq<Ip>,
    ip: Ip,
)
    requires
        net.well_formed(),
        net is V4,
        net.size() <= take,
        sampled(net, exclude, take, added),
        net.contains(ip),
        !exclude.contains(ip),
    ensures
        added.contains(ip),
{
    lemma_unexcluded(net, exclude, net.size());
    let a = match ip {
        Ip::V4(a) => a as int,
        Ip::V6(a) => a as int,
    };
    net.lemma_nth(a - net.base(), a - net.base());
    assert(ip == net.nth(a - net.base()));
}

// ---- sampling many networks ----

/// How many addresses one of `networks` networks contributes at most: `limit` over their number,
/// rounded up, and at least one.
pub open spec fn share(limit: nat, networks: nat) -> nat {
    if networks == 0 || limit == 0 {
        1
    } else {
        limit / networks + (if limit % networks == 0 {
            0nat
        } else {
            1nat
        })
    }
}

/// The lesser of two numbers.
pub open spec fn at_most(a: nat, b: int) -> nat {
    if a <= b {
        a
    } else if b >= 0 {
        b as nat
    } else {
        0
    }
}

/// Whether `all` may be gathered by sampling the networks of `order` one after the other, each for
/// its share and no more than is missing to `limit`. A network is not touched once nothing is
/// missing; one that is touched can be sampled.
pub open spec fn gathered(
    order: Seq<Network>,
    each: nat,
    limit: nat,
    exclude: Set<Ip>,
    all: Seq<Ip>,
) -> bool
    decreases order.len(),
{
    if order.len() == 0 {
        all.len() == 0
    } else {
        exists|k: int|
            {
                &&& 0 <= k <= all.len()
                &&& gathered(order.drop_last(), each, limit, exclude, #[trigger] all.take(k))
                &&& k < limit ==> order.last().sampleable()
                &&& sampled(
                    order.last(),
                    exclude,
                    at_most(each, limit - k) as usize,
                    all.skip(k),
                )
            }
    }
}

/// Whether `r` may come out of sampling `limit` addresses from `networks`, whose order is left to
/// chance, as is the order of the addresses.
pub open spec fn loaded(
    networks: Seq<Network>,
    limit: nat,
    exclude: Set<Ip>,
    r: Seq<Ip>,
) -> bool {
    exists|order: Seq<Network>, all: Seq<Ip>|
        {
            &&& random::is_shuffled(networks, order)
            &&& random::is_shuffled(all, r)
            &&& #[trigger] gathered(order, share(limit, networks.len()), limit, exclude, all)
        }
}

proof fn lemma_gathered(
    order: Seq<Network>,
    each: nat,
    limit: nat,
    exclude: Set<Ip>,
    all: Seq<Ip>,
)
    requires
        gathered(order, each, limit, exclude, all),
        each <= usize::MAX,
        limit <= usize::MAX,
        all_well_formed(order),
    ensures
        all.len() <= limit,
        all.len() <= each * order.len(),
        forall|i: int|
            0 <= i < all.len() ==> !exclude.contains(#[trigger] all[i]) && exists|j: int|
                0 <= j < order.len() && (#[trigger] order[j]).contains(all[i]),
    decreases order.len(),
{
    if order.len() > 0 {
        let init = order.drop_last();
        let k = choose|k: int|
            {
                &&& 0 <= k <= all.len()
                &&& gathered(init, each, limit, exclude, #[trigger] all.take(k))
                &&& k < limit ==> order.last().sampleable()
                &&& sampled(
                    order.last(),
                    exclude,
                    at_most(each, limit - k) as usize,
                    all.skip(k),
                )
            };
        let head = all.take(k);
        let tail = all.skip(k);
        assert forall|i: int| 0 <= i < init.len() implies (#[trigger] init[i]).well_formed() by {
            assert(init[i] == order[i]);
        }
        lemma_gathered(init, each, limit, exclude, head);
        law_sample(order.last(), exclude, at_most(each, limit - k) as usize, tail);
        assert(each * order.len() == each * init.len() + each) by (nonlinear_arith)
            requires
                order.len() == init.len() + 1,
        ;
        assert forall|i: int| 0 <= i < all.len() implies !exclude.contains(#[trigger] all[i])
            && exists|j: int|
            0 <= j < order.len() && (#[trigger] order[j]).contains(all[i]) by {
            if i < k {
                assert(head[i] == all[i]);
                let j = choose|j: int|
                    0 <= j < init.len() && (#[trigger] init[j]).contains(head[i]);
                assert(order[j].contains(all[i]));
            } else {
                assert(tail[i - k] == all[i]);
                assert(order[order.len() - 1].contains(all[i]));
            }
        }
    }
}

/// What is sampled never exceeds the limit nor the shares of the networks together, leaves out
/// everything excluded, and lies in the networks.
pub proof fn law_loaded(networks: Seq<Network>, limit: nat, exclude: Set<Ip>, r: Seq<Ip>)
    requires
        loaded(networks, limit, exclude, r),
        limit <= usize::MAX,
        all_well_formed(networks),
    ensures
        r.len() <= limit,
        r.len() <= share(limit, networks.len()) * networks.len(),
        forall|i: int|
            0 <= i < r.len() ==> !exclude.contains(#[trigger] r[i]) && exists|j: int|
                0 <= j < networks.len() && (#[trigger] networks[j]).contains(r[i]),
{
    let (order, all) = choose|order: Seq<Network>, all: Seq<Ip>|
        {
            &&& random::is_shuffled(networks, order)
            &&& random::is_shuffled(all, r)
            &&& #[trigger] gathered(order, share(limit, networks.len()), limit, exclude, all)
        };
    random::law_shuffled_items(networks, order);
    random::law_shuffled_items(all, r);
    lemma_same_items(order, networks);
    lemma_same_items(r, all);
    lemma_share(limit, networks.len());
    assert forall|i: int| 0 <= i < order.len() implies (#[trigger] order[i]).well_formed() by {
        assert(order.contains(order[i]));
        assert(networks.contains(order[i]));
    }
    lemma_gathered(order, share(limit, networks.len()), limit, exclude, all);
    assert forall|i: int| 0 <= i < r.len() implies !exclude.contains(#[trigger] r[i]) && exists|
        j: int,
    |
        0 <= j < networks.len() && (#[trigger] networks[j]).contains(r[i]) by {
        assert(r.contains(r[i]));
        assert(all.contains(r[i]));
        let a = choose|a: int| 0 <= a < all.len() && all[a] == r[i];
        let j = choose|j: int| 0 <= j < order.len() && (#[trigger] order[j]).contains(all[a]);
        assert(order.contains(order[j]));
        assert(networks.contains(order[j]));
        let m = choose|m: int| 0 <= m < networks.len() && networks[m] == order[j];
        assert(networks[m].contains(r[i]));
    }
}

/// Whether no two networks have an address in common.
pub open spec fn disjoint(networks: Seq<Network>) -> bool {
    forall|i: int, j: int, ip: Ip|
        0 <= i < j < networks.len() && #[trigger] networks[i].contains(ip) ==> !(
        #[trigger] networks[j].contains(ip))
}

/// The addresses that lie in a network.
pub open spec fn within(all: Seq<Ip>, net: Network) -> Seq<Ip> {
    all.filter(|ip: Ip| net.contains(ip))
}

/// A network has an address.
proof fn lemma_network_has_address(net: Network)
    requires
        net.well_formed(),
    ensures
        net.contains(net.nth(0)),
{
    match net {
        Network::V4 { address: _, prefix } => {
            vstd::arithmetic::power2::lemma_pow2_pos((32 - prefix) as nat);
        },
        Network::V6 { address: _, prefix } => {
            vstd::arithmetic::power2::lemma_pow2_pos((128 - prefix) as nat);
        },
    }
    net.lemma_nth(0, 0);
}

/// Networks that are disjoint are still so in another order.
proof fn lemma_disjoint_in_any_order(networks: Seq<Network>, order: Seq<Network>)
    requires
        disjoint(networks),
        order.to_multiset() == networks.to_multiset(),
        all_well_formed(networks),
    ensures
        disjoint(order),
{
    lemma_same_items(order, networks);
    assert forall|i: int, j: int| 0 <= i < j < networks.len() implies networks[i] != networks[j] by {
        lemma_network_has_address(networks[i]);
        let ip = networks[i].nth(0);
        assert(networks[i].contains(ip));
        if networks[i] == networks[j] {
            assert(networks[j].contains(ip));
        }
    }
    assert(networks.no_duplicates());
    networks.lemma_multiset_has_no_duplicates();
    order.lemma_multiset_has_no_duplicates_conv();
    assert forall|i: int, j: int, ip: Ip|
        0 <= i < j < order.len() && #[trigger] order[i].contains(ip) implies !(
    #[trigger] order[j].contains(ip)) by {
        assert(order.contains(order[i]));
        assert(order.contains(order[j]));
        assert(networks.contains(order[i]));
        assert(networks.contains(order[j]));
        let a = choose|a: int| 0 <= a < networks.len() && networks[a] == order[i];
        let b = choose|b: int| 0 <= b < networks.len() && networks[b] == order[j];
        assert(order[i] != order[j]);
        if a < b {
            assert(networks[a].contains(ip));
            assert(!networks[b].contains(ip));
        } else {
            if networks[b].contains(ip) {
                assert(!networks[a].contains(ip));
            }
        }
    }
}

/// What is gathered from disjoint networks holds no address twice, and no more of each network than
/// its share.
proof fn lemma_gathered_from_disjoint(
    order: Seq<Network>,
    each: nat,
    limit: nat,
    exclude: Set<Ip>,
    all: Seq<Ip>,
)
    requires
        gathered(order, each, limit, exclude, all),
        each <= usize::MAX,
        limit <= usize::MAX,
        all_well_formed(order),
        disjoint(order),
    ensures
        all.no_duplicates(),
        forall|j: int| 0 <= j < order.len() ==> within(all, #[trigger] order[j]).len() <= each,
    decreases order.len(),
{
    if order.len() > 0 {
        let init = order.drop_last();
        let last = order.last();
        let n = init.len() as int;
        let k = choose|k: int|
            {
                &&& 0 <= k <= all.len()
                &&& gathered(init, each, limit, exclude, #[trigger] all.take(k))
                &&& k < limit ==> order.last().sampleable()
                &&& sampled(last, exclude, at_most(each, limit - k) as usize, all.skip(k))
            };
        let head = all.take(k);
        let tail = all.skip(k);
        assert(all =~= head + tail);
        assert(order[n] == last);
        assert forall|i: int| 0 <= i < n implies (#[trigger] init[i]).well_formed() && init[i]
            == order[i] by {
            assert(init[i] == order[i]);
        }
        assert(disjoint(init)) by {
            assert forall|i: int, j: int, ip: Ip|
                0 <= i < j < init.len() && #[trigger] init[i].contains(ip) implies !(
            #[trigger] init[j].contains(ip)) by {
                assert(order[i].contains(ip));
                assert(!order[j].contains(ip));
            }
        }
        lemma_gathered_from_disjoint(init, each, limit, exclude, head);
        lemma_gathered(init, each, limit, exclude, head);
        law_sample(last, exclude, at_most(each, limit - k) as usize, tail);
        assert forall|a: int| 0 <= a < head.len() implies !last.contains(#[trigger] head[a]) by {
            let j = choose|j: int| 0 <= j < init.len() && (#[trigger] init[j]).contains(head[a]);
            assert(order[j].contains(head[a]));
            assert(!order[n].contains(head[a]));
        }
        assert forall|a: int, b: int| 0 <= a < b < all.len() implies all[a] != all[b] by {
            if b < k {
                assert(head[a] != head[b]);
            } else if a >= k {
                assert(tail[a - k] != tail[b - k]);
            } else {
                assert(!last.contains(head[a]));
                assert(last.contains(tail[b - k]));
            }
        }
        assert forall|j: int| 0 <= j < order.len() implies within(all, #[trigger] order[j]).len()
            <= each by {
            let net = order[j];
            let pred = |ip: Ip| net.contains(ip);
            Seq::filter_distributes_over_add(head, tail, pred);
            if j < n {
                assert(init[j] == net);
                assert forall|b: int| 0 <= b < tail.len() implies !pred(#[trigger] tail[b]) by {
                    if order[j].contains(tail[b]) {
                        assert(!order[n].contains(tail[b]));
                    }
                }
                lemma_nothing_kept(tail, pred);
                assert(within(head, init[j]).len() <= each);
            } else {
                assert forall|a: int| 0 <= a < head.len() implies !pred(#[trigger] head[a]) by {
                }
                lemma_nothing_kept(head, pred);
                tail.lemma_filter_len(pred);
            }
        }
    }
}

proof fn lemma_nothing_kept(s: Seq<Ip>, pred: spec_fn(Ip) -> bool)
    requires
        forall|i: int| 0 <= i < s.len() ==> !pred(#[trigger] s[i]),
    ensures
        s.filter(pred).len() == 0,
{
    broadcast use vstd::seq_lib::group_filter_ensures;

    if s.filter(pred).len() > 0 {
        let x = s.filter(pred)[0];
        assert(pred(x));
        order::lemma_filtered_within(s, pred, 0);
        let i = choose|i: int| 0 <= i < s.len() && s[i] == x;
        assert(!pred(s[i]));
    }
}

/// How many addresses lie in a network does not depend on their order.
proof fn lemma_within_in_any_order(a: Seq<Ip>, b: Seq<Ip>, net: Network)
    requires
        a.to_multiset() == b.to_multiset(),
    ensures
        within(a, net).len() == within(b, net).len(),
    decreases a.len(),
{
    reveal(Seq::filter);
    lemma_same_items(a, b);
    if a.len() > 0 {
        let x = a.last();
        let pred = |ip: Ip| net.contains(ip);
        assert(a.contains(x));
        let k = choose|k: int| 0 <= k < b.len() && b[k] == x;
        let shorter = b.remove(k);
        a.to_multiset_ensures();
        b.to_multiset_ensures();
        assert(a.drop_last() =~= a.remove(a.len() - 1));
        assert(a.drop_last().to_multiset() =~= shorter.to_multiset());
        lemma_within_in_any_order(a.drop_last(), shorter, net);
        assert(b =~= b.take(k) + seq![x] + b.skip(k + 1));
        assert(shorter =~= b.take(k) + b.skip(k + 1));
        Seq::filter_distributes_over_add(b.take(k) + seq![x], b.skip(k + 1), pred);
        Seq::filter_distributes_over_add(b.take(k), seq![x], pred);
        Seq::filter_distributes_over_add(b.take(k), b.skip(k + 1), pred);
        reveal_with_fuel(Seq::filter, 2);
        assert(seq![x].drop_last() =~= Seq::<Ip>::empty());
        assert(seq![x].filter(pred).len() == if pred(x) {
            1nat
        } else {
            0nat
        });
    }
}

/// Sampling disjoint networks gives no address twice, and no more addresses of each network than
/// its share.
pub proof fn law_disjoint_networks(
    networks: Seq<Network>,
    limit: nat,
    exclude: Set<Ip>,
    r: Seq<Ip>,
)
    requires
        loaded(networks, limit, exclude, r),
        limit <= usize::MAX,
        all_well_formed(networks),
        disjoint(networks),
    ensures
        r.no_duplicates(),
        forall|j: int|
            0 <= j < networks.len() ==> within(r, #[trigger] networks[j]).len() <= share(
                limit,
                networks.len(),
            ),
{
    let each = share(limit, networks.len());
    let (order, all) = choose|order: Seq<Network>, all: Seq<Ip>|
        {
            &&& random::is_shuffled(networks, order)
            &&& random::is_shuffled(all, r)
            &&& #[trigger] gathered(order, each, limit, exclude, all)
        };
    random::law_shuffled_items(networks, order);
    random::law_shuffled_items(all, r);
    lemma_same_items(order, networks);
    lemma_share(limit, networks.len());
    lemma_disjoint_in_any_order(networks, order);
    assert forall|i: int| 0 <= i < order.len() implies (#[trigger] order[i]).well_formed() by {
        assert(order.contains(order[i]));
        assert(networks.contains(order[i]));
    }
    lemma_gathered_from_disjoint(order, each, limit, exclude, all);
    all.lemma_multiset_has_no_duplicates();
    r.lemma_multiset_has_no_duplicates_conv();
    assert forall|j: int| 0 <= j < networks.len() implies within(r, #[trigger] networks[j]).len()
        <= each by {
        assert(networks.contains(networks[j]));
        assert(order.contains(networks[j]));
        let i = choose|i: int| 0 <= i < order.len() && order[i] == networks[j];
        assert(within(all, order[i]).len() <= each);
        lemma_within_in_any_order(r, all, networks[j]);
    }
}

proof fn lemma_same_items<T>(a: Seq<T>, b: Seq<T>)
    requires
        a.to_multiset() == b.to_multiset(),
    ensures
        a.len() == b.len(),
        forall|x: T| #[trigger] a.contains(x) <==> b.contains(x),
{
    a.to_multiset_ensures();
    b.to_multiset_ensures();
    assert(a.to_multiset().len() == b.to_multiset().len());
    assert forall|x: T| #[trigger] a.contains(x) <==> b.contains(x) by {
        vstd::seq_lib::to_multiset_contains(a, x);
        vstd::seq_lib::to_multiset_contains(b, x);
    }
}

proof fn lemma_share(limit: nat, networks: nat)
    ensures
        1 <= share(limit, networks),
        share(limit, networks) <= limit || share(limit, networks) == 1,
{
    if networks > 0 && limit > 0 {
        vstd::arithmetic::div_mod::lemma_fundamental_div_mod(limit as int, networks as int);
        let q = limit / networks;
        let m = limit % networks;
        assert(limit == networks * q + m);
        if networks == 1 {
            assert(m == 0);
            assert(q == limit);
        } else {
            assert(q * 2 <= networks * q) by (nonlinear_arith)
                requires
                    networks >= 2,
            ;
            if q == 0 {
            } else {
                assert(q + 1 <= limit);
            }
        }
        if q == 0 {
            assert(networks * q == 0) by (nonlinear_arith)
                requires
                    q == 0,
            ;
        }
    }
}

/// The share of a network is the least number with which all of them together reach the limit.
pub proof fn law_share_is_rounded_up(limit: nat, networks: nat)
    requires
        networks > 0,
        limit > 0,
    ensures
        share(limit, networks) * networks >= limit,
        (share(limit, networks) - 1) * networks < limit,
{
    vstd::arithmetic::div_mod::lemma_fundamental_div_mod(limit as int, networks as int);
    let q = limit / networks;
    let m = limit % networks;
    assert(0 <= m < networks);
    assert((q + 1) * networks == networks * q + networks) by (nonlinear_arith);
    assert((q - 1) * networks == networks * q - networks) by (nonlinear_arith);
    assert(q * networks == networks * q) by (nonlinear_arith);
}

/// Whether sampling the networks of `order` one after the other comes to one that cannot be sampled
/// while addresses are still missing.
pub open spec fn stopped(order: Seq<Network>, each: nat, limit: nat, exclude: Set<Ip>) -> bool {
    exists|k: int, all: Seq<Ip>|
        {
            &&& 0 <= k < order.len()
            &&& #[trigger] gathered(order.take(k), each, limit, exclude, all)
            &&& all.len() < limit
            &&& !order[k].sampleable()
        }
}

/// Whether sampling `limit` addresses from `networks`, whose order is left to chance, may come to one
/// that cannot be sampled.
pub open spec fn refused(networks: Seq<Network>, limit: nat, exclude: Set<Ip>) -> bool {
    exists|order: Seq<Network>|
        random::is_shuffled(networks, order) && #[trigger] stopped(
            order,
            share(limit, networks.len()),
            limit,
            exclude,
        )
}

/// Sampling is refused only where a network cannot be sampled and something is to be sampled.
pub proof fn law_refused(networks: Seq<Network>, limit: nat, exclude: Set<Ip>)
    requires
        refused(networks, limit, exclude),
    ensures
        limit > 0,
        !all_sampleable(networks),
{
    let each = share(limit, networks.len());
    let order = choose|order: Seq<Network>|
        random::is_shuffled(networks, order) && #[trigger] stopped(
            order,
            each,
            limit,
            exclude,
        );
    let (k, all) = choose|k: int, all: Seq<Ip>|
        {
            &&& 0 <= k < order.len()
            &&& #[trigger] gathered(order.take(k), each, limit, exclude, all)
            &&& all.len() < limit
            &&& !order[k].sampleable()
        };
    random::law_shuffled_items(networks, order);
    lemma_same_items(order, networks);
    assert(order.contains(order[k]));
    assert(networks.contains(order[k]));
    let m = choose|m: int| 0 <= m < networks.len() && networks[m] == order[k];
    assert(!networks[m].sampleable());
}

proof fn lemma_nothing_sampled(net: Network, exclude: Set<Ip>)
    requires
        net.well_formed(),
    ensures
        sampled(net, exclude, 0, Seq::empty()),
{
    match net {
        Network::V4 { address: _, prefix } => {
            vstd::arithmetic::power2::lemma_pow2_pos((32 - prefix) as nat);
        },
        Network::V6 { .. } => {},
    }
    let none = Seq::<u128>::empty();
    random::law_nothing_asked();
    assert(asked(net.size(), none) =~= Seq::<(nat, u128)>::empty());
    assert(yielded(net, exclude, none) =~= Seq::<Ip>::empty());
    assert(complete_draws(net, exclude, 0, none));
}

/// Samples up to `limit` addresses that are not in `exclude`, each network for a share of `each`, one
/// after the other. `None` where a network cannot be sampled while addresses are still missing.
pub fn sample_in_order(
    order: &Vec<Network>,
    each: usize,
    limit: usize,
    exclude: &IpSet,
) -> (r: Option<Vec<Ip>>)
    requires
        limit <= usize::MAX / 8,
        all_well_formed(order@),
    ensures
        match r {
            Some(ips) => gathered(order@, each as nat, limit as nat, exclude@, ips@),
            None => stopped(order@, each as nat, limit as nat, exclude@),
        },
{
    let n: usize = order.len();
    let mut ips: Vec<Ip> = Vec::new();
    let mut i: usize = 0;
    assert(order@.take(0) =~= Seq::<Network>::empty());
    while i < n
        invariant
            i <= n,
            n == order@.len(),
            limit <= usize::MAX / 8,
            ips@.len() <= limit,
            forall|k: int| 0 <= k < order@.len() ==> (#[trigger] order@[k]).well_formed(),
            gathered(order@.take(i as int), each as nat, limit as nat, exclude@, ips@),
        decreases n - i,
    {
        let ghost before = ips@;
        let remaining: usize = limit - ips.len();
        let take: usize = if each <= remaining {
            each
        } else {
            remaining
        };
        if remaining > 0 {
            if !can_sample(&order[i]) {
                return None;
            }
            sample_from_network_excluding(&order[i], take, &mut ips, exclude);
        } else {
            proof {
                lemma_nothing_sampled(order@[i as int], exclude@);
                assert(ips@.skip(ips@.len() as int) =~= Seq::<Ip>::empty());
                assert(ips@.take(ips@.len() as int) =~= ips@);
            }
        }
        proof {
            let done = order@.take(i + 1);
            let k = before.len() as int;
            assert(done.drop_last() =~= order@.take(i as int));
            assert(done.last() == order@[i as int]);
            assert(ips@.take(k) == before);
            law_sample(order@[i as int], exclude@, take, ips@.skip(k));
            assert(at_most(each as nat, limit - k) as usize == take);
            assert(gathered(done.drop_last(), each as nat, limit as nat, exclude@, ips@.take(k)));
            assert(gathered(done, each as nat, limit as nat, exclude@, ips@));
        }
        i += 1;
    }
    assert(order@.take(n as int) =~= order@);
    Some(ips)
}

/// Samples up to `limit` addresses that are not in `exclude` from `networks`: the networks are
/// gone through in a random order, each for an equal share, and the result is shuffled. `None` where
/// this comes to a network that cannot be sampled while addresses are still missing.
pub fn sample_networks(networks: Vec<Network>, limit: usize, exclude: &IpSet) -> (r: Option<
    Vec<Ip>,
>)
    requires
        limit <= usize::MAX / 8,
        all_well_formed(networks@),
    ensures
        match r {
            Some(ips) => loaded(networks@, limit as nat, exclude@, ips@),
            None => refused(networks@, limit as nat, exclude@),
        },
{
    let mut networks = networks;
    let ghost given = networks@;
    let n: usize = networks.len();
    shuffle(&mut networks);
    proof {
        lemma_same_items(networks@, given);
        assert forall|i: int| 0 <= i < networks@.len() implies (
        #[trigger] networks@[i]).well_formed() by {
            assert(networks@.contains(networks@[i]));
            assert(given.contains(networks@[i]));
        }
    }
    let each: usize = if n == 0 || limit == 0 {
        1
    } else if limit % n == 0 {
        limit / n
    } else {
        limit / n + 1
    };
    assert(each == share(limit as nat, given.len()));
    match sample_in_order(&networks, each, limit, exclude) {
        Some(sample) => {
            let mut ips = sample;
            let ghost all = ips@;
            shuffle(&mut ips);
            assert(gathered(
                networks@,
                share(limit as nat, given.len()),
                limit as nat,
                exclude@,
                all,
            ));
            Some(ips)
        },
        None => None,
    }
}

// ---- reading networks ----

/// Whether a line, without the white space around it, is neither empty nor a comment.
pub open spec fn is_entry_text(line: Seq<char>) -> bool {
    let t = text::trimmed(line);
    t.len() > 0 && t[0] != '#'
}

/// The networks that lines name, in their order; lines that name none are passed over.
pub open spec fn networks_in(lines: Seq<Seq<char>>) -> Seq<Network>
    decreases lines.len(),
{
    if lines.len() == 0 {
        Seq::empty()
    } else {
        let before = networks_in(lines.drop_last());
        let line = lines.last();
        if is_entry_text(line) {
            match parsed_network(text::trimmed(line)) {
                Some(n) => before.push(n),
                None => before,
            }
        } else {
            before
        }
    }
}

/// The lines that name no network although they are neither empty nor comments, without the white
/// space around them.
pub open spec fn skipped_in(lines: Seq<Seq<char>>) -> Seq<Seq<char>>
    decreases lines.len(),
{
    if lines.len() == 0 {
        Seq::empty()
    } else {
        let before = skipped_in(lines.drop_last());
        let line = lines.last();
        if is_entry_text(line) && parsed_network(text::trimmed(line)) is None {
            before.push(text::trimmed(line))
        } else {
            before
        }
    }
}

/// Every line that is neither empty nor a comment names a network or is skipped.
pub proof fn law_entries_are_read_or_skipped(lines: Seq<Seq<char>>)
    ensures
        networks_in(lines).len() + skipped_in(lines).len() == lines.filter(
            |line: Seq<char>| is_entry_text(line),
        ).len(),
    decreases lines.len(),
{
    reveal(Seq::filter);
    if lines.len() > 0 {
        law_entries_are_read_or_skipped(lines.drop_last());
    }
}

/// Whether a line, without the white space around it, is neither empty nor a comment.
pub fn is_entry(line: &str) -> (r: bool)
    ensures
        r == is_entry_text(line@),
{
    let t = text::chars_of(text::trim(line).as_str());
    t.len() > 0 && t[0] != '#'
}

/// Reads the networks in a text, one a line.
pub fn parse_networks(content: &str) -> (r: Vec<Network>)
    ensures
        r@ == networks_in(text::lines_of(content@)),
        forall|i: int| 0 <= i < r@.len() ==> (#[trigger] r@[i]).well_formed(),
{
    let lines = text::lines(content);
    let ghost all = text::views(lines@);
    let n: usize = lines.len();
    let mut out: Vec<Network> = Vec::new();
    let mut i: usize = 0;
    while i < n
        invariant
            i <= n,
            n == lines@.len(),
            all == text::views(lines@),
            out@ == networks_in(all.take(i as int)),
            forall|k: int| 0 <= k < out@.len() ==> (#[trigger] out@[k]).well_formed(),
        decreases n - i,
    {
        assert(all.take(i + 1).drop_last() =~= all.take(i as int));
        assert(all.take(i + 1).last() == lines@[i as int]@);
        if is_entry(lines[i].as_str()) {
            let line = text::trim(lines[i].as_str());
            match parse_network(line.as_str()) {
                Some(net) => {
                    out.push(net);
                },
                None => {},
            }
        }
        i += 1;
    }
    assert(all.take(n as int) =~= all);
    out
}

/// The lines of a text that name no network although they are neither empty nor comments.
pub fn skipped_lines(content: &str) -> (r: Vec<String>)
    ensures
        text::views(r@) == skipped_in(text::lines_of(content@)),
{
    let lines = text::lines(content);
    let ghost all = text::views(lines@);
    let n: usize = lines.len();
    let mut out: Vec<String> = Vec::new();
    let mut i: usize = 0;
    assert(text::views(out@) =~= skipped_in(all.take(0)));
    while i < n
        invariant
            i <= n,
            n == lines@.len(),
            all == text::views(lines@),
            text::views(out@) == skipped_in(all.take(i as int)),
        decreases n - i,
    {
        assert(all.take(i + 1).drop_last() =~= all.take(i as int));
        assert(all.take(i + 1).last() == lines@[i as int]@);
        if is_entry(lines[i].as_str()) {
            let line = text::trim(lines[i].as_str());
            if parse_network(line.as_str()).is_none() {
                proof {
                    text::lemma_views_push(out@, line);
                }
                out.push(line);
            }
        }
        i += 1;
    }
    assert(all.take(n as int) =~= all);
    out
}

/// The published networks of both kinds, one a line.
#[derive(Debug)]
pub struct AddressLists {
    pub ipv4: String,
    pub ipv6: String,
}

/// The networks that a scan mode draws from.
pub open spec fn mode_networks(mode: Seq<char>, lists: AddressLists) -> Seq<Network> {
    if mode == "ipv4"@ {
        networks_in(text::lines_of(lists.ipv4@))
    } else if mode == "ipv6"@ {
        networks_in(text::lines_of(lists.ipv6@))
    } else {
        networks_in(text::lines_of(lists.ipv4@)) + networks_in(text::lines_of(lists.ipv6@))
    }
}

/// The lines that are skipped in the lists that a scan mode draws from.
pub open spec fn mode_skipped(mode: Seq<char>, lists: AddressLists) -> Seq<Seq<char>> {
    if mode == "ipv4"@ {
        skipped_in(text::lines_of(lists.ipv4@))
    } else if mode == "ipv6"@ {
        skipped_in(text::lines_of(lists.ipv6@))
    } else if mode == "both"@ {
        skipped_in(text::lines_of(lists.ipv4@)) + skipped_in(text::lines_of(lists.ipv6@))
    } else {
        Seq::empty()
    }
}

/// The lines that are skipped in the lists that a scan mode draws from.
pub fn skipped_entries(mode: &str, lists: &AddressLists) -> (r: Vec<String>)
    ensures
        text::views(r@) == mode_skipped(mode@, *lists),
{
    if text::same_text(mode, "ipv4") {
        skipped_lines(lists.ipv4.as_str())
    } else if text::same_text(mode, "ipv6") {
        skipped_lines(lists.ipv6.as_str())
    } else if text::same_text(mode, "both") {
        let mut all = skipped_lines(lists.ipv4.as_str());
        let mut more = skipped_lines(lists.ipv6.as_str());
        let ghost a = all@;
        let ghost b = more@;
        all.append(&mut more);
        assert(text::views(a + b) =~= text::views(a) + text::views(b));
        all
    } else {
        let none: Vec<String> = Vec::new();
        assert(text::views(none@) =~= Seq::<Seq<char>>::empty());
        none
    }
}

/// Whether every network is well-formed.
pub open spec fn all_well_formed(networks: Seq<Network>) -> bool {
    forall|i: int| 0 <= i < networks.len() ==> (#[trigger] networks[i]).well_formed()
}

/// Whether addresses can be sampled from every network.
pub open spec fn all_sampleable(networks: Seq<Network>) -> bool {
    forall|i: int| 0 <= i < networks.len() ==> (#[trigger] networks[i]).sampleable()
}

/// How many addresses are sampled at most.
pub open spec fn sample_limit(max_ips: Option<usize>) -> usize {
    match max_ips {
        Some(n) => n,
        None => DEFAULT_MAX_IPS,
    }
}

/// Why no addresses could be sampled.
#[derive(Debug)]
pub enum LoadError {
    /// The scan mode is none of the three modes.
    UnknownMode(String),
    /// An IPv4 network of all addresses was to be sampled.
    WholeAddressSpace,
}

impl LoadError {
    /// What is said of the error.
    pub open spec fn text(self) -> Seq<char> {
        match self {
            LoadError::UnknownMode(m) => "未知 mode: "@ + m@,
            LoadError::WholeAddressSpace => "IPv4 网段前缀长度不能为 0"@,
        }
    }

    /// What is said of the error.
    pub fn message(&self) -> (r: String)
        ensures
            r@ == self.text(),
    {
        match self {
            LoadError::UnknownMode(m) => {
                let mut out: String = "未知 mode: ".to_owned();
                out.append(m.as_str());
                out
            },
            LoadError::WholeAddressSpace => "IPv4 网段前缀长度不能为 0".to_owned(),
        }
    }
}

fn can_sample(net: &Network) -> (r: bool)
    requires
        net.well_formed(),
    ensures
        r == net.sampleable(),
{
    match net {
        Network::V4 { address: _, prefix } => *prefix >= 1,
        Network::V6 { .. } => true,
    }
}

/// Samples up to `max_ips` addresses, or `DEFAULT_MAX_IPS`, of the kind that `mode` tells.
pub fn load_ips(mode: &str, max_ips: Option<usize>, lists: &AddressLists) -> (r: Result<
    Vec<Ip>,
    LoadError,
>)
    requires
        sample_limit(max_ips) <= usize::MAX / 8,
    ensures
        ({
            let networks = mode_networks(mode@, *lists);
            let limit = sample_limit(max_ips) as nat;
            &&& match r {
                Ok(ips) => config::is_scan_mode(mode@) && loaded(networks, limit, Set::empty(), ips@),
                Err(LoadError::UnknownMode(m)) => !config::is_scan_mode(mode@) && m@ == mode@,
                Err(LoadError::WholeAddressSpace) => config::is_scan_mode(mode@) && refused(
                    networks,
                    limit,
                    Set::empty(),
                ),
            }
            &&& config::is_scan_mode(mode@) && (limit == 0 || all_sampleable(networks)) ==> r is Ok
            &&& r is Ok ==> all_well_formed(networks)
        }),
{
    load_ips_excluding(mode, max_ips, &IpSet::new(), lists)
}

/// Samples up to `max_ips` addresses, or `DEFAULT_MAX_IPS`, of the kind that `mode` tells, and none
/// of those in `exclude`.
pub fn load_ips_excluding(
    mode: &str,
    max_ips: Option<usize>,
    exclude: &IpSet,
    lists: &AddressLists,
) -> (r: Result<Vec<Ip>, LoadError>)
    requires
        sample_limit(max_ips) <= usize::MAX / 8,
    ensures
        ({
            let networks = mode_networks(mode@, *lists);
            let limit = sample_limit(max_ips) as nat;
            &&& match r {
                Ok(ips) => config::is_scan_mode(mode@) && loaded(networks, limit, exclude@, ips@),
                Err(LoadError::UnknownMode(m)) => !config::is_scan_mode(mode@) && m@ == mode@,
                Err(LoadError::WholeAddressSpace) => config::is_scan_mode(mode@) && refused(
                    networks,
                    limit,
                    exclude@,
                ),
            }
            &&& config::is_scan_mode(mode@) && (limit == 0 || all_sampleable(networks)) ==> r is Ok
            &&& r is Ok ==> all_well_formed(networks)
        }),
{
    proof {
        reveal_strlit("ipv4");
        reveal_strlit("ipv6");
        reveal_strlit("both");
        assert("ipv4"@[3] != "ipv6"@[3]);
        assert("ipv4"@[0] != "both"@[0]);
        assert("ipv6"@[0] != "both"@[0]);
    }
    let limit: usize = match max_ips {
        Some(n) => n,
        None => DEFAULT_MAX_IPS,
    };
    let networks = if text::same_text(mode, "ipv4") {
        parse_networks(lists.ipv4.as_str())
    } else if text::same_text(mode, "ipv6") {
        parse_networks(lists.ipv6.as_str())
    } else if text::same_text(mode, "both") {
        let mut all = parse_networks(lists.ipv4.as_str());
        let mut more = parse_networks(lists.ipv6.as_str());
        all.append(&mut more);
        all
    } else {
        return Err(LoadError::UnknownMode(mode.to_owned()));
    };
    match sample_networks(networks, limit, exclude) {
        Some(ips) => Ok(ips),
        None => {
            proof {
                law_refused(networks@, limit as nat, exclude@);
            }
            Err(LoadError::WholeAddressSpace)
        },
    }
}

// ---- names of edge locations ----

/// The code and the name in a line of the form "code:name"; both without the white space around
/// them.
pub open spec fn colo_entry(line: Seq<char>) -> Option<(Seq<char>, Seq<char>)> {
    let t = text::trimmed(line);
    let k = text::first_index(t, ':') as int;
    if k < t.len() {
        Some((text::trimmed(t.take(k)), text::trimmed(t.skip(k + 1))))
    } else {
        None
    }
}

/// Names by their codes; a later one overrides an earlier one with the same code.
pub open spec fn names_by_code(entries: Seq<(Seq<char>, Seq<char>)>) -> Map<Seq<char>, Seq<char>>
    decreases entries.len(),
{
    if entries.len() == 0 {
        Map::empty()
    } else {
        names_by_code(entries.drop_last()).insert(entries.last().0, entries.last().1)
    }
}

/// The codes in upper case and the names that lines give, in the order of the lines.
pub open spec fn entries_in(lines: Seq<Seq<char>>) -> Seq<(Seq<char>, Seq<char>)>
    decreases lines.len(),
{
    if lines.len() == 0 {
        Seq::empty()
    } else {
        let before = entries_in(lines.drop_last());
        match colo_entry(lines.last()) {
            Some((code, name)) => before.push((text::uppercase(code), name)),
            None => before,
        }
    }
}

/// The names of the edge locations that lines give, by their upper-case code; a later line
/// overrides an earlier one with the same code.
pub open spec fn colo_names(lines: Seq<Seq<char>>) -> Map<Seq<char>, Seq<char>> {
    names_by_code(entries_in(lines))
}

/// Whether the codes that lines give have ASCII characters only.
pub open spec fn codes_are_ascii(lines: Seq<Seq<char>>) -> bool {
    forall|i: int|
        0 <= i < lines.len() ==> match colo_entry(#[trigger] lines[i]) {
            Some((code, _)) => text::is_ascii(code),
            None => true,
        }
}

/// Whether a code is in upper case, without white space around it and without a colon.
pub open spec fn is_code(code: Seq<char>) -> bool {
    &&& text::ascii_uppercase(code) == code
    &&& text::trimmed(code) == code
    &&& !code.contains(':')
}

proof fn lemma_entry(line: Seq<char>)
    ensures
        match colo_entry(line) {
            Some((code, name)) => {
                &&& text::trimmed(code) == code
                &&& !code.contains(':')
                &&& text::trimmed(name) == name
            },
            None => true,
        },
{
    let t = text::trimmed(line);
    let k = text::first_index(t, ':') as int;
    text::lemma_before_first_index(t, ':');
    text::law_trimming(t.take(k));
    text::law_trimming(t.skip(k + 1));
}

proof fn lemma_names_from_entries(entries: Seq<(Seq<char>, Seq<char>)>, key: Seq<char>)
    ensures
        names_by_code(entries).dom().finite(),
        names_by_code(entries).dom().len() <= entries.len(),
        names_by_code(entries).contains_key(key) ==> entries.contains(
            (key, names_by_code(entries)[key]),
        ),
    decreases entries.len(),
{
    if entries.len() > 0 {
        let init = entries.drop_last();
        let last = entries.last();
        lemma_names_from_entries(init, key);
        assert(names_by_code(entries).dom() =~= names_by_code(init).dom().insert(last.0));
        assert(entries[entries.len() - 1] == last);
        if names_by_code(entries).contains_key(key) && key != last.0 {
            let k = choose|k: int|
                0 <= k < init.len() && init[k] == (key, names_by_code(init)[key]);
            assert(entries[k] == init[k]);
        }
    }
}

proof fn lemma_entries_in(lines: Seq<Seq<char>>)
    ensures
        entries_in(lines).len() <= lines.len(),
        forall|k: int|
            0 <= k < entries_in(lines).len() ==> {
                let e = #[trigger] entries_in(lines)[k];
                &&& text::trimmed(e.1) == e.1
                &&& exists|code: Seq<char>|
                    e.0 == #[trigger] text::uppercase(code) && text::trimmed(code) == code
                        && !code.contains(':')
            },
    decreases lines.len(),
{
    if lines.len() > 0 {
        lemma_entries_in(lines.drop_last());
        lemma_entry(lines.last());
    }
}

/// There are no more names than lines. A name has no white space around it, and neither has the code
/// whose upper case it stands under; that code has no colon.
pub proof fn law_colo_names(lines: Seq<Seq<char>>)
    ensures
        colo_names(lines).dom().finite(),
        colo_names(lines).dom().len() <= lines.len(),
        forall|key: Seq<char>| #[trigger]
            colo_names(lines).contains_key(key) ==> {
                &&& text::trimmed(colo_names(lines)[key]) == colo_names(lines)[key]
                &&& exists|code: Seq<char>|
                    key == #[trigger] text::uppercase(code) && text::trimmed(code) == code
                        && !code.contains(':')
            },
{
    let entries = entries_in(lines);
    lemma_entries_in(lines);
    lemma_names_from_entries(entries, Seq::empty());
    assert forall|key: Seq<char>| #[trigger] colo_names(lines).contains_key(key) implies {
        &&& text::trimmed(colo_names(lines)[key]) == colo_names(lines)[key]
        &&& exists|code: Seq<char>|
            key == #[trigger] text::uppercase(code) && text::trimmed(code) == code
                && !code.contains(':')
    } by {
        lemma_names_from_entries(entries, key);
        let e = (key, colo_names(lines)[key]);
        let k = choose|k: int| 0 <= k < entries.len() && entries[k] == e;
        assert(entries[k].0 == key);
    }
}

/// The code and the name in a line of the form "code:name".
pub fn parse_colo_entry(line: &str) -> (r: Option<(String, String)>)
    ensures
        match colo_entry(line@) {
            Some((code, name)) => r matches Some((c, n)) && c@ == code && n@ == name,
            None => r is None,
        },
{
    let t = text::trim(line);
    let v = text::chars_of(t.as_str());
    assert(v@.skip(0) =~= v@);
    let k: usize = text::find_from(&v, 0, ':');
    if k < v.len() {
        let code = text::substring(&v, 0, k);
        let name = text::substring(&v, k + 1, v.len());
        assert(v@.subrange(0, k as int) =~= v@.take(k as int));
        assert(v@.subrange(k + 1, v@.len() as int) =~= v@.skip(k + 1));
        Some((text::trim(code.as_str()), text::trim(name.as_str())))
    } else {
        None
    }
}

/// The texts that a map from texts to strings holds.
pub open spec fn map_views(m: Map<Seq<char>, String>) -> Map<Seq<char>, Seq<char>> {
    m.map_values(|s: String| s@)
}

/// The texts of entries.
pub open spec fn entry_views(v: Seq<(String, String)>) -> Seq<(Seq<char>, Seq<char>)> {
    v.map_values(|e: (String, String)| (e.0@, e.1@))
}

/// The map of names by codes that are given in upper case; a later one overrides an earlier one with
/// the same code.
pub fn colo_map_from(entries: Vec<(String, String)>) -> (r: StringHashMap<String>)
    ensures
        map_views(r@) == names_by_code(entry_views(entries@)),
{
    let ghost all = entry_views(entries@);
    let n: usize = entries.len();
    let mut map: StringHashMap<String> = StringHashMap::new();
    let mut i: usize = 0;
    assert(map_views(map@) =~= names_by_code(all.take(0)));
    while i < n
        invariant
            i <= n,
            n == entries@.len(),
            all == entry_views(entries@),
            map_views(map@) == names_by_code(all.take(i as int)),
        decreases n - i,
    {
        let ghost before = map@;
        let code = entries[i].0.clone();
        let name = entries[i].1.clone();
        proof {
            assert(all.take(i + 1).drop_last() =~= all.take(i as int));
            assert(all.take(i + 1).last() == (code@, name@));
        }
        map.insert(code, name);
        assert(map_views(map@) =~= map_views(before).insert(code@, name@));
        i += 1;
    }
    assert(all.take(n as int) =~= all);
    map
}

/// Reads the names of edge locations, one "code:name" a line, into a map by upper-case code. Where
/// the codes have ASCII characters only, the keys of the map are in upper case, without white space
/// around them and without a colon.
pub fn load_colo_map(data: &str) -> (r: StringHashMap<String>)
    ensures
        map_views(r@) == colo_names(text::lines_of(data@)),
        codes_are_ascii(text::lines_of(data@)) ==> forall|key: Seq<char>| #[trigger]
            r@.contains_key(key) ==> is_code(key),
{
    let lines = text::lines(data);
    let ghost all = text::views(lines@);
    let n: usize = lines.len();
    let mut entries: Vec<(String, String)> = Vec::new();
    let mut i: usize = 0;
    assert(entry_views(entries@) =~= entries_in(all.take(0)));
    while i < n
        invariant
            i <= n,
            n == lines@.len(),
            all == text::views(lines@),
            entry_views(entries@) == entries_in(all.take(i as int)),
            codes_are_ascii(all) ==> forall|k: int|
                0 <= k < entries@.len() ==> is_code((#[trigger] entries@[k]).0@),
        decreases n - i,
    {
        let ghost before = entries@;
        assert(all.take(i + 1).drop_last() =~= all.take(i as int));
        assert(all.take(i + 1).last() == lines@[i as int]@);
        assert(all[i as int] == lines@[i as int]@);
        match parse_colo_entry(lines[i].as_str()) {
            Some((code, name)) => {
                let key = text::to_uppercase(code.as_str());
                proof {
                    lemma_entry(all[i as int]);
                    text::lemma_ascii_uppercase(code@);
                }
                entries.push((key, name));
                assert(entry_views(entries@) =~= entry_views(before).push((key@, name@)));
            },
            None => {},
        }
        i += 1;
    }
    assert(all.take(n as int) =~= all);
    let ghost given = entries@;
    let map = colo_map_from(entries);
    proof {
        assert forall|key: Seq<char>| codes_are_ascii(all) && #[trigger] map@.contains_key(
            key,
        ) implies is_code(key) by {
            assert(map_views(map@).contains_key(key));
            lemma_names_from_entries(entry_views(given), key);
            let e = (key, colo_names(all)[key]);
            let k = choose|k: int| 0 <= k < given.len() && entry_views(given)[k] == e;
            assert(given[k].0@ == key);
        }
    }
    map
}

// ---- what sampling is for ----

/// A network that is not taken whole is sampled by drawing: each draw is made out of all its
/// addresses, an address that was drawn is taken unless it is excluded, nothing else is taken, and
/// drawing goes on until enough addresses are found or eight draws were made for each.
pub proof fn law_sample_is_drawn(net: Network, exclude: Set<Ip>, take: usize, added: Seq<Ip>)
    requires
        net.well_formed(),
        sampled(net, exclude, take, added),
        net is V6 || net.size() > take,
    ensures
        exists|record: Seq<(nat, u128)>|
            {
                &&& #[trigger] random::is_record(record)
                &&& record.len() <= 8 * take
                &&& added.len() == take || record.len() == 8 * take
                &&& forall|i: int|
                    0 <= i < record.len() ==> {
                        &&& (#[trigger] record[i]).0 == net.size()
                        &&& added.contains(net.nth(record[i].1 as int)) || exclude.contains(
                            net.nth(record[i].1 as int),
                        )
                    }
                &&& forall|j: int|
                    0 <= j < added.len() ==> exists|i: int|
                        0 <= i < record.len() && #[trigger] added[j] == net.nth(
                            (#[trigger] record[i]).1 as int,
                        )
            },
{
    let draws = choose|draws: Seq<u128>| #[trigger]
        complete_draws(net, exclude, take as nat, draws) && added == yielded(net, exclude, draws);
    let record = asked(net.size(), draws);
    lemma_yielded(net, exclude, draws);
    lemma_every_draw_counts(net, exclude, draws);
    assert(random::is_record(record));
    assert forall|i: int| 0 <= i < record.len() implies {
        &&& (#[trigger] record[i]).0 == net.size()
        &&& added.contains(net.nth(record[i].1 as int)) || exclude.contains(
            net.nth(record[i].1 as int),
        )
    } by {
        assert(record[i].1 == draws[i]);
    }
    assert forall|j: int| 0 <= j < added.len() implies exists|i: int|
        0 <= i < record.len() && #[trigger] added[j] == net.nth(
            (#[trigger] record[i]).1 as int,
        ) by {
        assert(yielded(net, exclude, draws)[j] == added[j]);
        let i = choose|i: int|
            0 <= i < draws.len() && added[j] == net.nth(#[trigger] draws[i] as int);
        assert(record[i].1 == draws[i]);
    }
}

proof fn lemma_every_draw_counts(net: Network, exclude: Set<Ip>, draws: Seq<u128>)
    ensures
        forall|i: int|
            0 <= i < draws.len() ==> yielded(net, exclude, draws).contains(
                net.nth(#[trigger] draws[i] as int),
            ) || exclude.contains(net.nth(draws[i] as int)),
    decreases draws.len(),
{
    if draws.len() > 0 {
        let init = draws.drop_last();
        let last = draws.last();
        lemma_every_draw_counts(net, exclude, init);
        let before = yielded(net, exclude, init);
        let all = yielded(net, exclude, draws);
        assert forall|x: Ip| before.contains(x) implies all.contains(x) by {
            let k = choose|k: int| 0 <= k < before.len() && before[k] == x;
            assert(all[k] == x);
        }
        assert forall|i: int| 0 <= i < draws.len() implies all.contains(
            net.nth(#[trigger] draws[i] as int),
        ) || exclude.contains(net.nth(draws[i] as int)) by {
            if i < init.len() {
                assert(init[i] == draws[i]);
            } else if init.contains(last) {
                let k = choose|k: int| 0 <= k < init.len() && init[k] == last;
                assert(init[k] == last);
            } else if !exclude.contains(net.nth(last as int)) {
                assert(all.last() == net.nth(last as int));
                assert(all[all.len() - 1] == net.nth(last as int));
            }
        }
    }
}

/// An address lies in a network where it is of the same kind and agrees with the network in the bits
/// of its prefix; so many addresses lie in it as its other bits can tell apart.
pub proof fn law_network(net: Network, v4: u32, v6: u128)
    requires
        net.well_formed(),
    ensures
        match net {
            Network::V4 { address, prefix } => {
                let block = vstd::arithmetic::power2::pow2((32 - prefix) as nat);
                &&& net.size() == block
                &&& net.contains(Ip::V4(v4)) <==> v4 as nat / block == address as nat / block
                &&& !net.contains(Ip::V6(v6))
            },
            Network::V6 { address, prefix } => {
                let block = vstd::arithmetic::power2::pow2((128 - prefix) as nat);
                &&& net.size() == block
                &&& net.contains(Ip::V6(v6)) <==> v6 as nat / block == address as nat / block
                &&& !net.contains(Ip::V4(v4))
            },
        },
{
    match net {
        Network::V4 { address, prefix } => {
            vstd::arithmetic::power2::lemma_pow2_pos((32 - prefix) as nat);
            lemma_same_block(v4 as int, address as int, net.size() as int);
        },
        Network::V6 { address, prefix } => {
            vstd::arithmetic::power2::lemma_pow2_pos((128 - prefix) as nat);
            lemma_same_block(v6 as int, address as int, net.size() as int);
        },
    }
}

proof fn lemma_same_block(x: int, a: int, b: int)
    requires
        x >= 0,
        a >= 0,
        b > 0,
    ensures
        (a - a % b <= x < a - a % b + b) <==> x / b == a / b,
{
    vstd::arithmetic::div_mod::lemma_fundamental_div_mod(x, b);
    vstd::arithmetic::div_mod::lemma_fundamental_div_mod(a, b);
    let p = x / b;
    let q = a / b;
    assert(b * p <= x < b * p + b);
    assert(a - a % b == b * q);
    if p < q {
        assert(b * p + b <= b * q) by (nonlinear_arith)
            requires
                p + 1 <= q,
                b > 0,
        ;
    } else if p > q {
        assert(b * q + b <= b * p) by (nonlinear_arith)
            requires
                q + 1 <= p,
                b > 0,
        ;
    }
}

/// The addresses of a network by their offsets are those that lie in it, each once, upwards.
pub proof fn law_offsets(net: Network, i: int, j: int)
    requires
        net.well_formed(),
        0 <= i < j < net.size(),
    ensures
        net.contains(net.nth(i)),
        net.contains(net.nth(j)),
        match (net.nth(i), net.nth(j)) {
            (Ip::V4(a), Ip::V4(b)) => net is V4 && b - a == j - i,
            (Ip::V6(a), Ip::V6(b)) => net is V6 && b - a == j - i,
            _ => false,
        },
{
    net.lemma_nth(i, j);
    net.lemma_nth(j, i);
}

/// What is gathered falls into one part for each network, in the order of the networks: a sample of
/// that network, for its share or for what was missing to the limit if that is less.
pub proof fn law_gathered_in_parts(
    order: Seq<Network>,
    each: nat,
    limit: nat,
    exclude: Set<Ip>,
    all: Seq<Ip>,
)
    requires
        gathered(order, each, limit, exclude, all),
    ensures
        exists|cuts: Seq<int>| #[trigger] are_parts(order, each, limit, exclude, all, cuts),
    decreases order.len(),
{
    if order.len() == 0 {
        assert(are_parts(order, each, limit, exclude, all, seq![0int]));
    } else {
        let k = lemma_last_part(order, each, limit, exclude, all);
        let init = order.drop_last();
        let head = all.take(k);
        law_gathered_in_parts(init, each, limit, exclude, head);
        let before = choose|cuts: Seq<int>| #[trigger]
            are_parts(init, each, limit, exclude, head, cuts);
        let cuts = before.push(all.len() as int);
        assert forall|i: int| 0 <= i < order.len() implies {
            &&& 0 <= #[trigger] cuts[i] <= cuts[i + 1] <= all.len()
            &&& is_part(
                order[i],
                exclude,
                each,
                limit - cuts[i],
                all.subrange(cuts[i], cuts[i + 1]),
            )
        } by {
            if i < init.len() {
                assert(before[i] == cuts[i] && before[i + 1] == cuts[i + 1]);
                assert(init[i] == order[i]);
                assert(head.subrange(cuts[i], cuts[i + 1]) =~= all.subrange(cuts[i], cuts[i + 1]));
            } else {
                assert(before[i] == k);
            }
        }
        assert(are_parts(order, each, limit, exclude, all, cuts));
    }
}

proof fn lemma_last_part(
    order: Seq<Network>,
    each: nat,
    limit: nat,
    exclude: Set<Ip>,
    all: Seq<Ip>,
) -> (k: int)
    requires
        order.len() > 0,
        gathered(order, each, limit, exclude, all),
    ensures
        0 <= k <= all.len(),
        gathered(order.drop_last(), each, limit, exclude, all.take(k)),
        is_part(order.last(), exclude, each, limit - k, all.subrange(k, all.len() as int)),
{
    reveal(is_part);
    let k = choose|k: int|
        {
            &&& 0 <= k <= all.len()
            &&& gathered(order.drop_last(), each, limit, exclude, #[trigger] all.take(k))
            &&& k < limit ==> order.last().sampleable()
            &&& sampled(order.last(), exclude, at_most(each, limit - k) as usize, all.skip(k))
        };
    assert(all.subrange(k, all.len() as int) =~= all.skip(k));
    k
}

/// Whether `part` is a sample of a network for its share, or for what is missing if that is less.
#[verifier::opaque]
pub open spec fn is_part(
    net: Network,
    exclude: Set<Ip>,
    each: nat,
    missing: int,
    part: Seq<Ip>,
) -> bool {
    sampled(
        net,
        exclude,
        (if missing < 0 {
            0
        } else if missing < each {
            missing
        } else {
            each as int
        }) as usize,
        part,
    )
}

/// Whether `cuts` cuts `all` into one part for each network.
pub open spec fn are_parts(
    order: Seq<Network>,
    each: nat,
    limit: nat,
    exclude: Set<Ip>,
    all: Seq<Ip>,
    cuts: Seq<int>,
) -> bool {
    &&& cuts.len() == order.len() + 1
    &&& cuts[0] == 0
    &&& cuts[order.len() as int] == all.len()
    &&& forall|i: int|
        0 <= i < order.len() ==> {
            &&& 0 <= #[trigger] cuts[i] <= cuts[i + 1] <= all.len()
            &&& is_part(
                order[i],
                exclude,
                each,
                limit - cuts[i],
                all.subrange(cuts[i], cuts[i + 1]),
            )
        }
}

/// The order of the networks and that of the addresses are both made by shuffling.
pub proof fn law_loaded_is_shuffled(
    networks: Seq<Network>,
    limit: nat,
    exclude: Set<Ip>,
    r: Seq<Ip>,
)
    requires
        loaded(networks, limit, exclude, r),
    ensures
        exists|order: Seq<Network>, all: Seq<Ip>|
            {
                &&& #[trigger] random::is_shuffled(networks, order)
                &&& #[trigger] random::is_shuffled(all, r)
                &&& gathered(order, share(limit, networks.len()), limit, exclude, all)
            },
{
    let (order, all) = choose|order: Seq<Network>, all: Seq<Ip>|
        {
            &&& random::is_shuffled(networks, order)
            &&& random::is_shuffled(all, r)
            &&& #[trigger] gathered(order, share(limit, networks.len()), limit, exclude, all)
        };
    assert(random::is_shuffled(networks, order));
    assert(random::is_shuffled(all, r));
}

/// A given limit is the number of addresses that are sampled.
pub proof fn law_given_limit(n: usize)
    ensures
        sample_limit(Some(n)) == n,
        sample_limit(None) == 5500,
{
}

/// Reading lines one after the other reads the networks of each: a line gives a network where, without
/// the white space around it, it is not empty, does not start with '#' and is read as that network.
pub proof fn law_networks_line_by_line(a: Seq<Seq<char>>, b: Seq<Seq<char>>, line: Seq<char>)
    ensures
        networks_in(a + b) == networks_in(a) + networks_in(b),
        skipped_in(a + b) == skipped_in(a) + skipped_in(b),
        ({
            let t = text::trimmed(line);
            let entry = t.len() > 0 && t[0] != '#';
            &&& networks_in(seq![line]) == match parsed_network(t) {
                Some(n) => if entry {
                    seq![n]
                } else {
                    Seq::empty()
                },
                None => Seq::empty(),
            }
            &&& skipped_in(seq![line]) == if entry && parsed_network(t) is None {
                seq![t]
            } else {
                Seq::empty()
            }
        }),
    decreases b.len(),
{
    let one = seq![line];
    assert(one.drop_last() =~= Seq::<Seq<char>>::empty());
    assert(networks_in(one.drop_last()) =~= Seq::<Network>::empty());
    assert(skipped_in(one.drop_last()) =~= Seq::<Seq<char>>::empty());
    assert(networks_in(one) =~= match parsed_network(text::trimmed(line)) {
        Some(n) => if is_entry_text(line) {
            seq![n]
        } else {
            Seq::empty()
        },
        None => Seq::empty(),
    });
    if b.len() == 0 {
        assert(a + b =~= a);
        assert(networks_in(a) + networks_in(b) =~= networks_in(a));
        assert(skipped_in(a) + skipped_in(b) =~= skipped_in(a));
    } else {
        law_networks_line_by_line(a, b.drop_last(), line);
        assert((a + b).drop_last() =~= a + b.drop_last());
        assert((a + b).last() == b.last());
        assert(networks_in(a + b) =~= networks_in(a) + networks_in(b));
        assert(skipped_in(a + b) =~= skipped_in(a) + skipped_in(b));
    }
}

/// A mode of one kind draws from the list of that kind alone, and the mode for both from one list
/// after the other.
pub proof fn law_modes_choose_lists(a: AddressLists, b: AddressLists)
    ensures
        a.ipv4@ == b.ipv4@ ==> mode_networks("ipv4"@, a) == mode_networks("ipv4"@, b)
            && mode_skipped("ipv4"@, a) == mode_skipped("ipv4"@, b),
        a.ipv6@ == b.ipv6@ ==> mode_networks("ipv6"@, a) == mode_networks("ipv6"@, b)
            && mode_skipped("ipv6"@, a) == mode_skipped("ipv6"@, b),
        mode_networks("ipv4"@, a) == networks_in(text::lines_of(a.ipv4@)),
        mode_networks("ipv6"@, a) == networks_in(text::lines_of(a.ipv6@)),
        mode_networks("both"@, a) == mode_networks("ipv4"@, a) + mode_networks("ipv6"@, a),
        mode_skipped("ipv4"@, a) == skipped_in(text::lines_of(a.ipv4@)),
        mode_skipped("ipv6"@, a) == skipped_in(text::lines_of(a.ipv6@)),
        mode_skipped("both"@, a) == mode_skipped("ipv4"@, a) + mode_skipped("ipv6"@, a),
{
    reveal_strlit("ipv4");
    reveal_strlit("ipv6");
    reveal_strlit("both");
    assert("ipv4"@[3] != "ipv6"@[3]);
    assert("ipv4"@[0] != "both"@[0]);
    assert("ipv6"@[0] != "both"@[0]);
}

/// In a line the first colon parts the code from the name, both without the white space around them;
/// a line without a colon gives neither.
pub proof fn law_colo_entry(code: Seq<char>, name: Seq<char>, line: Seq<char>)
    requires
        !code.contains(':'),
        !line.contains(':'),
    ensures
        colo_entry(code + seq![':'] + name) == Some((text::trimmed(code), text::trimmed(name))),
        colo_entry(line) is None,
{
    let s = code + seq![':'] + name;
    text::lemma_trimmed_around(code, ':', name);
    let a = text::trimmed_start(code);
    let b = text::trimmed_end(name);
    let t = text::trimmed(s);
    text::lemma_trimmed_start(code);
    assert forall|i: int| 0 <= i < a.len() implies t[i] != ':' by {
        assert(t[i] == a[i]);
        assert(code[code.len() - a.len() + i] == a[i]);
        if a[i] == ':' {
            assert(code.contains(':'));
        }
    }
    assert(t[a.len() as int] == ':');
    text::lemma_first_index(t, ':', a.len() as int);
    assert(t.take(a.len() as int) =~= a);
    assert(t.skip(a.len() as int + 1) =~= b);
    text::lemma_trimmed_halves(code);
    text::lemma_trimmed_halves(name);
    let u = text::trimmed(line);
    text::law_trimming(line);
    assert forall|i: int| 0 <= i < u.len() implies u[i] != ':' by {
        if u[i] == ':' {
            assert(u.contains(':'));
        }
    }
    text::lemma_first_index(u, ':', u.len() as int);
}

/// A name stands under a code where some entry gives it and no later entry has the same code.
pub proof fn law_later_names_override(entries: Seq<(Seq<char>, Seq<char>)>, i: int)
    requires
        0 <= i < entries.len(),
        forall|j: int| i < j < entries.len() ==> (#[trigger] entries[j]).0 != entries[i].0,
    ensures
        names_by_code(entries).contains_key(entries[i].0),
        names_by_code(entries)[entries[i].0] == entries[i].1,
    decreases entries.len(),
{
    let init = entries.drop_last();
    if i < init.len() {
        assert forall|j: int| i < j < init.len() implies (#[trigger] init[j]).0
            != init[i].0 by {
            assert(init[j] == entries[j]);
        }
        law_later_names_override(init, i);
        assert(entries[entries.len() - 1].0 != entries[i].0);
    }
}

/// No code has a name that no entry gives it.
pub proof fn law_names_are_given(entries: Seq<(Seq<char>, Seq<char>)>, code: Seq<char>)
    ensures
        names_by_code(entries).contains_key(code) ==> entries.contains(
            (code, names_by_code(entries)[code]),
        ),
{
    lemma_names_from_entries(entries, code);
}

/// Reading lines one after the other reads the entries of each: a line gives its code in upper case
/// and its name.
pub proof fn law_entries_line_by_line(a: Seq<Seq<char>>, b: Seq<Seq<char>>, line: Seq<char>)
    ensures
        entries_in(a + b) == entries_in(a) + entries_in(b),
        entries_in(seq![line]) == match colo_entry(line) {
            Some((code, name)) => seq![(text::uppercase(code), name)],
            None => Seq::empty(),
        },
        colo_names(a) == names_by_code(entries_in(a)),
    decreases b.len(),
{
    let one = seq![line];
    assert(one.drop_last() =~= Seq::<Seq<char>>::empty());
    assert(entries_in(one.drop_last()) =~= Seq::<(Seq<char>, Seq<char>)>::empty());
    assert(entries_in(one) =~= match colo_entry(line) {
        Some((code, name)) => seq![(text::uppercase(code), name)],
        None => Seq::empty(),
    });
    if b.len() == 0 {
        assert(a + b =~= a);
        assert(entries_in(a) + entries_in(b) =~= entries_in(a));
    } else {
        law_entries_line_by_line(a, b.drop_last(), line);
        assert((a + b).drop_last() =~= a + b.drop_last());
        assert((a + b).last() == b.last());
        assert(entries_in(a + b) =~= entries_in(a) + entries_in(b));
    }
}

/// Every network can be sampled but an IPv4 network of all addresses.
pub proof fn law_sampleable(net: Network)
    requires
        net.well_formed(),
    ensures
        net.sampleable() <==> !(net matches Network::V4 { address: _, prefix } && prefix == 0),
        net is V4 ==> (net.sampleable() <==> net.size() < 0x1_0000_0000),
{
    match net {
        Network::V4 { address: _, prefix } => {
            vstd::arithmetic::power2::lemma2_to64();
            vstd::arithmetic::power2::lemma2_to64_rest();
            if prefix >= 1 {
                vstd::arithmetic::power2::lemma_pow2_strictly_increases((32 - prefix) as nat, 32);
            }
        },
        Network::V6 { .. } => {},
    }
}

/// Sampling is refused only when it comes to a network that cannot be sampled while addresses are
/// still missing: the networks before it were sampled.
pub proof fn law_refused_when_reached(networks: Seq<Network>, limit: nat, exclude: Set<Ip>)
    requires
        refused(networks, limit, exclude),
    ensures
        exists|order: Seq<Network>, k: int, all: Seq<Ip>|
            {
                &&& random::is_shuffled(networks, order)
                &&& 0 <= k < order.len()
                &&& !(#[trigger] order[k]).sampleable()
                &&& #[trigger] gathered(
                    order.take(k),
                    share(limit, networks.len()),
                    limit,
                    exclude,
                    all,
                )
                &&& all.len() < limit
            },
{
    let each = share(limit, networks.len());
    let order = choose|order: Seq<Network>|
        random::is_shuffled(networks, order) && #[trigger] stopped(order, each, limit, exclude);
    let (k, all) = choose|k: int, all: Seq<Ip>|
        {
            &&& 0 <= k < order.len()
            &&& #[trigger] gathered(order.take(k), each, limit, exclude, all)
            &&& all.len() < limit
            &&& !order[k].sampleable()
        };
    assert(!order[k].sampleable());
    assert(gathered(order.take(k), each, limit, exclude, all));
}

/// The texts of maps and entries stand where the strings stand; what is said of an error names the
/// mode.
pub proof fn law_loader_texts(
    m: Map<Seq<char>, String>,
    code: Seq<char>,
    v: Seq<(String, String)>,
    mode: String,
)
    ensures
        map_views(m).contains_key(code) <==> m.contains_key(code),
        m.contains_key(code) ==> map_views(m)[code] == m[code]@,
        entry_views(v).len() == v.len(),
        forall|i: int| 0 <= i < v.len() ==> (#[trigger] entry_views(v)[i]).0 == v[i].0@,
        forall|i: int| 0 <= i < v.len() ==> (#[trigger] entry_views(v)[i]).1 == v[i].1@,
        LoadError::UnknownMode(mode).text() == "未知 mode: "@ + mode@,
        LoadError::WholeAddressSpace.text() == "IPv4 网段前缀长度不能为 0"@,
{
}

} // verus!
