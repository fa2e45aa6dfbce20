//! Sorted, duplicate-free collections of hosts, networks and address
//! ranges, with logarithmic membership tests.
use vstd::prelude::*;

verus! {

/// A host address: a 32-bit or a 128-bit value; 32-bit addresses order
/// before 128-bit ones.
#[derive(Clone, Copy, Debug, PartialEq, Eq, Structural)]
pub enum HostAddr {
    V4(u32),
    V6(u128),
}

/// The point on a single number line an address orders by.
pub open spec fn addr_key(a: HostAddr) -> int {
    match a {
        HostAddr::V4(x) => x as int,
        HostAddr::V6(x) => 0x1_0000_0000 + (x as int),
    }
}

/// Distinct addresses sit at distinct points.
pub proof fn lemma_addr_key_injective(a: HostAddr, b: HostAddr)
    ensures
        addr_key(a) == addr_key(b) ==> a == b,
{
}

/// Decides the address order.
pub fn addr_lt(a: &HostAddr, b: &HostAddr) -> (r: bool)
    ensures
        r == (addr_key(*a) < addr_key(*b)),
{
    match (a, b) {
        (HostAddr::V4(x), HostAddr::V4(y)) => *x < *y,
        (HostAddr::V4(_), HostAddr::V6(_)) => true,
        (HostAddr::V6(_), HostAddr::V4(_)) => false,
        (HostAddr::V6(x), HostAddr::V6(y)) => *x < *y,
    }
}

/// A network in prefix notation: an address and a prefix length.
#[derive(Clone, Copy, Debug, PartialEq, Eq, Structural)]
pub struct NetAddr {
    pub addr: HostAddr,
    pub prefix_len: u8,
}

/// The prefix length fits the address family.
pub open spec fn net_wf(n: NetAddr) -> bool {
    match n.addr {
        HostAddr::V4(_) => n.prefix_len <= 32,
        HostAddr::V6(_) => n.prefix_len <= 128,
    }
}

/// The point a network orders by: address first, then prefix length.
pub open spec fn net_key(n: NetAddr) -> int {
    addr_key(n.addr) * 256 + n.prefix_len
}

/// Distinct networks sit at distinct points.
pub proof fn lemma_net_key_injective(a: NetAddr, b: NetAddr)
    ensures
        net_key(a) == net_key(b) ==> a == b,
{
    if net_key(a) == net_key(b) {
        assert(addr_key(a.addr) == addr_key(b.addr) && a.prefix_len == b.prefix_len) by {
            let ka = addr_key(a.addr);
            let kb = addr_key(b.addr);
            let pa = a.prefix_len as int;
            let pb = b.prefix_len as int;
            assert(ka * 256 + pa == kb * 256 + pb);
            assert(ka == kb && pa == pb) by (nonlinear_arith)
                requires
                    ka * 256 + pa == kb * 256 + pb,
                    0 <= pa < 256,
                    0 <= pb < 256,
            ;
        }
        lemma_addr_key_injective(a.addr, b.addr);
    }
}

/// Decides the network order.
pub fn net_lt(a: &NetAddr, b: &NetAddr) -> (r: bool)
    ensures
        r == (net_key(*a) < net_key(*b)),
{
    proof {
        let ka = addr_key(a.addr);
        let kb = addr_key(b.addr);
        let pa = a.prefix_len as int;
        let pb = b.prefix_len as int;
        assert((ka * 256 + pa < kb * 256 + pb) == (ka < kb || (ka == kb && pa < pb)))
            by (nonlinear_arith)
            requires
                0 <= pa < 256,
                0 <= pb < 256,
        ;
    }
    if addr_lt(&a.addr, &b.addr) {
        true
    } else if addr_lt(&b.addr, &a.addr) {
        false
    } else {
        proof {
            lemma_addr_key_injective(a.addr, b.addr);
        }
        a.prefix_len < b.prefix_len
    }
}

/// An inclusive address range.
#[derive(Clone, Copy, Debug, PartialEq, Eq, Structural)]
pub struct AddrRange {
    pub start: HostAddr,
    pub end: HostAddr,
}

/// Ranges order by start, then end.
pub open spec fn range_lt(a: AddrRange, b: AddrRange) -> bool {
    addr_key(a.start) < addr_key(b.start) || (a.start == b.start && addr_key(a.end) < addr_key(
        b.end,
    ))
}

/// Decides the range order.
pub fn range_lt_exec(a: &AddrRange, b: &AddrRange) -> (r: bool)
    ensures
        r == range_lt(*a, *b),
{
    if addr_lt(&a.start, &b.start) {
        true
    } else if addr_lt(&b.start, &a.start) {
        false
    } else {
        proof {
            lemma_addr_key_injective(a.start, b.start);
        }
        addr_lt(&a.end, &b.end)
    }
}

/// The network covers the address: they share the prefix bits.
pub open spec fn net_contains(n: NetAddr, a: HostAddr) -> bool {
    match (n.addr, a) {
        (HostAddr::V4(x), HostAddr::V4(y)) => n.prefix_len == 0 || (x >> (
        32 - n.prefix_len) as u32) == (y >> (32 - n.prefix_len) as u32),
        (HostAddr::V6(x), HostAddr::V6(y)) => n.prefix_len == 0 || (x >> (
        128 - n.prefix_len) as u128) == (y >> (128 - n.prefix_len) as u128),
        _ => false,
    }
}

/// The inclusive range covers the address.
pub open spec fn range_contains(r: AddrRange, a: HostAddr) -> bool {
    addr_key(r.start) <= addr_key(a) && addr_key(a) <= addr_key(r.end)
}

/// Strictly ascending hosts.
pub open spec fn hosts_sorted(s: Seq<HostAddr>) -> bool {
    forall|i: int, j: int| 0 <= i < j < s.len() ==> addr_key(s[i]) < addr_key(s[j])
}

/// Strictly ascending networks.
pub open spec fn nets_sorted(s: Seq<NetAddr>) -> bool {
    forall|i: int, j: int| 0 <= i < j < s.len() ==> net_key(s[i]) < net_key(s[j])
}

/// Strictly ascending ranges.
pub open spec fn ranges_sorted(s: Seq<AddrRange>) -> bool {
    forall|i: int, j: int| 0 <= i < j < s.len() ==> range_lt(s[i], s[j])
}

/// Inserting an element touches membership for that element alone.
proof fn lemma_seq_insert_contains<T>(s: Seq<T>, j: int, a: T)
    requires
        0 <= j <= s.len(),
    ensures
        forall|x: T| s.insert(j, a).contains(x) <==> s.contains(x) || x == a,
{
    let t = s.insert(j, a);
    assert forall|x: T| t.contains(x) <==> s.contains(x) || x == a by {
        if t.contains(x) {
            let i = choose|i: int| 0 <= i < t.len() && t[i] == x;
            if i < j {
                assert(s[i] == x);
            } else if i > j {
                assert(s[i - 1] == x);
            }
        }
        if s.contains(x) {
            let i = choose|i: int| 0 <= i < s.len() && s[i] == x;
            if i < j {
                assert(t[i] == x);
            } else {
                assert(t[i + 1] == x);
            }
        }
        if x == a {
            assert(t[j] == x);
        }
    }
}

/// Three collections of network origins: hosts, networks in prefix
/// notation, and explicit ranges, each sorted and duplicate-free.
#[derive(Clone, Debug, Default)]
pub struct HostNetworkGroup {
    hosts: Vec<HostAddr>,
    networks: Vec<NetAddr>,
    ip_ranges: Vec<AddrRange>,
}

impl HostNetworkGroup {
    /// The hosts held.
    pub closed spec fn spec_hosts(&self) -> Seq<HostAddr> {
        self.hosts@
    }

    /// The networks held.
    pub closed spec fn spec_networks(&self) -> Seq<NetAddr> {
        self.networks@
    }

    /// The ranges held.
    pub closed spec fn spec_ip_ranges(&self) -> Seq<AddrRange> {
        self.ip_ranges@
    }

    /// All three collections strictly sorted (hence duplicate-free), and
    /// every network well formed.
    pub open spec fn wf(&self) -> bool {
        &&& hosts_sorted(self.spec_hosts())
        &&& nets_sorted(self.spec_networks())
        &&& ranges_sorted(self.spec_ip_ranges())
        &&& forall|i: int|
            0 <= i < self.spec_networks().len() ==> net_wf(#[trigger] self.spec_networks()[i])
    }

    /// Builds a group from arbitrary collections: input order and
    /// duplicates do not matter, membership does.
    pub fn new(hosts: Vec<HostAddr>, networks: Vec<NetAddr>, ip_ranges: Vec<AddrRange>) -> (r:
        HostNetworkGroup)
        requires
            forall|i: int| 0 <= i < networks@.len() ==> net_wf(#[trigger] networks@[i]),
        ensures
            r.wf(),
            forall|x: HostAddr| r.spec_hosts().contains(x) <==> hosts@.contains(x),
            forall|x: NetAddr| r.spec_networks().contains(x) <==> networks@.contains(x),
            forall|x: AddrRange| r.spec_ip_ranges().contains(x) <==> ip_ranges@.contains(x),
    {
        let mut hs: Vec<HostAddr> = Vec::new();
        let mut i: usize = 0;
        while i < hosts.len()
            invariant
                0 <= i <= hosts.len(),
                hosts_sorted(hs@),
                forall|x: HostAddr| hs@.contains(x) <==> hosts@.take(i as int).contains(x),
            decreases hosts.len() - i,
        {
            insert_host(&mut hs, hosts[i]);
            proof {
                assert(hosts@.take(i + 1) =~= hosts@.take(i as int).push(hosts@[i as int]));
                assert forall|x: HostAddr| hs@.contains(x) <==> hosts@.take(i + 1).contains(
                    x,
                ) by {
                    lemma_push_contains(hosts@.take(i as int), hosts@[i as int]);
                }
            }
            i = i + 1;
        }
        proof {
            assert(hosts@.take(hosts@.len() as int) =~= hosts@);
        }
        let mut ns: Vec<NetAddr> = Vec::new();
        let mut i: usize = 0;
        while i < networks.len()
            invariant
                0 <= i <= networks.len(),
                nets_sorted(ns@),
                forall|j: int| 0 <= j < networks@.len() ==> net_wf(#[trigger] networks@[j]),
                forall|j: int| 0 <= j < ns@.len() ==> net_wf(#[trigger] ns@[j]),
                forall|x: NetAddr| ns@.contains(x) <==> networks@.take(i as int).contains(x),
            decreases networks.len() - i,
        {
            insert_net(&mut ns, networks[i]);
            proof {
                assert(networks@.take(i + 1) =~= networks@.take(i as int).push(
                    networks@[i as int],
                ));
                assert forall|x: NetAddr| ns@.contains(x) <==> networks@.take(i + 1).contains(
                    x,
                ) by {
                    lemma_push_contains(networks@.take(i as int), networks@[i as int]);
                }
                assert forall|j: int| 0 <= j < ns@.len() implies net_wf(#[trigger] ns@[j]) by {
                    assert(ns@.contains(ns@[j]));
                    assert(networks@.take(i + 1).contains(ns@[j]));
                    let p = choose|p: int|
                        0 <= p < networks@.take(i + 1).len() && #[trigger] networks@.take(i + 1)[p]
                            == ns@[j];
                    assert(networks@[p] == ns@[j]);
                }
            }
            i = i + 1;
        }
        proof {
            assert(networks@.take(networks@.len() as int) =~= networks@);
        }
        let mut rs: Vec<AddrRange> = Vec::new();
        let mut i: usize = 0;
        while i < ip_ranges.len()
            invariant
                0 <= i <= ip_ranges.len(),
                ranges_sorted(rs@),
                forall|x: AddrRange| rs@.contains(x) <==> ip_ranges@.take(i as int).contains(x),
            decreases ip_ranges.len() - i,
        {
            insert_range(&mut rs, ip_ranges[i]);
            proof {
                assert(ip_ranges@.take(i + 1) =~= ip_ranges@.take(i as int).push(
                    ip_ranges@[i as int],
                ));
                assert forall|x: AddrRange| rs@.contains(x) <==> ip_ranges@.take(i + 1).contains(
                    x,
                ) by {
                    lemma_push_contains(ip_ranges@.take(i as int), ip_ranges@[i as int]);
                }
            }
            i = i + 1;
        }
        proof {
            assert(ip_ranges@.take(ip_ranges@.len() as int) =~= ip_ranges@);
        }
        HostNetworkGroup { hosts: hs, networks: ns, ip_ranges: rs }
    }

    /// The hosts, sorted and duplicate-free.
    pub fn hosts(&self) -> (r: &Vec<HostAddr>)
        ensures
            r@ == self.spec_hosts(),
    {
        &self.hosts
    }

    /// The networks, sorted and duplicate-free.
    pub fn networks(&self) -> (r: &Vec<NetAddr>)
        ensures
            r@ == self.spec_networks(),
    {
        &self.networks
    }

    /// The ranges, sorted and duplicate-free.
    pub fn ip_ranges(&self) -> (r: &Vec<AddrRange>)
        ensures
            r@ == self.spec_ip_ranges(),
    {
        &self.ip_ranges
    }

    /// Whether the address is one of the hosts, inside one of the networks,
    /// or inside one of the ranges.
    pub fn contains(&self, addr: HostAddr) -> (r: bool)
        requires
            self.wf(),
        ensures
            r == (self.spec_hosts().contains(addr) || (exists|i: int|
                0 <= i < self.spec_networks().len() && net_contains(
                    #[trigger] self.spec_networks()[i],
                    addr,
                )) || (exists|i: int|
                0 <= i < self.spec_ip_ranges().len() && range_contains(
                    #[trigger] self.spec_ip_ranges()[i],
                    addr,
                ))),
    {
        if self.contains_host(addr) {
            return true;
        }
        let mut i: usize = 0;
        while i < self.networks.len()
            invariant
                0 <= i <= self.networks@.len(),
                self.wf(),
                forall|j: int| 0 <= j < i ==> !net_contains(#[trigger] self.spec_networks()[j], addr),
            decreases self.networks.len() - i,
        {
            if net_contains_exec(&self.networks[i], addr) {
                return true;
            }
            i = i + 1;
        }
        let mut i: usize = 0;
        while i < self.ip_ranges.len()
            invariant
                0 <= i <= self.ip_ranges@.len(),
                self.wf(),
                forall|j: int|
                    0 <= j < i ==> !range_contains(#[trigger] self.spec_ip_ranges()[j], addr),
            decreases self.ip_ranges.len() - i,
        {
            if range_contains_exec(&self.ip_ranges[i], addr) {
                return true;
            }
            i = i + 1;
        }
        false
    }

    /// Exact host membership, by binary search.
    pub fn contains_host(&self, host: HostAddr) -> (r: bool)
        requires
            self.wf(),
        ensures
            r == self.spec_hosts().contains(host),
    {
        let mut lo: usize = 0;
        let mut hi: usize = self.hosts.len();
        while lo < hi
            invariant
                0 <= lo <= hi <= self.hosts@.len(),
                self.wf(),
                forall|i: int| 0 <= i < lo ==> addr_key(#[trigger] self.spec_hosts()[i]) < addr_key(
                    host,
                ),
                forall|i: int|
                    hi <= i < self.hosts@.len() ==> addr_key(host) < addr_key(
                        #[trigger] self.spec_hosts()[i],
                    ),
            decreases hi - lo,
        {
            let mid = lo + (hi - lo) / 2;
            if addr_lt(&self.hosts[mid], &host) {
                lo = mid + 1;
            } else if addr_lt(&host, &self.hosts[mid]) {
                hi = mid;
            } else {
                proof {
                    lemma_addr_key_injective(self.spec_hosts()[mid as int], host);
                    assert(self.spec_hosts().contains(host)) by {
                        assert(self.spec_hosts()[mid as int] == host);
                    }
                }
                return true;
            }
        }
        proof {
            if self.spec_hosts().contains(host) {
                let i = choose|i: int|
                    0 <= i < self.spec_hosts().len() && self.spec_hosts()[i] == host;
            }
        }
        false
    }

    /// Exact network membership, by binary search.
    pub fn contains_network(&self, network: &NetAddr) -> (r: bool)
        requires
            self.wf(),
        ensures
            r == self.spec_networks().contains(*network),
    {
        let mut lo: usize = 0;
        let mut hi: usize = self.networks.len();
        while lo < hi
            invariant
                0 <= lo <= hi <= self.networks@.len(),
                self.wf(),
                forall|i: int| 0 <= i < lo ==> net_key(#[trigger] self.spec_networks()[i])
                    < net_key(*network),
                forall|i: int|
                    hi <= i < self.networks@.len() ==> net_key(*network) < net_key(
                        #[trigger] self.spec_networks()[i],
                    ),
            decreases hi - lo,
        {
            let mid = lo + (hi - lo) / 2;
            if net_lt(&self.networks[mid], network) {
                lo = mid + 1;
            } else if net_lt(network, &self.networks[mid]) {
                hi = mid;
            } else {
                proof {
                    lemma_net_key_injective(self.spec_networks()[mid as int], *network);
                    assert(self.spec_networks().contains(*network)) by {
                        assert(self.spec_networks()[mid as int] == *network);
                    }
                }
                return true;
            }
        }
        proof {
            if self.spec_networks().contains(*network) {
                let i = choose|i: int|
                    0 <= i < self.spec_networks().len() && self.spec_networks()[i] == *network;
            }
        }
        false
    }

    /// Exact range membership, by linear scan.
    pub fn contains_ip_range(&self, ip_range: &AddrRange) -> (r: bool)
        ensures
            r == self.spec_ip_ranges().contains(*ip_range),
    {
        let mut i: usize = 0;
        while i < self.ip_ranges.len()
            invariant
                0 <= i <= self.ip_ranges@.len(),
                forall|j: int| 0 <= j < i ==> self.spec_ip_ranges()[j] != *ip_range,
            decreases self.ip_ranges.len() - i,
        {
            if self.ip_ranges[i] == *ip_range {
                proof {
                    assert(self.spec_ip_ranges()[i as int] == *ip_range);
                }
                return true;
            }
            i = i + 1;
        }
        proof {
            if self.spec_ip_ranges().contains(*ip_range) {
                let j = choose|j: int|
                    0 <= j < self.spec_ip_ranges().len() && self.spec_ip_ranges()[j] == *ip_range;
            }
        }
        false
    }
}

/// Decides network coverage of an address.
pub fn net_contains_exec(n: &NetAddr, a: HostAddr) -> (r: bool)
    requires
        net_wf(*n),
    ensures
        r == net_contains(*n, a),
{
    match (&n.addr, &a) {
        (HostAddr::V4(x), HostAddr::V4(y)) => {
            if n.prefix_len == 0 {
                true
            } else {
                let sh: u32 = (32 - n.prefix_len) as u32;
                (*x >> sh) == (*y >> sh)
            }
        },
        (HostAddr::V6(x), HostAddr::V6(y)) => {
            if n.prefix_len == 0 {
                true
            } else {
                let sh: u128 = (128 - n.prefix_len) as u128;
                (*x >> sh) == (*y >> sh)
            }
        },
        _ => false,
    }
}

/// Decides range coverage of an address.
pub fn range_contains_exec(r: &AddrRange, a: HostAddr) -> (res: bool)
    ensures
        res == range_contains(*r, a),
{
    !addr_lt(&a, &r.start) && !addr_lt(&r.end, &a)
}

/// Appending an element touches membership for that element alone.
proof fn lemma_push_contains<T>(s: Seq<T>, a: T)
    ensures
        forall|x: T| s.push(a).contains(x) <==> s.contains(x) || x == a,
{
    let t = s.push(a);
    assert forall|x: T| t.contains(x) <==> s.contains(x) || x == a by {
        if t.contains(x) {
            let i = choose|i: int| 0 <= i < t.len() && t[i] == x;
            if i < s.len() {
                assert(s[i] == x);
            }
        }
        if s.contains(x) {
            let i = choose|i: int| 0 <= i < s.len() && s[i] == x;
            assert(t[i] == x);
        }
        if x == a {
            assert(t[s.len() as int] == x);
        }
    }
}

/// Inserts a host into a sorted vector, keeping it sorted and dropping a
/// duplicate.
fn insert_host(out: &mut Vec<HostAddr>, item: HostAddr)
    requires
        hosts_sorted(old(out)@),
    ensures
        hosts_sorted(final(out)@),
        forall|x: HostAddr| final(out)@.contains(x) <==> old(out)@.contains(x) || x == item,
{
    let mut j: usize = 0;
    while j < out.len() && addr_lt(&out[j], &item)
        invariant
            0 <= j <= out@.len(),
            out@ == old(out)@,
            forall|p: int| 0 <= p < j ==> addr_key(#[trigger] out@[p]) < addr_key(item),
        decreases out.len() - j,
    {
        j = j + 1;
    }
    if j < out.len() && out[j] == item {
        proof {
            assert(out@[j as int] == item);
            assert(out@.contains(item));
        }
        return;
    }
    proof {
        if j < out@.len() {
            lemma_addr_key_injective(out@[j as int], item);
            assert(addr_key(item) < addr_key(out@[j as int]));
        }
        lemma_seq_insert_contains(out@, j as int, item);
    }
    out.insert(j, item);
    proof {
        let t = out@;
        let s = old(out)@;
        let jj = j as int;
        assert forall|p: int, q: int| 0 <= p < q < t.len() implies addr_key(t[p]) < addr_key(
            t[q],
        ) by {
            if p == jj {
                assert(t[p] == item);
                assert(t[q] == s[q - 1] && q - 1 >= jj);
            } else if q == jj {
                assert(t[q] == item);
                assert(t[p] == s[p] && p < jj);
            } else {
                let p0 = if p < jj {
                    p
                } else {
                    p - 1
                };
                let q0 = if q < jj {
                    q
                } else {
                    q - 1
                };
                assert(t[p] == s[p0] && t[q] == s[q0]);
            }
        }
        assert(t =~= s.insert(jj, item));
        assert forall|x: HostAddr| t.contains(x) <==> s.contains(x) || x == item by {
            lemma_seq_insert_contains(s, jj, item);
            assert(t == s.insert(jj, item));
        }
    }
}

/// Inserts a network into a sorted vector, keeping it sorted and dropping a
/// duplicate.
fn insert_net(out: &mut Vec<NetAddr>, item: NetAddr)
    requires
        nets_sorted(old(out)@),
    ensures
        nets_sorted(final(out)@),
        forall|x: NetAddr| final(out)@.contains(x) <==> old(out)@.contains(x) || x == item,
{
    let mut j: usize = 0;
    while j < out.len() && net_lt(&out[j], &item)
        invariant
            0 <= j <= out@.len(),
            out@ == old(out)@,
            forall|p: int| 0 <= p < j ==> net_key(#[trigger] out@[p]) < net_key(item),
        decreases out.len() - j,
    {
        j = j + 1;
    }
    if j < out.len() && out[j] == item {
        proof {
            assert(out@[j as int] == item);
            assert(out@.contains(item));
        }
        return;
    }
    proof {
        if j < out@.len() {
            lemma_net_key_injective(out@[j as int], item);
            assert(net_key(item) < net_key(out@[j as int]));
        }
        lemma_seq_insert_contains(out@, j as int, item);
    }
    out.insert(j, item);
    proof {
        let t = out@;
        let s = old(out)@;
        let jj = j as int;
        assert forall|p: int, q: int| 0 <= p < q < t.len() implies net_key(t[p]) < net_key(
            t[q],
        ) by {
            if p == jj {
                assert(t[p] == item);
                assert(t[q] == s[q - 1] && q - 1 >= jj);
            } else if q == jj {
                assert(t[q] == item);
                assert(t[p] == s[p] && p < jj);
            } else {
                let p0 = if p < jj {
                    p
                } else {
                    p - 1
                };
                let q0 = if q < jj {
                    q
                } else {
                    q - 1
                };
                assert(t[p] == s[p0] && t[q] == s[q0]);
            }
        }
        assert(t =~= s.insert(jj, item));
        assert forall|x: NetAddr| t.contains(x) <==> s.contains(x) || x == item by {
            lemma_seq_insert_contains(s, jj, item);
            assert(t == s.insert(jj, item));
        }
    }
}

/// Inserts a range into a sorted vector, keeping it sorted and dropping a
/// duplicate.
fn insert_range(out: &mut Vec<AddrRange>, item: AddrRange)
    requires
        ranges_sorted(old(out)@),
    ensures
        ranges_sorted(final(out)@),
        forall|x: AddrRange| final(out)@.contains(x) <==> old(out)@.contains(x) || x == item,
{
    let mut j: usize = 0;
    while j < out.len() && range_lt_exec(&out[j], &item)
        invariant
            0 <= j <= out@.len(),
            out@ == old(out)@,
            forall|p: int| 0 <= p < j ==> range_lt(#[trigger] out@[p], item),
        decreases out.len() - j,
    {
        j = j + 1;
    }
    if j < out.len() && out[j] == item {
        proof {
            assert(out@[j as int] == item);
            assert(out@.contains(item));
        }
        return;
    }
    proof {
        if j < out@.len() {
            let w = out@[j as int];
            assert(!range_lt(w, item) && w != item);
            lemma_addr_key_injective(w.start, item.start);
            lemma_addr_key_injective(w.end, item.end);
            assert(range_lt(item, w));
        }
        lemma_seq_insert_contains(out@, j as int, item);
    }
    out.insert(j, item);
    proof {
        let t = out@;
        let s = old(out)@;
        let jj = j as int;
        assert forall|p: int, q: int| 0 <= p < q < t.len() implies range_lt(t[p], t[q]) by {
            if p == jj {
                assert(t[p] == item);
                assert(t[q] == s[q - 1] && q - 1 >= jj);
                if q - 1 > jj {
                    assert(range_lt(s[jj], s[q - 1]));
                }
            } else if q == jj {
                assert(t[q] == item);
                assert(t[p] == s[p] && p < jj);
            } else {
                let p0 = if p < jj {
                    p
                } else {
                    p - 1
                };
                let q0 = if q < jj {
                    q
                } else {
                    q - 1
                };
                assert(t[p] == s[p0] && t[q] == s[q0]);
            }
        }
        assert(t =~= s.insert(jj, item));
        assert forall|x: AddrRange| t.contains(x) <==> s.contains(x) || x == item by {
            lemma_seq_insert_contains(s, jj, item);
            assert(t == s.insert(jj, item));
        }
    }
}

} // verus!
