//! NAT types and the planning of hole punching: which public addresses of a
//! peer to send to, and in what order.
use std::collections::HashMap;
use std::hash::Hash;

use rand::seq::SliceRandom;
use vstd::prelude::*;

use crate::addr::{IpAddress, SockAddr};
use crate::channel::table::{clone_id, id_model};

verus! {

broadcast use vstd::std_specs::hash::group_hash_axioms, vstd::seq_lib::group_to_multiset_ensures;

/// The kind of NAT a host is behind.
#[derive(Clone, Copy, PartialEq, Eq, Debug, Hash, Structural)]
pub enum NatType {
    /// A different public port for each destination.
    Symmetric,
    /// The same public port for every destination.
    Cone,
}

/// What is known of a peer's public side: its public IPs, its public port,
/// how far its public ports were seen to spread, and its NAT type.
#[derive(Clone, Debug)]
pub struct NatInfo {
    public_ips: Vec<IpAddress>,
    public_port: u16,
    public_port_range: u16,
    nat_type: NatType,
}

impl NatInfo {
    pub fn new(public_ips: Vec<IpAddress>, public_port: u16, public_port_range: u16, nat_type: NatType) -> (r:
        Self)
        ensures
            r.ips() == public_ips@,
            r.port() == public_port,
            r.port_range() == public_port_range,
            r.kind() == nat_type,
    {
        NatInfo { public_ips, public_port, public_port_range, nat_type }
    }

    pub closed spec fn ips(&self) -> Seq<IpAddress> {
        self.public_ips@
    }

    pub closed spec fn port(&self) -> u16 {
        self.public_port
    }

    pub closed spec fn port_range(&self) -> u16 {
        self.public_port_range
    }

    pub closed spec fn kind(&self) -> NatType {
        self.nat_type
    }

    /// The peer's public IPs.
    pub fn public_ips(&self) -> (r: &Vec<IpAddress>)
        ensures
            r@ == self.ips(),
    {
        &self.public_ips
    }

    /// The peer's public port.
    pub fn public_port(&self) -> (r: u16)
        ensures
            r == self.port(),
    {
        self.public_port
    }

    /// How far the peer's public ports were seen to spread.
    pub fn public_port_range(&self) -> (r: u16)
        ensures
            r == self.port_range(),
    {
        self.public_port_range
    }

    /// The peer's NAT type.
    pub fn nat_type(&self) -> (r: NatType)
        ensures
            r == self.kind(),
    {
        self.nat_type
    }
}

/// The number of public ports of a host.
pub const PORT_COUNT: usize = 65535;

/// All public ports, 1 to 65535, in increasing order.
pub open spec fn all_ports() -> Seq<u16> {
    Seq::new(65535, |i: int| (i + 1) as u16)
}

/// The ports `lo` to `hi`, in increasing order.
pub open spec fn port_span(lo: int, hi: int) -> Seq<u16> {
    Seq::new((hi - lo + 1) as nat, |i: int| (lo + i) as u16)
}

/// The addresses at `ip` for each IP of `ips`, with port `port`.
pub open spec fn row(ips: Seq<IpAddress>, port: u16) -> Seq<SockAddr> {
    ips.map_values(|ip: IpAddress| SockAddr::spec_new(ip, port))
}

/// Every pair of a port of `ports` and an IP of `ips`, port by port.
pub open spec fn pairs(ports: Seq<u16>, ips: Seq<IpAddress>) -> Seq<SockAddr>
    decreases ports.len(),
{
    if ports.len() == 0 {
        Seq::empty()
    } else {
        pairs(ports.drop_last(), ips) + row(ips, ports.last())
    }
}

/// The addresses of a punching round over `ports` with at most `limit`
/// attempts counted: the first `limit - 1` pairs (all, when there are fewer).
pub open spec fn send_list(ports: Seq<u16>, ips: Seq<IpAddress>, limit: int) -> Seq<SockAddr> {
    let all = pairs(ports, ips);
    if 0 < limit && limit - 1 < all.len() {
        all.take(limit - 1)
    } else {
        all
    }
}

proof fn lemma_pairs_step(ports: Seq<u16>, ips: Seq<IpAddress>, a: int)
    requires
        0 <= a < ports.len(),
    ensures
        pairs(ports.take(a + 1), ips) == pairs(ports.take(a), ips) + row(ips, ports[a]),
{
    assert(ports.take(a + 1).drop_last() == ports.take(a));
}

proof fn lemma_pairs_prefix(ports: Seq<u16>, ips: Seq<IpAddress>, a: int)
    requires
        0 <= a <= ports.len(),
    ensures
        pairs(ports.take(a), ips).len() <= pairs(ports, ips).len(),
        pairs(ports.take(a), ips) == pairs(ports, ips).take(pairs(ports.take(a), ips).len() as int),
    decreases ports.len() - a,
{
    if a < ports.len() {
        lemma_pairs_prefix(ports, ips, a + 1);
        lemma_pairs_step(ports, ips, a);
        let x = pairs(ports.take(a), ips);
        let y = pairs(ports.take(a + 1), ips);
        assert(x == y.take(x.len() as int));
    } else {
        assert(ports.take(a) == ports);
    }
}

/// The addresses of a punching round over `ports[start..end]` and `ips`
/// with at most `limit` attempts counted (see `send_list`); a `limit` of 0
/// counts nothing and gives every pair.
pub fn spread_targets(ports: &Vec<u16>, start: usize, end: usize, ips: &Vec<IpAddress>, limit: usize) -> (r:
    Vec<SockAddr>)
    requires
        start <= end <= ports@.len(),
    ensures
        r@ == send_list(ports@.subrange(start as int, end as int), ips@, limit as int),
{
    let ghost span = ports@.subrange(start as int, end as int);
    let mut out: Vec<SockAddr> = Vec::new();
    let mut count: usize = 0;
    let mut a: usize = start;
    while a < end
        invariant
            start <= a <= end <= ports@.len(),
            span == ports@.subrange(start as int, end as int),
            out@ == pairs(span.take(a - start), ips@),
            limit > 0 ==> count == out@.len() && count < limit,
        decreases end - a,
    {
        let port = ports[a];
        let ghost base = out@;
        let mut b: usize = 0;
        while b < ips.len()
            invariant
                start <= a < end <= ports@.len(),
                span == ports@.subrange(start as int, end as int),
                port == span[a - start],
                base == pairs(span.take(a - start), ips@),
                b <= ips@.len(),
                out@ == base + row(ips@, port).take(b as int),
                limit > 0 ==> count == out@.len() && count < limit,
            decreases ips@.len() - b,
        {
            if limit > 0 {
                count = count + 1;
            }
            if limit > 0 && count == limit {
                proof {
                    lemma_pairs_step(span, ips@, a - start);
                    lemma_pairs_prefix(span, ips@, a - start + 1);
                    let full = pairs(span, ips@);
                    let upto = pairs(span.take(a - start + 1), ips@);
                    assert(out@ == upto.take(out@.len() as int));
                    assert(out@ == full.take(out@.len() as int));
                }
                return out;
            }
            out.push(SockAddr::new(ips[b], port));
            proof {
                assert(row(ips@, port).take(b + 1) == row(ips@, port).take(b as int).push(
                    SockAddr::spec_new(ips@[b as int], port),
                ));
            }
            b = b + 1;
        }
        proof {
            assert(row(ips@, port).take(b as int) == row(ips@, port));
            lemma_pairs_step(span, ips@, a - start);
        }
        a = a + 1;
    }
    proof {
        assert(span.take(end - start) == span);
    }
    out
}

/// Shuffles `ports` in place with `rand::seq::SliceRandom::shuffle` and the
/// thread's random number generator. The result is a permutation of the
/// input: the same ports, each as often as before.
#[verifier::external_body]
fn shuffle_ports(ports: &mut Vec<u16>)
    ensures
        final(ports)@.to_multiset() == old(ports)@.to_multiset(),
{
    ports.shuffle(&mut rand::thread_rng());
}

/// The ports `lo` to `hi`, in increasing order.
fn port_list(lo: u16, hi: u16) -> (r: Vec<u16>)
    requires
        lo <= hi,
    ensures
        r@ == port_span(lo as int, hi as int),
{
    let mut out: Vec<u16> = Vec::new();
    let mut p: u16 = lo;
    loop
        invariant
            lo <= p <= hi,
            out@ == port_span(lo as int, p - 1),
        decreases hi - p,
    {
        out.push(p);
        proof {
            assert(out@ =~= port_span(lo as int, p as int));
        }
        if p == hi {
            return out;
        }
        p = p + 1;
    }
}

/// How many attempts a punching round may count, first near the peer's
/// public port and then across all ports: more when this host is behind a
/// cone NAT.
pub open spec fn round_limits(is_cone: bool) -> (u16, usize) {
    if is_cone {
        (60, 800)
    } else {
        (5, 10)
    }
}

/// The ports near `port`: from `port - range` (at least 1) to `port + range`
/// (at most 65535).
pub open spec fn near_span(port: u16, range: u16) -> (int, int) {
    let lo = if port > range { port - range } else { 1 };
    let hi = if port + range > 65535 { 65535 } else { port + range };
    (lo, hi)
}

/// How a punch at a peer is carried out.
pub enum PunchPlan {
    /// Send to each address, from the default socket.
    Direct(Vec<SockAddr>),
    /// Send to the `near` addresses and then to the `sweep` addresses,
    /// stopping at the first failure; from every socket of the channel when
    /// `spread` holds, else from the default socket. When all were sent, the
    /// peer's next sweep starts at `next_index` of the port order.
    Sweep { near: Vec<SockAddr>, sweep: Vec<SockAddr>, spread: bool, next_index: usize },
}

/// The contents of a planner: the order in which ports are swept, and for
/// each peer the position where its next sweep starts.
#[verifier::reject_recursive_types(ID)]
pub struct PunchPlannerView<ID> {
    pub ports: Seq<u16>,
    pub index: Map<ID, usize>,
}

/// Where the next sweep at `id` starts.
pub open spec fn sweep_start<ID>(v: PunchPlannerView<ID>, id: ID) -> int {
    if v.index.contains_key(id) {
        v.index[id] as int
    } else {
        0
    }
}

/// The end of the sweep that starts at `start` with `k2` ports, and where the
/// next one starts: the sweep stops at the end of the port order, and the
/// next one then starts from the beginning.
pub open spec fn sweep_end(start: int, k2: int, len: int) -> (int, int) {
    if start + k2 >= len {
        (len, 0)
    } else {
        (start + k2, start + k2)
    }
}

/// The plan for a punch at a peer whose public side is `info`, from a host
/// behind a cone NAT or not (`is_cone`), when the peer's sweep starts at
/// position `start` of the port order `ports`. For a cone peer: its public
/// port at each public IP. For a symmetric peer: when its ports spread less
/// than twice the near limit, up to that many ports near its public port, in
/// the order `near_order`, then the window of the port order from `start`.
pub open spec fn plan_at(
    ports: Seq<u16>,
    start: int,
    info: NatInfo,
    is_cone: bool,
    near_order: Seq<u16>,
    r: PunchPlan,
) -> bool {
    let (k1, k2) = round_limits(is_cone);
    match info.kind() {
        NatType::Cone => r matches PunchPlan::Direct(targets) && targets@ == row(info.ips(), info.port()),
        NatType::Symmetric => {
            let (end, next) = sweep_end(start, k2 as int, ports.len() as int);
            let (lo, hi) = near_span(info.port(), info.port_range());
            let k = if hi - lo + 1 > k1 { k1 as int } else { hi - lo + 1 };
            &&& r matches PunchPlan::Sweep { near, sweep, spread, next_index }
            &&& spread == !is_cone
            &&& sweep@ == send_list(ports.subrange(start, end), info.ips(), k2 as int)
            &&& next_index == next
            &&& if info.port_range() < 2 * k1 {
                &&& near_order.to_multiset() == port_span(lo, hi).to_multiset()
                &&& near@ == send_list(near_order.take(k), info.ips(), k1 as int)
            } else {
                near@.len() == 0
            }
        },
    }
}

/// The plan for a punch at `id` (see `plan_at`), whose sweep starts where
/// the planner keeps the position of `id`.
pub open spec fn plan_spec<ID>(
    v: PunchPlannerView<ID>,
    id: ID,
    info: NatInfo,
    is_cone: bool,
    near_order: Seq<u16>,
    r: PunchPlan,
) -> bool {
    plan_at(v.ports, sweep_start(v, id), info, is_cone, near_order, r)
}

/// The port order and per-peer positions of hole punching at symmetric NATs.
pub struct PunchPlanner<ID> {
    port_vec: Vec<u16>,
    port_index: HashMap<ID, usize>,
}

impl<ID> View for PunchPlanner<ID> {
    type V = PunchPlannerView<ID>;

    closed spec fn view(&self) -> PunchPlannerView<ID> {
        PunchPlannerView { ports: self.port_vec@, index: self.port_index@ }
    }
}

impl<ID: Eq + Hash + Clone> PunchPlanner<ID> {
    /// The port order holds every port once, and every position lies inside it.
    pub closed spec fn wf(&self) -> bool {
        &&& self.port_vec@.to_multiset() == all_ports().to_multiset()
        &&& self.port_vec@.len() == PORT_COUNT
        &&& id_model::<ID>() ==> forall|id: ID| #[trigger]
            self.port_index@.contains_key(id) ==> self.port_index@[id] < PORT_COUNT
    }

    /// A well-formed planner's port order holds every port once, and every
    /// position lies inside it.
    pub proof fn lemma_wf(&self)
        requires
            self.wf(),
        ensures
            self@.ports.to_multiset() == all_ports().to_multiset(),
            self@.ports.len() == PORT_COUNT,
            id_model::<ID>() ==> forall|id: ID| #[trigger]
                self@.index.contains_key(id) ==> self@.index[id] < PORT_COUNT,
    {
    }

    /// A planner with a random port order and no positions.
    pub fn new() -> (r: Self)
        ensures
            r.wf(),
            r@.ports.to_multiset() == all_ports().to_multiset(),
            r@.ports.len() == PORT_COUNT,
            r@.index == Map::<ID, usize>::empty(),
    {
        let mut port_vec = port_list(1, 65535);
        proof {
            assert(port_vec@ =~= all_ports());
        }
        shuffle_ports(&mut port_vec);
        proof {
            port_vec@.to_multiset_ensures();
            all_ports().to_multiset_ensures();
        }
        PunchPlanner { port_vec, port_index: HashMap::new() }
    }

    /// A planner with the same ports in a new random order and no positions.
    pub fn try_clone(&self) -> (r: Self)
        requires
            self.wf(),
        ensures
            r.wf(),
            r@.ports.to_multiset() == self@.ports.to_multiset(),
            r@.ports.len() == PORT_COUNT,
            r@.index == Map::<ID, usize>::empty(),
    {
        let mut port_vec = self.port_vec.clone();
        proof {
            assert(port_vec@ =~= self.port_vec@);
        }
        shuffle_ports(&mut port_vec);
        proof {
            port_vec@.to_multiset_ensures();
            self.port_vec@.to_multiset_ensures();
        }
        PunchPlanner { port_vec, port_index: HashMap::new() }
    }

    /// The plan of a punch at `id` (see `plan_spec`). The ports near a
    /// symmetric peer's public port are shuffled at random.
    pub fn plan(&self, id: &ID, info: &NatInfo, is_cone: bool) -> (r: PunchPlan)
        requires
            self.wf(),
            !(info.kind() == NatType::Symmetric && info.port() == 0 && info.port_range() == 0),
        ensures
            exists|near_order: Seq<u16>, start: int|
                #![trigger plan_at(self@.ports, start, *info, is_cone, near_order, r)]
                {
                    &&& 0 <= start < self@.ports.len()
                    &&& plan_at(self@.ports, start, *info, is_cone, near_order, r)
                    &&& id_model::<ID>() ==> start == sweep_start(self@, *id)
                },
            id_model::<ID>() || info.kind() == NatType::Cone ==> exists|near_order: Seq<u16>| plan_spec(self@, *id, *info, is_cone, near_order, r),
    {
        let (max_k1, max_k2): (u16, usize) = if is_cone {
            (60, 800)
        } else {
            (5, 10)
        };
        match info.nat_type {
            NatType::Cone => {
                let mut targets: Vec<SockAddr> = Vec::new();
                let mut i: usize = 0;
                while i < info.public_ips.len()
                    invariant
                        i <= info.ips().len(),
                        targets@ == row(info.ips().take(i as int), info.port()),
                    decreases info.ips().len() - i,
                {
                    targets.push(SockAddr::new(info.public_ips[i], info.public_port));
                    proof {
                        assert(row(info.ips().take(i + 1), info.port()) =~= row(info.ips().take(i as int), info.port()).push(
                            SockAddr::spec_new(info.ips()[i as int], info.port()),
                        ));
                    }
                    i = i + 1;
                }
                proof {
                    assert(info.ips().take(i as int) == info.ips());
                }
                let r = PunchPlan::Direct(targets);
                proof {
                    assert(plan_spec(self@, *id, *info, is_cone, Seq::empty(), r));
                    assert(plan_at(self@.ports, 0, *info, is_cone, Seq::empty(), r));
                }
                r
            },
            NatType::Symmetric => {
                let port = info.public_port;
                let range = info.public_port_range;
                let mut near: Vec<SockAddr> = Vec::new();
                let ghost mut near_order: Seq<u16> = Seq::empty();
                if range < max_k1 * 2 {
                    let min_port = if port > range {
                        port - range
                    } else {
                        1
                    };
                    let max_port = match port.checked_add(range) {
                        Some(sum) => sum,
                        None => 65535,
                    };
                    let k = if max_port - min_port + 1 > max_k1 {
                        max_k1 as usize
                    } else {
                        (max_port - min_port + 1) as usize
                    };
                    let mut nums = port_list(min_port, max_port);
                    shuffle_ports(&mut nums);
                    proof {
                        nums@.to_multiset_ensures();
                        port_span(min_port as int, max_port as int).to_multiset_ensures();
                    }
                    near = spread_targets(&nums, 0, k, &info.public_ips, max_k1 as usize);
                    proof {
                        near_order = nums@;
                        assert(nums@.subrange(0, k as int) == nums@.take(k as int));
                    }
                }
                let len = self.port_vec.len();
                let start = match self.port_index.get(id) {
                    Some(s) => if *s < len {
                        *s
                    } else {
                        0
                    },
                    None => 0,
                };
                let mut end = start + max_k2;
                let mut next_index = end;
                if end >= len {
                    end = len;
                    next_index = 0;
                }
                let sweep = spread_targets(&self.port_vec, start, end, &info.public_ips, max_k2);
                let r = PunchPlan::Sweep { near, sweep, spread: !is_cone, next_index };
                proof {
                    assert(plan_at(self@.ports, start as int, *info, is_cone, near_order, r));
                    if id_model::<ID>() {
                        assert(plan_spec(self@, *id, *info, is_cone, near_order, r));
                    }
                }
                r
            },
        }
    }

    /// The order in which ports are swept.
    pub fn port_order(&self) -> (r: &Vec<u16>)
        ensures
            r@ == self@.ports,
    {
        &self.port_vec
    }

    /// Records that the next sweep at `id` starts at `next_index`, after a
    /// sweep whose sends all succeeded.
    pub fn record_sweep(&mut self, id: ID, next_index: usize)
        requires
            old(self).wf(),
            next_index < PORT_COUNT,
        ensures
            final(self).wf(),
            id_model::<ID>() ==> final(self)@.index == old(self)@.index.insert(id, next_index),
            final(self)@.ports == old(self)@.ports,
    {
        self.port_index.insert(id, next_index);
    }
}

/// Sweeps at a peer walk the port order window after window: after a plan
/// whose sends all succeeded is recorded, the next sweep at that peer starts
/// where the last one ended, or at the beginning once the end was reached;
/// and a sweep never reaches past the port order.
pub proof fn law_sweep_rotation<ID>(
    v: PunchPlannerView<ID>,
    id: ID,
    info: NatInfo,
    is_cone: bool,
    near_order: Seq<u16>,
    r: PunchPlan,
)
    requires
        plan_spec(v, id, info, is_cone, near_order, r),
        info.kind() == NatType::Symmetric,
        v.ports.len() == PORT_COUNT,
        forall|i: ID| #[trigger] v.index.contains_key(i) ==> v.index[i] < PORT_COUNT,
    ensures
        r matches PunchPlan::Sweep { next_index, .. } && {
            let w = PunchPlannerView { ports: v.ports, index: v.index.insert(id, next_index) };
            let start = sweep_start(v, id);
            let (k1, k2) = round_limits(is_cone);
            &&& 0 <= start < PORT_COUNT
            &&& sweep_start(w, id) == next_index
            &&& next_index < PORT_COUNT
            &&& (next_index == start + k2 || (next_index == 0 && start + k2 >= PORT_COUNT))
        },
{
}

/// The sweep of a plan (empty for a direct one).
pub open spec fn sweep_of(r: PunchPlan) -> Seq<SockAddr> {
    match r {
        PunchPlan::Sweep { sweep, .. } => sweep@,
        PunchPlan::Direct(_) => Seq::empty(),
    }
}

/// The near addresses of a plan (empty for a direct one).
pub open spec fn near_of(r: PunchPlan) -> Seq<SockAddr> {
    match r {
        PunchPlan::Sweep { near, .. } => near@,
        PunchPlan::Direct(_) => Seq::empty(),
    }
}

/// Where the next sweep starts after a plan was carried out (0 for a
/// direct one).
pub open spec fn next_of(r: PunchPlan) -> usize {
    match r {
        PunchPlan::Sweep { next_index, .. } => next_index,
        PunchPlan::Direct(_) => 0,
    }
}

/// How many sweeps it takes to walk the whole port order once.
pub open spec fn sweep_rounds(is_cone: bool) -> int {
    let k2 = round_limits(is_cone).1 as int;
    (PORT_COUNT as int + k2 - 1) / k2
}

/// Rounds of punching at the symmetric peer `id`: plan `rs[n]` was made in
/// planner `vs[n]`, and `vs[n + 1]` is `vs[n]` after that round was
/// recorded. The port order of the first planner holds every port once, and
/// the first sweep at `id` starts at the beginning of it.
pub open spec fn sweep_history<ID>(
    vs: Seq<PunchPlannerView<ID>>,
    rs: Seq<PunchPlan>,
    near_orders: Seq<Seq<u16>>,
    id: ID,
    info: NatInfo,
    is_cone: bool,
) -> bool {
    &&& vs.len() == rs.len() + 1
    &&& near_orders.len() == rs.len()
    &&& vs[0].ports.to_multiset() == all_ports().to_multiset()
    &&& sweep_start(vs[0], id) == 0
    &&& info.kind() == NatType::Symmetric
    &&& forall|n: int|
        #![trigger rs[n]]
        0 <= n < rs.len() ==> {
            &&& plan_spec(vs[n], id, info, is_cone, near_orders[n], rs[n])
            &&& vs[n + 1] == (PunchPlannerView {
                ports: vs[n].ports,
                index: vs[n].index.insert(id, next_of(rs[n])),
            })
        }
}

/// A port order that holds every port once has no port twice and no port 0.
proof fn lemma_port_order(ports: Seq<u16>)
    requires
        ports.to_multiset() == all_ports().to_multiset(),
    ensures
        ports.no_duplicates(),
        ports.len() == PORT_COUNT,
        forall|i: int| 0 <= i < ports.len() ==> 1 <= #[trigger] ports[i],
{
    let all = all_ports();
    assert(all.no_duplicates());
    all.lemma_multiset_has_no_duplicates();
    ports.lemma_multiset_has_no_duplicates_conv();
    assert(ports.to_multiset().len() == all.to_multiset().len());
    assert forall|i: int| 0 <= i < ports.len() implies 1 <= #[trigger] ports[i] by {
        let x = ports[i];
        assert(ports.contains(x));
        assert(ports.to_multiset().count(x) > 0);
        assert(all.to_multiset().count(x) > 0);
        assert(all.contains(x));
    }
}

/// With one IP, the pairs of `ports` are that IP at each port in turn.
proof fn lemma_pairs_one_ip(ports: Seq<u16>, ips: Seq<IpAddress>)
    requires
        ips.len() == 1,
    ensures
        pairs(ports, ips).len() == ports.len(),
        forall|i: int|
            0 <= i < ports.len() ==> #[trigger] pairs(ports, ips)[i] == SockAddr::spec_new(ips[0], ports[i]),
    decreases ports.len(),
{
    if ports.len() > 0 {
        lemma_pairs_one_ip(ports.drop_last(), ips);
    }
}

/// The `k`-th planner of a history has the first port order, and its sweep
/// at `id` starts `k` windows in, or at the beginning after the last round.
proof fn lemma_sweep_cursor<ID>(
    vs: Seq<PunchPlannerView<ID>>,
    rs: Seq<PunchPlan>,
    near_orders: Seq<Seq<u16>>,
    id: ID,
    info: NatInfo,
    is_cone: bool,
    k: int,
)
    requires
        sweep_history(vs, rs, near_orders, id, info, is_cone),
        rs.len() == sweep_rounds(is_cone),
        0 <= k <= rs.len(),
    ensures
        vs[k].ports == vs[0].ports,
        k < rs.len() ==> sweep_start(vs[k], id) == k * round_limits(is_cone).1,
        k == rs.len() ==> sweep_start(vs[k], id) == 0,
    decreases k,
{
    let k2 = round_limits(is_cone).1 as int;
    if k > 0 {
        lemma_sweep_cursor(vs, rs, near_orders, id, info, is_cone, k - 1);
        let n = k - 1;
        let r = rs[n];
        lemma_port_order(vs[0].ports);
        assert(n * k2 + k2 == k * k2) by (nonlinear_arith)
            requires
                n == k - 1,
        ;
        if is_cone {
            assert(sweep_rounds(is_cone) == 82);
            assert(n * k2 == n * 800);
            assert(k * k2 == k * 800);
        } else {
            assert(sweep_rounds(is_cone) == 6554);
            assert(n * k2 == n * 10);
            assert(k * k2 == k * 10);
        }
    }
}

/// Where the sweep of the `n`-th round of a history goes: with one public
/// IP, to that IP at fewer than one window's worth of ports, taken in order
/// from `n` windows into the port order.
proof fn lemma_round_sweep<ID>(
    vs: Seq<PunchPlannerView<ID>>,
    rs: Seq<PunchPlan>,
    near_orders: Seq<Seq<u16>>,
    id: ID,
    info: NatInfo,
    is_cone: bool,
    n: int,
)
    requires
        sweep_history(vs, rs, near_orders, id, info, is_cone),
        rs.len() == sweep_rounds(is_cone),
        info.ips().len() == 1,
        0 <= n < rs.len(),
    ensures
        sweep_of(rs[n]).len() < round_limits(is_cone).1,
        forall|i: int|
            0 <= i < sweep_of(rs[n]).len() ==> n * round_limits(is_cone).1 + i < PORT_COUNT
                && #[trigger] sweep_of(rs[n])[i] == SockAddr::spec_new(
                info.ips()[0],
                vs[0].ports[n * round_limits(is_cone).1 + i],
            ),
{
    let k2 = round_limits(is_cone).1 as int;
    lemma_sweep_cursor(vs, rs, near_orders, id, info, is_cone, n);
    lemma_port_order(vs[0].ports);
    let ports = vs[0].ports;
    let start = n * k2;
    let (end, next) = sweep_end(start, k2, ports.len() as int);
    let sub = ports.subrange(start, end);
    assert(plan_spec(vs[n], id, info, is_cone, near_orders[n], rs[n]));
    lemma_pairs_one_ip(sub, info.ips());
}

/// Punching rounds at one symmetric peer with one public IP, each recorded
/// after all its sends succeeded, sweep the whole port order once in
/// `sweep_rounds(is_cone)` rounds: round `n` starts `n` windows into the
/// port order, no port is swept twice, every swept port lies in 1..=65535,
/// and afterwards the next sweep starts where the first one did, in the
/// same port order, so it goes to the same addresses as the first. When
/// the peer's ports spread at least twice the near limit, no round sends
/// near its public port, so no destination port repeats at all.
pub proof fn law_sweep_cycle<ID>(
    vs: Seq<PunchPlannerView<ID>>,
    rs: Seq<PunchPlan>,
    near_orders: Seq<Seq<u16>>,
    id: ID,
    info: NatInfo,
    is_cone: bool,
)
    requires
        sweep_history(vs, rs, near_orders, id, info, is_cone),
        rs.len() == sweep_rounds(is_cone),
        info.ips().len() == 1,
    ensures
        forall|n: int|
            0 <= n < rs.len() ==> sweep_start(vs[n], id) == n * round_limits(is_cone).1,
        forall|n: int, i: int|
            0 <= n < rs.len() && 0 <= i < sweep_of(rs[n]).len() ==> 1 <= #[trigger] sweep_of(
                rs[n],
            )[i].spec_port(),
        forall|n: int, i: int, m: int, j: int|
            0 <= n < rs.len() && 0 <= m < rs.len() && 0 <= i < sweep_of(rs[n]).len() && 0 <= j
                < sweep_of(rs[m]).len() && (n != m || i != j) ==> #[trigger] sweep_of(rs[n])[i].spec_port()
                != #[trigger] sweep_of(rs[m])[j].spec_port(),
        info.port_range() >= 2 * round_limits(is_cone).0 ==> forall|n: int|
            0 <= n < rs.len() ==> near_of(#[trigger] rs[n]).len() == 0,
        vs[rs.len() as int].ports == vs[0].ports,
        sweep_start(vs[rs.len() as int], id) == 0,
        forall|near_order: Seq<u16>, r: PunchPlan|
            #[trigger] plan_spec(vs[rs.len() as int], id, info, is_cone, near_order, r) ==> sweep_of(r)
                == sweep_of(rs[0]),
{
    let k2 = round_limits(is_cone).1 as int;
    let ports = vs[0].ports;
    lemma_port_order(ports);
    lemma_sweep_cursor(vs, rs, near_orders, id, info, is_cone, rs.len() as int);
    assert forall|n: int| 0 <= n < rs.len() implies sweep_start(vs[n], id) == n * round_limits(
        is_cone,
    ).1 by {
        lemma_sweep_cursor(vs, rs, near_orders, id, info, is_cone, n);
    }
    assert forall|n: int, i: int|
        0 <= n < rs.len() && 0 <= i < sweep_of(rs[n]).len() implies 1 <= #[trigger] sweep_of(
        rs[n],
    )[i].spec_port() by {
        lemma_round_sweep(vs, rs, near_orders, id, info, is_cone, n);
        assert(sweep_of(rs[n])[i] == SockAddr::spec_new(info.ips()[0], ports[n * k2 + i]));
    }
    assert forall|n: int, i: int, m: int, j: int|
        0 <= n < rs.len() && 0 <= m < rs.len() && 0 <= i < sweep_of(rs[n]).len() && 0 <= j
            < sweep_of(rs[m]).len() && (n != m || i != j) implies #[trigger] sweep_of(
        rs[n],
    )[i].spec_port() != #[trigger] sweep_of(rs[m])[j].spec_port() by {
        lemma_round_sweep(vs, rs, near_orders, id, info, is_cone, n);
        lemma_round_sweep(vs, rs, near_orders, id, info, is_cone, m);
        let p = n * k2 + i;
        let q = m * k2 + j;
        assert(sweep_of(rs[n])[i] == SockAddr::spec_new(info.ips()[0], ports[p]));
        assert(sweep_of(rs[m])[j] == SockAddr::spec_new(info.ips()[0], ports[q]));
        if n < m {
            assert(p < q) by (nonlinear_arith)
                requires
                    p == n * k2 + i,
                    q == m * k2 + j,
                    0 <= n < m,
                    0 <= i < k2,
                    0 <= j,
            ;
        } else if m < n {
            assert(q < p) by (nonlinear_arith)
                requires
                    p == n * k2 + i,
                    q == m * k2 + j,
                    0 <= m < n,
                    0 <= j < k2,
                    0 <= i,
            ;
        }
        assert(p != q);
    }
    assert forall|n: int| 0 <= n < rs.len() && info.port_range() >= 2 * round_limits(is_cone).0 implies near_of(
        #[trigger] rs[n],
    ).len() == 0 by {
        assert(plan_spec(vs[n], id, info, is_cone, near_orders[n], rs[n]));
    }
}

/// The pairs of `ports` and `ips` are every IP at each port in turn: the
/// `j`-th is IP `j % n` at port `j / n`, with `n` the number of IPs.
proof fn lemma_pairs_index(ports: Seq<u16>, ips: Seq<IpAddress>)
    requires
        ips.len() > 0,
    ensures
        pairs(ports, ips).len() == ports.len() * ips.len(),
        forall|j: int|
            0 <= j < pairs(ports, ips).len() ==> #[trigger] pairs(ports, ips)[j] == SockAddr::spec_new(
                ips[j % ips.len() as int],
                ports[j / ips.len() as int],
            ),
    decreases ports.len(),
{
    let n = ips.len() as int;
    let l = ports.len() as int;
    if l > 0 {
        let front = ports.drop_last();
        lemma_pairs_index(front, ips);
        assert(l * n == (l - 1) * n + n) by (nonlinear_arith);
        let all = pairs(ports, ips);
        assert forall|j: int| 0 <= j < all.len() implies #[trigger] all[j] == SockAddr::spec_new(
            ips[j % n],
            ports[j / n],
        ) by {
            if j < (l - 1) * n {
                let q = j / n;
                let r = j % n;
                assert(j == n * q + r && 0 <= r < n) by (nonlinear_arith)
                    requires
                        n > 0,
                        q == j / n,
                        r == j % n,
                ;
                assert(q < l - 1) by (nonlinear_arith)
                    requires
                        j == n * q + r,
                        0 <= r,
                        j < (l - 1) * n,
                        n > 0,
                ;
                assert(q >= 0) by (nonlinear_arith)
                    requires
                        j == n * q + r,
                        r < n,
                        0 <= j,
                        n > 0,
                ;
                assert(front[q] == ports[q]);
            } else {
                let r = j - (l - 1) * n;
                vstd::arithmetic::div_mod::lemma_fundamental_div_mod_converse(j, n, l - 1, r);
            }
        }
    }
}

/// For a symmetric peer, a plan goes to every public IP of the peer at each
/// port in turn. The sweep starts at position `start` of the port order and
/// covers the window of at most `k2` ports there (up to the end of the port
/// order): its `j`-th address is IP `j % n` at the window's port `j / n`
/// (with `n` the number of IPs), and it holds all those pairs but at most
/// `k2 - 1` of them. Likewise the near addresses go to every IP at each of
/// the first ports of `near_order`, at most `k1 - 1` of them.
pub proof fn law_plan_covers_every_ip(
    ports: Seq<u16>,
    start: int,
    info: NatInfo,
    is_cone: bool,
    near_order: Seq<u16>,
    r: PunchPlan,
)
    requires
        plan_at(ports, start, info, is_cone, near_order, r),
        info.kind() == NatType::Symmetric,
        0 <= start < ports.len(),
    ensures
        ({
            let (k1, k2) = round_limits(is_cone);
            let n = info.ips().len() as int;
            let end = if start + k2 >= ports.len() { ports.len() as int } else { start + k2 };
            let sweep = sweep_of(r);
            let near = near_of(r);
            &&& n == 0 ==> sweep.len() == 0 && near.len() == 0
            &&& n > 0 ==> sweep.len() == if (end - start) * n < k2 - 1 { (end - start) * n } else { k2 - 1 }
            &&& n > 0 ==> forall|j: int|
                0 <= j < sweep.len() ==> #[trigger] sweep[j] == SockAddr::spec_new(
                    info.ips()[j % n],
                    ports[start + j / n],
                )
            &&& n > 0 ==> near.len() <= k1 - 1
            &&& n > 0 ==> forall|j: int|
                0 <= j < near.len() ==> #[trigger] near[j] == SockAddr::spec_new(
                    info.ips()[j % n],
                    near_order[j / n],
                )
        }),
{
    let (k1, k2) = round_limits(is_cone);
    let n = info.ips().len() as int;
    let (end, next) = sweep_end(start, k2 as int, ports.len() as int);
    let window = ports.subrange(start, end);
    let (lo, hi) = near_span(info.port(), info.port_range());
    let k = if hi - lo + 1 > k1 { k1 as int } else { hi - lo + 1 };
    if n > 0 {
        lemma_pairs_index(window, info.ips());
        let sweep = sweep_of(r);
        assert forall|j: int| 0 <= j < sweep.len() implies #[trigger] sweep[j] == SockAddr::spec_new(
            info.ips()[j % n],
            ports[start + j / n],
        ) by {
            assert(sweep[j] == pairs(window, info.ips())[j]);
            assert(0 <= j / n < end - start) by (nonlinear_arith)
                requires
                    0 <= j < (end - start) * n,
                    n > 0,
            ;
        }
        if info.port_range() < 2 * k1 {
            let t = near_order.take(k);
            assert(near_order.to_multiset().len() == port_span(lo, hi).to_multiset().len());
            lemma_pairs_index(t, info.ips());
            let near = near_of(r);
            assert forall|j: int| 0 <= j < near.len() implies #[trigger] near[j] == SockAddr::spec_new(
                info.ips()[j % n],
                near_order[j / n],
            ) by {
                assert(near[j] == pairs(t, info.ips())[j]);
                assert(0 <= j / n < k) by (nonlinear_arith)
                    requires
                        0 <= j < k * n,
                        n > 0,
                ;
            }
        }
    } else {
        assert(pairs(window, info.ips()).len() == 0) by {
            lemma_pairs_empty_ips(window, info.ips());
        }
        if info.port_range() < 2 * k1 {
            lemma_pairs_empty_ips(near_order.take(k), info.ips());
        }
    }
}

/// With no IPs there are no pairs.
proof fn lemma_pairs_empty_ips(ports: Seq<u16>, ips: Seq<IpAddress>)
    requires
        ips.len() == 0,
    ensures
        pairs(ports, ips).len() == 0,
    decreases ports.len(),
{
    if ports.len() > 0 {
        lemma_pairs_empty_ips(ports.drop_last(), ips);
    }
}

} // verus!
