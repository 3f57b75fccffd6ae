//! A router between network interfaces.
use crate::buffer::join32;
use crate::ipv4_datagram::{
    datagram_bytes, ipv4_parsed, ipv4_rejection, law_ipv4_round_trip, DatagramView, Ipv4AddrBytes,
    Ipv4Datagram, Ipv4Header,
};
use crate::network_interface::{
    address_number, law_every_action_keeps_valid, law_known_next_hop, InterfaceAction,
    InterfaceView, NetworkInterface,
};
use vstd::arithmetic::power2::pow2;
use vstd::prelude::*;

verus! {

/// Where datagrams for some addresses go: to the next hop, or directly to their
/// destination, over an interface.
#[derive(Debug, Clone, Copy, PartialEq, Eq)]
pub struct Route {
    pub route_prefix: Ipv4AddrBytes,
    pub prefix_length: u8,
    pub next_hop: Option<Ipv4AddrBytes>,
    pub interface_num: usize,
}

/// Whether two numbers agree in their first bits.
pub open spec fn agree(a: u32, b: u32, bits: u8) -> bool {
    bits == 0 || a >> ((32 - bits) as u32) == b >> ((32 - bits) as u32)
}

impl Route {
    /// Whether a destination begins with the prefix of the route.
    pub open spec fn covers(self, destination: Ipv4AddrBytes) -> bool {
        agree(address_number(self.route_prefix), address_number(destination), self.prefix_length)
    }

    fn matches(&self, destination: Ipv4AddrBytes) -> (covered: bool)
        requires
            self.prefix_length <= 32,
        ensures
            covered == self.covers(destination),
    {
        let mask: u32 = prefix_mask(self.prefix_length);
        let p = self.route_prefix.octets();
        let d = destination.octets();
        let prefix: u32 = join32(p[0], p[1], p[2], p[3]);
        let address: u32 = join32(d[0], d[1], d[2], d[3]);
        let bits: u32 = self.prefix_length as u32;
        if bits == 0 {
            assert(prefix & 0 == address & 0) by (bit_vector);
        } else {
            assert((prefix & (0xffff_ffffu32 << ((32 - bits) as u32))) == (address & (
            0xffff_ffffu32 << ((32 - bits) as u32))) <==> prefix >> ((32 - bits) as u32)
                == address >> ((32 - bits) as u32)) by (bit_vector)
                requires
                    0 < bits <= 32,
            ;
        }
        (prefix & mask) == (address & mask)
    }
}

/// The first bits set, the others not.
fn prefix_mask(prefix_length: u8) -> (mask: u32)
    requires
        prefix_length <= 32,
    ensures
        prefix_length == 0 ==> mask == 0,
        prefix_length > 0 ==> mask == 0xffff_ffffu32 << ((32 - prefix_length) as u32),
{
    if prefix_length == 0 {
        0
    } else {
        0xffff_ffffu32 << (32 - prefix_length as u32)
    }
}

/// Whether the route at a place is the one to take: of those that cover the
/// destination it has the longest prefix, and of several such it came first.
pub open spec fn is_best(routes: Seq<Route>, destination: Ipv4AddrBytes, place: int) -> bool {
    &&& 0 <= place < routes.len()
    &&& routes[place].covers(destination)
    &&& forall|i: int|
        0 <= i < routes.len() && (#[trigger] routes[i]).covers(destination) ==> {
            ||| routes[i].prefix_length < routes[place].prefix_length
            ||| routes[i].prefix_length == routes[place].prefix_length && place <= i
        }
}

/// The route to take to a destination, if there is one.
pub open spec fn best_route(routes: Seq<Route>, destination: Ipv4AddrBytes) -> Option<Route> {
    if exists|place: int| is_best(routes, destination, place) {
        Some(routes[choose|place: int| is_best(routes, destination, place)])
    } else {
        None
    }
}

/// What a router is.
#[verifier::ext_equal]
pub struct RouterView {
    pub interfaces: Seq<InterfaceView>,
    pub routes: Seq<Route>,
}

/// What each of these interfaces is.
pub open spec fn interface_views(interfaces: Seq<NetworkInterface>) -> Seq<InterfaceView> {
    Seq::new(interfaces.len(), |i: int| interfaces[i]@)
}

/// A datagram on its way after one more hop.
pub open spec fn one_hop_further(datagram: DatagramView) -> DatagramView {
    DatagramView {
        header: Ipv4Header { ttl: (datagram.header.ttl - 1) as u8, ..datagram.header },
        ..datagram
    }
}

impl RouterView {
    /// No prefix is longer than an address.
    pub open spec fn valid(self) -> bool {
        forall|i: int| 0 <= i < self.routes.len() ==> (#[trigger] self.routes[i]).prefix_length
            <= 32
    }

    /// Whether every interface is valid.
    pub open spec fn interfaces_valid(self) -> bool {
        forall|i: int| 0 <= i < self.interfaces.len() ==> (#[trigger] self.interfaces[i]).valid()
    }

    /// The interface over which a datagram leaves, and the next hop. A datagram
    /// whose time to live is up, or for which there is no route, does not leave.
    pub open spec fn way_out(self, datagram: DatagramView) -> Option<(int, Ipv4AddrBytes)> {
        match best_route(self.routes, datagram.header.dst) {
            Some(route) if datagram.header.ttl > 1 && route.interface_num
                < self.interfaces.len() => Some(
                (
                    route.interface_num as int,
                    match route.next_hop {
                        Some(next_hop) => next_hop,
                        None => datagram.header.dst,
                    },
                ),
            ),
            _ => None,
        }
    }

    /// The router once a datagram was forwarded or dropped.
    pub open spec fn after_forward(self, datagram: DatagramView) -> RouterView {
        match self.way_out(datagram) {
            Some((i, next_hop)) => RouterView {
                interfaces: self.interfaces.update(
                    i,
                    self.interfaces[i].after_send(one_hop_further(datagram), next_hop),
                ),
                ..self
            },
            None => self,
        }
    }

    /// The router once some datagrams were forwarded or dropped, one by one.
    pub open spec fn after_forward_all(self, datagrams: Seq<DatagramView>) -> RouterView
        decreases datagrams.len(),
    {
        if datagrams.len() == 0 {
            self
        } else {
            self.after_forward(datagrams[0]).after_forward_all(datagrams.drop_first())
        }
    }

    /// The datagrams that came in over the interfaces from a place on, in order.
    pub open spec fn inputs_from(self, place: int) -> Seq<DatagramView>
        decreases self.interfaces.len() - place,
    {
        if place >= self.interfaces.len() {
            Seq::empty()
        } else {
            self.interfaces[place].datagrams_in + self.inputs_from(place + 1)
        }
    }

    /// The router with everything taken out that came in.
    pub open spec fn emptied(self) -> RouterView {
        RouterView {
            interfaces: Seq::new(
                self.interfaces.len(),
                |i: int| InterfaceView { datagrams_in: Seq::empty(), ..self.interfaces[i] },
            ),
            ..self
        }
    }

    /// The router once everything that came in was forwarded or dropped.
    pub open spec fn after_route(self) -> RouterView {
        self.emptied().after_forward_all(self.inputs_from(0))
    }

    /// Whether everything that came in can be sent on.
    pub open spec fn inputs_fit(self) -> bool {
        forall|i: int, j: int|
            0 <= i < self.interfaces.len() && 0 <= j < self.interfaces[i].datagrams_in.len() ==> (
            #[trigger] self.interfaces[i].datagrams_in[j]).fits()
    }
}

/// A router between network interfaces.
#[derive(Debug)]
pub struct Router {
    interfaces: Vec<NetworkInterface>,
    routes: Vec<Route>,
}

impl View for Router {
    type V = RouterView;

    closed spec fn view(&self) -> RouterView {
        RouterView { interfaces: interface_views(self.interfaces@), routes: self.routes@ }
    }
}

impl Default for Router {
    fn default() -> (router: Self)
        ensures
            router@ == (RouterView { interfaces: Seq::empty(), routes: Seq::empty() }),
    {
        Self::new()
    }
}

impl Router {
    pub fn new() -> (router: Self)
        ensures
            router@ == (RouterView { interfaces: Seq::empty(), routes: Seq::empty() }),
    {
        let router = Self { interfaces: Vec::new(), routes: Vec::new() };
        assert(router@.interfaces =~= Seq::empty());
        router
    }

    /// Adds an interface and gives its number.
    pub fn add_interface(&mut self, interface: NetworkInterface) -> (interface_num: usize)
        ensures
            interface_num == old(self)@.interfaces.len(),
            final(self)@ == (RouterView {
                interfaces: old(self)@.interfaces.push(interface@),
                ..old(self)@
            }),
            old(self)@.interfaces_valid() && interface@.valid() ==> final(self)@.interfaces_valid(),
    {
        let interface_num: usize = self.interfaces.len();
        let ghost before = self@.interfaces;
        let ghost added = interface@;
        self.interfaces.push(interface);
        assert(self@.interfaces =~= before.push(added));
        interface_num
    }

    pub fn interface(&self, interface_num: usize) -> (interface: Option<&NetworkInterface>)
        ensures
            match interface {
                Some(interface) => interface_num < self@.interfaces.len() && interface@
                    == self@.interfaces[interface_num as int],
                None => interface_num >= self@.interfaces.len(),
            },
    {
        if interface_num < self.interfaces.len() {
            Some(&self.interfaces[interface_num])
        } else {
            None
        }
    }

    pub fn interface_mut(&mut self, interface_num: usize) -> (interface: Option<
        &mut NetworkInterface,
    >)
        ensures
            match interface {
                Some(interface) => {
                    &&& interface_num < old(self)@.interfaces.len()
                    &&& interface@ == old(self)@.interfaces[interface_num as int]
                    &&& final(self)@ == (RouterView {
                        interfaces: old(self)@.interfaces.update(
                            interface_num as int,
                            final(interface)@,
                        ),
                        ..old(self)@
                    })
                },
                None => interface_num >= old(self)@.interfaces.len() && final(self)@ == old(self)@,
            },
    {
        if interface_num < self.interfaces.len() {
            Some(&mut self.interfaces[interface_num])
        } else {
            None
        }
    }

    pub fn interfaces(&self) -> (interfaces: &[NetworkInterface])
        ensures
            interface_views(interfaces@) == self@.interfaces,
    {
        self.interfaces.as_slice()
    }

    pub fn interfaces_mut(&mut self) -> (interfaces: &mut [NetworkInterface])
        ensures
            interface_views(interfaces@) == old(self)@.interfaces,
            final(self)@ == (RouterView {
                interfaces: interface_views(final(interfaces)@),
                ..old(self)@
            }),
    {
        self.interfaces.as_mut_slice()
    }

    pub fn routes(&self) -> (routes: &[Route])
        ensures
            routes@ == self@.routes,
    {
        self.routes.as_slice()
    }

    pub fn add_route(
        &mut self,
        route_prefix: Ipv4AddrBytes,
        prefix_length: u8,
        next_hop: Option<Ipv4AddrBytes>,
        interface_num: usize,
    )
        requires
            prefix_length <= 32,
        ensures
            final(self)@ == (RouterView {
                routes: old(self)@.routes.push(
                    Route { route_prefix, prefix_length, next_hop, interface_num },
                ),
                ..old(self)@
            }),
            old(self)@.valid() ==> final(self)@.valid(),
    {
        self.routes.push(Route { route_prefix, prefix_length, next_hop, interface_num });
    }

    /// Forwards or drops everything that came in.
    pub fn route(&mut self)
        requires
            old(self)@.valid(),
            old(self)@.inputs_fit(),
        ensures
            final(self)@ == old(self)@.after_route(),
            final(self)@.valid(),
            old(self)@.interfaces_valid() ==> final(self)@.interfaces_valid(),
    {
        let count: usize = self.interfaces.len();
        let mut interface_num: usize = 0;
        let ghost start = self@;
        let ghost goal = start.after_route();
        let ghost mut done = start.emptied();
        while interface_num < count
            invariant
                count == self.interfaces@.len(),
                interface_num <= count,
                start.interfaces.len() == count,
                start.inputs_fit(),
                done.interfaces.len() == count,
                self@.valid(),
                done.routes == self@.routes,
                forall|i: int|
                    0 <= i < count ==> (#[trigger] done.interfaces[i]).datagrams_in
                        == Seq::<DatagramView>::empty(),
                goal == done.after_forward_all(start.inputs_from(interface_num as int)),
                forall|i: int|
                    0 <= i < count ==> (#[trigger] self@.interfaces[i]) == (InterfaceView {
                        datagrams_in: if i < interface_num {
                            Seq::empty()
                        } else {
                            start.interfaces[i].datagrams_in
                        },
                        ..done.interfaces[i]
                    }),
            decreases count - interface_num,
        {
            let ghost queue = start.interfaces[interface_num as int].datagrams_in;
            let ghost behind = start.inputs_from(interface_num + 1);
            let ghost mut taken: int = 0;
            assert(queue.skip(0) =~= queue);
            while self.interfaces[interface_num].datagrams_in_len() > 0
                invariant
                    count == self.interfaces@.len(),
                    interface_num < count,
                    start.interfaces.len() == count,
                    start.inputs_fit(),
                    queue == start.interfaces[interface_num as int].datagrams_in,
                    done.interfaces.len() == count,
                    self@.valid(),
                    done.routes == self@.routes,
                    forall|i: int|
                        0 <= i < count ==> (#[trigger] done.interfaces[i]).datagrams_in
                            == Seq::<DatagramView>::empty(),
                    0 <= taken <= queue.len(),
                    goal == done.after_forward_all(queue.skip(taken) + behind),
                    forall|i: int|
                        0 <= i < count ==> (#[trigger] self@.interfaces[i]) == (InterfaceView {
                            datagrams_in: if i < interface_num {
                                Seq::empty()
                            } else if i == interface_num {
                                queue.skip(taken)
                            } else {
                                start.interfaces[i].datagrams_in
                            },
                            ..done.interfaces[i]
                        }),
                decreases queue.len() - taken,
            {
                let ghost rest = queue.skip(taken) + behind;
                assert(self@.interfaces[interface_num as int].datagrams_in == queue.skip(taken));
                let ghost before = self@.interfaces;
                let datagram = self.interfaces[interface_num].pop_datagram().unwrap();
                assert(self@.interfaces =~= before.update(
                    interface_num as int,
                    self@.interfaces[interface_num as int],
                ));
                let ghost said = datagram@;
                proof {
                    assert(start.interfaces[interface_num as int].datagrams_in[taken].fits());
                    assert(rest[0] == said);
                    assert(rest.drop_first() =~= queue.skip(taken + 1) + behind);
                    assert(queue.skip(taken).drop_first() =~= queue.skip(taken + 1));
                    assert forall|i: int| 0 <= i < count implies (#[trigger] self@.interfaces[i])
                        == (InterfaceView {
                        datagrams_in: self@.interfaces[i].datagrams_in,
                        ..done.interfaces[i]
                    }) by {
                        assert(i != interface_num ==> self@.interfaces[i] == before[i]);
                    }
                    lemma_forward_inputs(self@, done, said);
                    lemma_forward_inputs(done, done, said);
                }
                self.route_one_datagram(datagram);
                proof {
                    done = done.after_forward(said);
                    taken = taken + 1;
                }
            }
            assert(self@.interfaces[interface_num as int].datagrams_in == queue.skip(taken));
            assert(queue.skip(taken) =~= Seq::empty());
            assert(queue.skip(taken) + behind =~= behind);
            interface_num = interface_num + 1;
        }
        assert(self@.interfaces =~= done.interfaces);
        proof {
            if start.interfaces_valid() {
                law_routing_keeps_interfaces_valid(start);
            }
        }
    }

    /// Forwards a datagram, or drops it.
    fn route_one_datagram(&mut self, datagram: Ipv4Datagram)
        requires
            old(self)@.valid(),
            datagram@.fits(),
        ensures
            final(self)@ == old(self)@.after_forward(datagram@),
            final(self).interfaces@.len() == old(self).interfaces@.len(),
    {
        if datagram.header.ttl <= 1 {
            return ;
        }
        let destination = datagram.header.dst;
        let (interface_num, next_hop) = match self.find_route(destination) {
            Some(route) => (
                route.interface_num,
                match route.next_hop {
                    Some(next_hop) => next_hop,
                    None => destination,
                },
            ),
            None => {
                return ;
            },
        };
        if interface_num >= self.interfaces.len() {
            return ;
        }
        let ghost before = self@;
        let ghost said = datagram@;
        let mut forwarded = datagram;
        forwarded.header.ttl = forwarded.header.ttl - 1;
        assert(forwarded@ =~= one_hop_further(said));
        self.interfaces[interface_num].send_datagram(forwarded, next_hop);
        assert(self@.interfaces =~= before.after_forward(said).interfaces);
    }

    /// The route to take to a destination.
    fn find_route(&self, destination: Ipv4AddrBytes) -> (best: Option<&Route>)
        requires
            self@.valid(),
        ensures
            match best {
                Some(route) => best_route(self@.routes, destination) == Some(*route),
                None => best_route(self@.routes, destination) is None,
            },
    {
        let mut best: Option<usize> = None;
        let mut index: usize = 0;
        let ghost routes = self@.routes;
        while index < self.routes.len()
            invariant
                index <= self.routes@.len(),
                routes == self.routes@,
                self@.valid(),
                self@.routes == routes,
                match best {
                    Some(place) => place < index && is_best(
                        routes.take(index as int),
                        destination,
                        place as int,
                    ),
                    None => forall|i: int|
                        0 <= i < index ==> !(#[trigger] routes[i]).covers(destination),
                },
            decreases self.routes@.len() - index,
        {
            let ghost seen = routes.take(index as int);
            let ghost more = routes.take(index + 1);
            let ghost old_best = best;
            assert forall|i: int| 0 <= i < index implies more[i] == seen[i] by {}
            if self.routes[index].matches(destination) {
                let better = match best {
                    Some(place) => self.routes[index].prefix_length
                        > self.routes[place].prefix_length,
                    None => true,
                };
                if better {
                    best = Some(index);
                }
            }
            proof {
                if let Some(place) = best {
                    assert forall|i: int|
                        0 <= i < more.len() && (#[trigger] more[i]).covers(destination) implies {
                        ||| more[i].prefix_length < more[place as int].prefix_length
                        ||| more[i].prefix_length == more[place as int].prefix_length && place <= i
                    } by {
                        if i < index {
                            assert(seen[i] == routes[i]);
                            assert(old_best is Some);
                            assert(seen[i].covers(destination));
                        }
                    }
                }
            }
            index = index + 1;
        }
        assert(routes.take(index as int) =~= routes);
        match best {
            Some(place) => {
                proof {
                    lemma_best_route(routes, destination, place as int);
                }
                Some(&self.routes[place])
            },
            None => {
                assert(forall|place: int| !is_best(routes, destination, place));
                None
            },
        }
    }
}

/// There is at most one best route.
proof fn lemma_best_route(routes: Seq<Route>, destination: Ipv4AddrBytes, place: int)
    requires
        is_best(routes, destination, place),
    ensures
        best_route(routes, destination) == Some(routes[place]),
{
    let other = choose|other: int| is_best(routes, destination, other);
    assert(is_best(routes, destination, other));
    assert(routes[other].covers(destination));
    assert(routes[place].covers(destination));
}

/// Forwarding does not touch what came in, and does not depend on it.
proof fn lemma_forward_inputs(router: RouterView, other: RouterView, datagram: DatagramView)
    requires
        router.routes == other.routes,
        router.interfaces.len() == other.interfaces.len(),
        forall|i: int|
            0 <= i < router.interfaces.len() ==> (#[trigger] router.interfaces[i]) == (
            InterfaceView {
                datagrams_in: router.interfaces[i].datagrams_in,
                ..other.interfaces[i]
            }),
    ensures
        ({
            let a = router.after_forward(datagram);
            let b = other.after_forward(datagram);
            &&& a.interfaces.len() == router.interfaces.len()
            &&& b.interfaces.len() == router.interfaces.len()
            &&& a.routes == router.routes
            &&& b.routes == router.routes
            &&& forall|i: int|
                0 <= i < router.interfaces.len() ==> (#[trigger] a.interfaces[i]) == (
                InterfaceView {
                    datagrams_in: router.interfaces[i].datagrams_in,
                    ..b.interfaces[i]
                })
        }),
{
    let a = router.after_forward(datagram);
    let b = other.after_forward(datagram);
    assert(router.way_out(datagram) == other.way_out(datagram));
    assert forall|i: int| 0 <= i < router.interfaces.len() implies (#[trigger] a.interfaces[i])
        == (InterfaceView {
        datagrams_in: router.interfaces[i].datagrams_in,
        ..b.interfaces[i]
    }) by {
        let mine = router.interfaces[i];
        let theirs = other.interfaces[i];
        if let Some((out, next_hop)) = router.way_out(datagram) {
            if i == out {
                let sent = one_hop_further(datagram);
                assert(mine.known(next_hop) == theirs.known(next_hop));
                assert(mine.waiting_for(next_hop) == theirs.waiting_for(next_hop));
                assert(mine.after_send(sent, next_hop) =~= (InterfaceView {
                    datagrams_in: mine.datagrams_in,
                    ..theirs.after_send(sent, next_hop)
                }));
            }
        }
    }
}

/// The most specific route wins, and of equally specific ones the first that was
/// added: there is a best route exactly where some route covers the destination.
pub proof fn law_longest_prefix_wins(routes: Seq<Route>, destination: Ipv4AddrBytes, i: int)
    requires
        0 <= i < routes.len(),
        routes[i].covers(destination),
    ensures
        best_route(routes, destination) is Some,
        best_route(routes, destination)->Some_0.covers(destination),
        best_route(routes, destination)->Some_0.prefix_length >= routes[i].prefix_length,
{
    let place = lemma_best_exists(routes, destination, i);
    lemma_best_route(routes, destination, place);
}

/// Some place holds the best route where one covers the destination.
proof fn lemma_best_exists(routes: Seq<Route>, destination: Ipv4AddrBytes, i: int) -> (place: int)
    requires
        0 <= i < routes.len(),
        routes[i].covers(destination),
    ensures
        is_best(routes, destination, place),
    decreases routes.len(),
{
    let last = routes.len() - 1;
    let fewer = routes.drop_last();
    if exists|j: int| 0 <= j < fewer.len() && (#[trigger] fewer[j]).covers(destination) {
        let j = choose|j: int| 0 <= j < fewer.len() && (#[trigger] fewer[j]).covers(destination);
        let found = lemma_best_exists(fewer, destination, j);
        let better = routes[last].covers(destination) && routes[last].prefix_length
            > routes[found].prefix_length;
        let place = if better {
            last
        } else {
            found
        };
        assert forall|k: int|
            0 <= k < routes.len() && (#[trigger] routes[k]).covers(destination) implies {
            ||| routes[k].prefix_length < routes[place].prefix_length
            ||| routes[k].prefix_length == routes[place].prefix_length && place <= k
        } by {
            if k < last {
                assert(fewer[k].covers(destination));
            }
        }
        place
    } else {
        assert forall|k: int| 0 <= k < last implies !(#[trigger] routes[k]).covers(
            destination,
        ) by {
            assert(!fewer[k].covers(destination));
        }
        last
    }
}

/// A route added later does not take over from one with the same prefix length.
pub proof fn law_first_route_wins_ties(
    routes: Seq<Route>,
    destination: Ipv4AddrBytes,
    later: Route,
)
    requires
        best_route(routes, destination) is Some,
        later.prefix_length <= best_route(routes, destination)->Some_0.prefix_length,
    ensures
        best_route(routes.push(later), destination) == best_route(routes, destination),
{
    let place = choose|place: int| is_best(routes, destination, place);
    let more = routes.push(later);
    assert forall|i: int| 0 <= i < more.len() && (#[trigger] more[i]).covers(
        destination,
    ) implies {
        ||| more[i].prefix_length < more[place].prefix_length
        ||| more[i].prefix_length == more[place].prefix_length && place <= i
    } by {
        if i < routes.len() {
            assert(routes[i].covers(destination));
        }
    }
    lemma_best_route(more, destination, place);
}

/// A datagram whose time to live is up, or for which no route is known, goes
/// nowhere.
pub proof fn law_dead_datagrams_are_dropped(router: RouterView, datagram: DatagramView)
    requires
        datagram.header.ttl <= 1 || best_route(router.routes, datagram.header.dst) is None,
    ensures
        router.after_forward(datagram) == router,
{
}

/// Every datagram that leaves has one hop less to live and is otherwise the same.
pub proof fn law_forwarding_takes_one_hop(datagram: DatagramView)
    requires
        datagram.header.ttl > 1,
    ensures
        one_hop_further(datagram).header.ttl == datagram.header.ttl - 1,
        one_hop_further(datagram).payload == datagram.payload,
        one_hop_further(datagram).header.dst == datagram.header.dst,
        one_hop_further(datagram).header.src == datagram.header.src,
        one_hop_further(datagram).fits() == datagram.fits(),
{
}

/// Routing leaves nothing behind that came in.
pub proof fn law_routing_takes_everything(router: RouterView, i: int)
    requires
        0 <= i < router.interfaces.len(),
    ensures
        router.after_route().interfaces.len() == router.interfaces.len(),
        router.after_route().interfaces[i].datagrams_in.len() == 0,
        router.after_route().routes == router.routes,
{
    lemma_forward_all_inputs(router.emptied(), router.inputs_from(0));
}

/// Routing keeps every interface valid: no address is asked for more often
/// because datagrams for it are forwarded.
pub proof fn law_routing_keeps_interfaces_valid(router: RouterView)
    requires
        router.interfaces_valid(),
    ensures
        router.after_route().interfaces_valid(),
{
    let emptied = router.emptied();
    assert forall|i: int| 0 <= i < emptied.interfaces.len() implies (
    #[trigger] emptied.interfaces[i]).valid() by {
        assert(router.interfaces[i].valid());
    }
    lemma_forward_all_valid(emptied, router.inputs_from(0));
}

proof fn lemma_forward_all_valid(router: RouterView, datagrams: Seq<DatagramView>)
    requires
        router.interfaces_valid(),
    ensures
        router.after_forward_all(datagrams).interfaces_valid(),
    decreases datagrams.len(),
{
    if datagrams.len() > 0 {
        let after = router.after_forward(datagrams[0]);
        if let Some((out, next_hop)) = router.way_out(datagrams[0]) {
            law_every_action_keeps_valid(
                router.interfaces[out],
                InterfaceAction::Send(one_hop_further(datagrams[0]), next_hop),
            );
            assert forall|i: int| 0 <= i < after.interfaces.len() implies (
            #[trigger] after.interfaces[i]).valid() by {
                assert(router.interfaces[i].valid());
            }
        }
        lemma_forward_all_valid(after, datagrams.drop_first());
    }
}

proof fn lemma_forward_all_inputs(router: RouterView, datagrams: Seq<DatagramView>)
    ensures
        router.after_forward_all(datagrams).interfaces.len() == router.interfaces.len(),
        router.after_forward_all(datagrams).routes == router.routes,
        forall|i: int|
            0 <= i < router.interfaces.len() ==> (#[trigger] router.after_forward_all(
                datagrams,
            ).interfaces[i]).datagrams_in == router.interfaces[i].datagrams_in,
    decreases datagrams.len(),
{
    if datagrams.len() > 0 {
        lemma_forward_inputs(router, router, datagrams[0]);
        lemma_forward_all_inputs(router.after_forward(datagrams[0]), datagrams.drop_first());
    }
}

/// Which destinations a route covers: those whose address, as a number, begins
/// with the same bits as the prefix, as many as the prefix is long.
pub proof fn law_which_destinations_are_covered(route: Route, destination: Ipv4AddrBytes)
    requires
        route.prefix_length <= 32,
    ensures
        ({
            let prefix = route.route_prefix.0[0] * 0x100_0000 + route.route_prefix.0[1] * 0x1_0000
                + route.route_prefix.0[2] * 0x100 + route.route_prefix.0[3];
            let address = destination.0[0] * 0x100_0000 + destination.0[1] * 0x1_0000
                + destination.0[2] * 0x100 + destination.0[3];
            let block = pow2((32 - route.prefix_length) as nat) as int;
            route.covers(destination) <==> prefix / block == address / block
        }),
{
    let p = address_number(route.route_prefix);
    let d = address_number(destination);
    let shift = (32 - route.prefix_length) as u32;
    if route.prefix_length == 0 {
        vstd::arithmetic::power2::lemma2_to64();
        assert(pow2(32) == 0x1_0000_0000);
    } else {
        vstd::bits::lemma_u32_shr_is_div(p, shift);
        vstd::bits::lemma_u32_shr_is_div(d, shift);
    }
}

/// Which route is taken: one that covers the destination, of those the longest
/// prefix, and of several such the first. None is taken exactly if none covers it.
pub proof fn law_which_route_is_taken(routes: Seq<Route>, destination: Ipv4AddrBytes, i: int)
    requires
        0 <= i < routes.len(),
    ensures
        best_route(routes, destination) is None ==> !routes[i].covers(destination),
        best_route(routes, destination) matches Some(best) ==> {
            &&& best.covers(destination)
            &&& exists|place: int|
                0 <= place < routes.len() && best == #[trigger] routes[place] && (
                routes[i].covers(destination) ==> routes[i].prefix_length < best.prefix_length
                    || routes[i].prefix_length == best.prefix_length && place <= i)
        },
{
    if routes[i].covers(destination) {
        law_longest_prefix_wins(routes, destination, i);
    }
    if best_route(routes, destination) is Some {
        let place = choose|place: int| is_best(routes, destination, place);
        assert(is_best(routes, destination, place));
        assert(best_route(routes, destination) == Some(routes[place]));
    }
}

/// Where a datagram goes. With more than one hop to live, it leaves over the
/// interface of the route that is taken, where that exists. The next hop is the
/// gateway of the route, whatever the length of its prefix, or the destination
/// where the route names none. The datagram has one hop less to live and is
/// otherwise the same; the other interfaces and the routes stay.
pub proof fn law_where_a_datagram_goes(router: RouterView, datagram: DatagramView, other: int)
    requires
        datagram.header.ttl > 1,
        best_route(router.routes, datagram.header.dst) is Some,
        best_route(router.routes, datagram.header.dst)->Some_0.interface_num
            < router.interfaces.len(),
    ensures
        ({
            let route = best_route(router.routes, datagram.header.dst)->Some_0;
            let out = route.interface_num as int;
            let after = router.after_forward(datagram);
            let next_hop = if route.next_hop is Some {
                route.next_hop->Some_0
            } else {
                datagram.header.dst
            };
            let forwarded = DatagramView {
                header: Ipv4Header {
                    src: datagram.header.src,
                    dst: datagram.header.dst,
                    ttl: (datagram.header.ttl - 1) as u8,
                    protocol: datagram.header.protocol,
                    identification: datagram.header.identification,
                    flags_fragment_offset: datagram.header.flags_fragment_offset,
                },
                payload: datagram.payload,
            };
            &&& after.interfaces.len() == router.interfaces.len()
            &&& after.interfaces[out] == router.interfaces[out].after_send(forwarded, next_hop)
            &&& 0 <= other < router.interfaces.len() && other != out ==> after.interfaces[other]
                == router.interfaces[other]
            &&& after.routes == router.routes
        }),
{
}

/// Where the Ethernet address of the gateway is known on the interface of the
/// route that is taken, the datagram goes out to it at once, in a frame from which
/// it is read with one hop less to live. The same holds of the destination where
/// the route names no gateway.
pub proof fn law_gateway_gets_the_datagram(
    router: RouterView,
    datagram: DatagramView,
    gateway: Ipv4AddrBytes,
)
    requires
        datagram.header.ttl > 1,
        datagram.payload.len() <= 65515,
        best_route(router.routes, datagram.header.dst) is Some,
        best_route(router.routes, datagram.header.dst)->Some_0.interface_num
            < router.interfaces.len(),
        match best_route(router.routes, datagram.header.dst)->Some_0.next_hop {
            Some(next_hop) => gateway == next_hop,
            None => gateway == datagram.header.dst,
        },
        router.interfaces[best_route(
            router.routes,
            datagram.header.dst,
        )->Some_0.interface_num as int].arp_cache.contains_key(address_number(gateway)),
    ensures
        ({
            let out = best_route(router.routes, datagram.header.dst)->Some_0.interface_num as int;
            let interface = router.interfaces[out];
            let after = router.after_forward(datagram).interfaces[out];
            let frame = after.frames_out.last();
            &&& after.frames_out == interface.frames_out.push(frame)
            &&& frame.header.dst == interface.arp_cache[address_number(gateway)].ethernet_address
            &&& frame.header.src == interface.ethernet_address
            &&& frame.header.ethertype == 0x0800
            &&& ipv4_rejection(frame.payload) is None
            &&& ipv4_parsed(frame.payload).header.ttl == datagram.header.ttl - 1
            &&& ipv4_parsed(frame.payload).header.src == datagram.header.src
            &&& ipv4_parsed(frame.payload).header.dst == datagram.header.dst
            &&& ipv4_parsed(frame.payload).header.protocol == datagram.header.protocol
            &&& ipv4_parsed(frame.payload).payload == datagram.payload
        }),
{
    let out = best_route(router.routes, datagram.header.dst)->Some_0.interface_num as int;
    let forwarded = one_hop_further(datagram);
    law_known_next_hop(router.interfaces[out], forwarded, gateway);
    law_ipv4_round_trip(forwarded, Seq::empty());
    assert(datagram_bytes(forwarded) + Seq::<u8>::empty() =~= datagram_bytes(forwarded));
}

/// Which datagrams go nowhere: those with one hop to live or none, those for which
/// there is no route, and those whose route leads over no interface. Every other
/// one leaves.
pub proof fn law_which_datagrams_are_dropped(router: RouterView, datagram: DatagramView)
    requires
        datagram.header.ttl <= 1 || match best_route(router.routes, datagram.header.dst) {
            Some(route) => route.interface_num >= router.interfaces.len(),
            None => true,
        },
    ensures
        router.after_forward(datagram) == router,
{
}

/// Routing takes the datagrams one by one, those of the first interfaces first and
/// each in the order in which they came: to route everything is to take the first
/// one out, forward it, and route the rest.
pub proof fn law_routing_goes_on_with_the_rest(router: RouterView, place: int)
    requires
        0 <= place < router.interfaces.len(),
        router.interfaces[place].datagrams_in.len() > 0,
        forall|i: int|
            0 <= i < place ==> (#[trigger] router.interfaces[i]).datagrams_in.len() == 0,
    ensures
        ({
            let first = router.interfaces[place].datagrams_in[0];
            let without = RouterView {
                interfaces: router.interfaces.update(
                    place,
                    InterfaceView {
                        datagrams_in: router.interfaces[place].datagrams_in.drop_first(),
                        ..router.interfaces[place]
                    },
                ),
                ..router
            };
            router.after_route() == without.after_forward(first).after_route()
        }),
{
    let first = router.interfaces[place].datagrams_in[0];
    let without = RouterView {
        interfaces: router.interfaces.update(
            place,
            InterfaceView {
                datagrams_in: router.interfaces[place].datagrams_in.drop_first(),
                ..router.interfaces[place]
            },
        ),
        ..router
    };
    let next = without.after_forward(first);
    lemma_inputs_skip(router, 0, place);
    lemma_inputs_skip(without, 0, place);
    lemma_inputs_behind(router, without, place + 1);
    let inputs = router.inputs_from(0);
    assert(inputs =~= seq![first] + without.inputs_from(0));
    assert(inputs.drop_first() =~= without.inputs_from(0));
    assert(inputs[0] == first);
    assert(router.emptied() =~= without.emptied());
    lemma_forward_inputs(without, without, first);
    lemma_inputs_same(without, next, 0);
    assert forall|i: int| 0 <= i < without.interfaces.len() implies (
    #[trigger] without.interfaces[i]) == (InterfaceView {
        datagrams_in: without.interfaces[i].datagrams_in,
        ..without.emptied().interfaces[i]
    }) by {}
    lemma_forward_inputs(without, without.emptied(), first);
    lemma_forward_inputs(without.emptied(), without.emptied(), first);
    assert(next.emptied() =~= without.emptied().after_forward(first));
}

/// Where nothing came in, routing does nothing.
pub proof fn law_routing_ends(router: RouterView)
    requires
        forall|i: int|
            0 <= i < router.interfaces.len() ==> (
            #[trigger] router.interfaces[i]).datagrams_in.len() == 0,
    ensures
        router.after_route() == router,
{
    lemma_inputs_skip(router, 0, router.interfaces.len() as int);
    assert(router.inputs_from(router.interfaces.len() as int) =~= Seq::empty());
    assert forall|i: int| 0 <= i < router.interfaces.len() implies (
    #[trigger] router.emptied().interfaces[i]) == router.interfaces[i] by {
        assert(router.interfaces[i].datagrams_in =~= Seq::empty());
    }
    assert(router.emptied() =~= router);
}

/// Interfaces without datagrams add nothing to what came in.
proof fn lemma_inputs_skip(router: RouterView, from: int, to: int)
    requires
        0 <= from <= to <= router.interfaces.len(),
        forall|i: int|
            from <= i < to ==> (#[trigger] router.interfaces[i]).datagrams_in.len() == 0,
    ensures
        router.inputs_from(from) == router.inputs_from(to),
    decreases to - from,
{
    if from < to {
        lemma_inputs_skip(router, from + 1, to);
        assert(router.interfaces[from].datagrams_in.len() == 0);
        assert(router.interfaces[from].datagrams_in + router.inputs_from(from + 1)
            =~= router.inputs_from(from + 1));
    }
}

proof fn lemma_inputs_behind(a: RouterView, b: RouterView, place: int)
    requires
        0 <= place,
        a.interfaces.len() == b.interfaces.len(),
        forall|i: int|
            place <= i < a.interfaces.len() ==> (#[trigger] a.interfaces[i]) == b.interfaces[i],
    ensures
        a.inputs_from(place) == b.inputs_from(place),
    decreases a.interfaces.len() - place,
{
    if place < a.interfaces.len() {
        lemma_inputs_behind(a, b, place + 1);
        assert(a.interfaces[place] == b.interfaces[place]);
    }
}

proof fn lemma_inputs_same(a: RouterView, b: RouterView, place: int)
    requires
        0 <= place,
        a.interfaces.len() == b.interfaces.len(),
        forall|i: int|
            0 <= i < a.interfaces.len() ==> (#[trigger] b.interfaces[i]).datagrams_in
                == a.interfaces[i].datagrams_in,
    ensures
        a.inputs_from(place) == b.inputs_from(place),
    decreases a.interfaces.len() - place,
{
    if place < a.interfaces.len() {
        lemma_inputs_same(a, b, place + 1);
        assert(b.interfaces[place].datagrams_in == a.interfaces[place].datagrams_in);
    }
}

/// What came in can be sent on where no datagram is too long for it.
pub proof fn law_which_inputs_fit(router: RouterView)
    ensures
        (forall|i: int, j: int|
            0 <= i < router.interfaces.len() && 0 <= j < router.interfaces[i].datagrams_in.len()
                ==> (#[trigger] router.interfaces[i].datagrams_in[j]).payload.len() <= 65515)
            ==> router.inputs_fit(),
{
}

/// What interfaces are is told one by one.
pub proof fn law_interfaces_one_by_one(interfaces: Seq<NetworkInterface>, i: int)
    requires
        0 <= i < interfaces.len(),
    ensures
        interface_views(interfaces).len() == interfaces.len(),
        interface_views(interfaces)[i] == interfaces[i]@,
{
}

} // verus!
