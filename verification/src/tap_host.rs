//! A host behind a network interface: what comes in over the link goes to the
//! host, and what the host sends goes out over the link.
use crate::ip_host::{event_views, HostView, IpHost, IpHostEvent};
use crate::ipv4_datagram::{DatagramView, Ipv4Datagram};
use crate::network_interface::{datagram_views, InterfaceView, NetworkInterface};
use vstd::prelude::*;

verus! {

/// The interface once some datagrams were given to it, each with its destination
/// as the next hop.
pub open spec fn after_sending(
    interface: InterfaceView,
    datagrams: Seq<DatagramView>,
) -> InterfaceView
    decreases datagrams.len(),
{
    if datagrams.len() == 0 {
        interface
    } else {
        after_sending(interface, datagrams.drop_last()).after_send(
            datagrams.last(),
            datagrams.last().header.dst,
        )
    }
}

/// Whether every datagram that goes out at once is short enough to be sent.
pub open spec fn sendable(interface: InterfaceView, datagrams: Seq<DatagramView>) -> bool {
    forall|i: int|
        0 <= i < datagrams.len() && interface.known(
            (#[trigger] datagrams[i]).header.dst,
        ) is Some ==> datagrams[i].fits()
}

/// Gives datagrams to an interface, each with its destination as the next hop.
pub fn send_to_interface(interface: &mut NetworkInterface, datagrams: Vec<Ipv4Datagram>)
    requires
        sendable(old(interface)@, datagram_views(datagrams@)),
    ensures
        final(interface)@ == after_sending(old(interface)@, datagram_views(datagrams@)),
        old(interface)@.valid() ==> final(interface)@.valid(),
{
    let ghost all = datagram_views(datagrams@);
    let ghost start = interface@;
    let mut index: usize = 0;
    assert(all.take(0).len() == 0);
    while index < datagrams.len()
        invariant
            index <= datagrams@.len(),
            all == datagram_views(datagrams@),
            sendable(start, all),
            interface@ == after_sending(start, all.take(index as int)),
            start.valid() ==> interface@.valid(),
        decreases datagrams@.len() - index,
    {
        let ghost more = all.take(index + 1);
        proof {
            lemma_sending_learns_nothing(
                start,
                all.take(index as int),
                all[index as int].header.dst,
            );
            assert(more.drop_last() =~= all.take(index as int));
            assert(more.last() == datagrams@[index as int]@);
            assert(all[index as int] == datagrams@[index as int]@);
        }
        let next_hop = datagrams[index].header.dst;
        interface.send_datagram(datagrams[index].clone(), next_hop);
        index = index + 1;
    }
    assert(all.take(index as int) =~= all);
}

/// Sending does not change which addresses are known.
proof fn lemma_sending_learns_nothing(
    interface: InterfaceView,
    datagrams: Seq<DatagramView>,
    ip: crate::ipv4_datagram::Ipv4AddrBytes,
)
    ensures
        after_sending(interface, datagrams).known(ip) == interface.known(ip),
    decreases datagrams.len(),
{
    if datagrams.len() > 0 {
        lemma_sending_learns_nothing(interface, datagrams.drop_last(), ip);
    }
}

/// The interface without the first datagram that came in.
pub open spec fn without_first(interface: InterfaceView) -> InterfaceView {
    InterfaceView { datagrams_in: interface.datagrams_in.drop_first(), ..interface }
}

/// Hands the next datagram that came in over the interface to the host, and what
/// the host sends to the interface. Gives what there is to tell, or nothing where
/// no datagram came in.
pub fn deliver_next(interface: &mut NetworkInterface, host: &mut IpHost) -> (told: Option<
    Vec<IpHostEvent>,
>)
    requires
        old(host).wf(),
        old(interface)@.datagrams_in.len() > 0 ==> {
            let datagram = old(interface)@.datagrams_in[0];
            &&& old(host)@.can_take(datagram)
            &&& sendable(old(interface)@, old(host)@.reaction(datagram).datagrams)
        },
    ensures
        final(host).wf(),
        old(interface)@.valid() ==> final(interface)@.valid(),
        match told {
            Some(events) => {
                let datagram = old(interface)@.datagrams_in[0];
                let reaction = old(host)@.reaction(datagram);
                &&& old(interface)@.datagrams_in.len() > 0
                &&& event_views(events@) == reaction.events
                &&& final(host)@ == old(host)@.after_datagram(datagram)
                &&& final(interface)@ == after_sending(
                    without_first(old(interface)@),
                    reaction.datagrams,
                )
            },
            None => {
                &&& old(interface)@.datagrams_in.len() == 0
                &&& final(host)@ == old(host)@
                &&& final(interface)@ == old(interface)@
            },
        },
{
    match interface.pop_datagram() {
        Some(datagram) => {
            let output = host.receive_datagram(datagram);
            send_to_interface(interface, output.datagrams);
            Some(output.events)
        },
        None => None,
    }
}

/// A ping that comes in over the link is answered over the link: where the
/// sender is known to the interface, the reply goes out at once.
pub proof fn law_ping_over_the_link(
    interface: InterfaceView,
    host: HostView,
    datagram: DatagramView,
)
    requires
        datagram.header.dst.0 == host.config.local_ip,
        datagram.header.protocol == crate::ipv4_datagram::IPV4_PROTOCOL_ICMP,
        crate::icmp::icmp_rejection(datagram.payload) is None,
        crate::icmp::echo_reply(crate::icmp::icmp_parsed(datagram.payload)) is Some,
        interface.known(datagram.header.src) is Some,
    ensures
        ({
            let reaction = host.reaction(datagram);
            let after = after_sending(interface, reaction.datagrams);
            &&& reaction.datagrams.len() == 1
            &&& reaction.datagrams[0].header.dst == datagram.header.src
            &&& after.frames_out == interface.frames_out.push(
                interface.ipv4_frame(
                    reaction.datagrams[0],
                    interface.known(datagram.header.src)->Some_0,
                ),
            )
        }),
{
    let reaction = host.reaction(datagram);
    crate::ip_host::law_ping_is_answered(host, datagram);
    reveal_with_fuel(after_sending, 2);
    assert(reaction.datagrams.drop_last().len() == 0);
}

/// Datagrams are given to the interface one by one, in order, each with its own
/// destination as the next hop.
pub proof fn law_datagrams_go_to_their_destinations(
    interface: InterfaceView,
    datagrams: Seq<DatagramView>,
    next: DatagramView,
)
    ensures
        after_sending(interface, Seq::empty()) == interface,
        after_sending(interface, datagrams.push(next)) == after_sending(
            interface,
            datagrams,
        ).after_send(next, next.header.dst),
{
    assert(datagrams.push(next).drop_last() =~= datagrams);
}

/// Taking the first datagram out leaves the others, and everything else.
pub proof fn law_first_is_taken_out(interface: InterfaceView, i: int)
    requires
        0 <= i < interface.datagrams_in.len() - 1,
    ensures
        without_first(interface).datagrams_in.len() == interface.datagrams_in.len() - 1,
        without_first(interface).datagrams_in[i] == interface.datagrams_in[i + 1],
        without_first(interface) == (InterfaceView {
            datagrams_in: without_first(interface).datagrams_in,
            ..interface
        }),
{
}

/// Datagrams can be given to an interface where none of them is too long.
pub proof fn law_which_datagrams_can_be_given(
    interface: InterfaceView,
    datagrams: Seq<DatagramView>,
)
    ensures
        (forall|i: int|
            0 <= i < datagrams.len() ==> (#[trigger] datagrams[i]).payload.len() <= 65515)
            ==> sendable(interface, datagrams),
{
}

} // verus!
