//! The interface between IPv4 and an Ethernet link: finds the Ethernet address
//! of the next hop by ARP, and keeps datagrams until it is known.
use crate::arp::{
    arp_bytes, arp_parsed, arp_rejection, law_arp_round_trip, ArpMessage, ArpOperation,
};
use crate::buffer::{join32, num32};
use crate::ethernet_frame::{
    broadcast_address, zero_address, EthernetAddress, EthernetFrame, EthernetHeader, FrameView,
    ETHERTYPE_ARP, ETHERTYPE_IPV4,
};
use crate::ipv4_datagram::{
    datagram_bytes, ipv4_parsed, ipv4_rejection, law_ipv4_round_trip, DatagramView, Ipv4AddrBytes,
    Ipv4Datagram,
};
use std::collections::{HashMap, VecDeque};
use vstd::prelude::*;
use vstd::std_specs::iter::IteratorSpec;

verus! {

broadcast use vstd::std_specs::hash::group_hash_axioms;

pub const ARP_CACHE_TTL_MS: u64 = 30_000;

pub const ARP_REQUEST_COOLDOWN_MS: u64 = 5_000;

pub const PENDING_DATAGRAM_TTL_MS: u64 = 5_000;

/// An address as one number.
pub open spec fn address_number(ip: Ipv4AddrBytes) -> u32 {
    num32(ip.0[0], ip.0[1], ip.0[2], ip.0[3]) as u32
}

/// An age after some time, up to the largest number.
pub open spec fn aged(age_ms: u64, elapsed_ms: u64) -> u64 {
    if age_ms + elapsed_ms <= u64::MAX {
        (age_ms + elapsed_ms) as u64
    } else {
        u64::MAX
    }
}

/// An Ethernet address that was learned, and how long ago.
#[derive(Debug, Clone, Copy)]
pub struct ArpCacheEntry {
    pub ethernet_address: EthernetAddress,
    pub age_ms: u64,
}

/// Datagrams that wait for the Ethernet address of their next hop.
#[derive(Debug)]
struct PendingResolution {
    datagrams: VecDeque<Ipv4Datagram>,
    age_ms: u64,
    request_age_ms: u64,
}

/// The datagrams that wait, how long ago the first of them came, and how long
/// ago the address was asked for.
#[verifier::ext_equal]
pub struct PendingView {
    pub datagrams: Seq<DatagramView>,
    pub age_ms: u64,
    pub request_age_ms: u64,
}

/// What each of these datagrams holds.
pub open spec fn datagram_views(datagrams: Seq<Ipv4Datagram>) -> Seq<DatagramView> {
    Seq::new(datagrams.len(), |i: int| datagrams[i]@)
}

/// What each of these frames holds.
pub open spec fn frame_views(frames: Seq<EthernetFrame>) -> Seq<FrameView> {
    Seq::new(frames.len(), |i: int| frames[i]@)
}

impl View for PendingResolution {
    type V = PendingView;

    closed spec fn view(&self) -> PendingView {
        PendingView {
            datagrams: datagram_views(self.datagrams@),
            age_ms: self.age_ms,
            request_age_ms: self.request_age_ms,
        }
    }
}

impl PendingView {
    /// Nothing waits yet, and the address was not asked for.
    pub open spec fn fresh() -> PendingView {
        PendingView {
            datagrams: Seq::empty(),
            age_ms: 0,
            request_age_ms: ARP_REQUEST_COOLDOWN_MS,
        }
    }

    /// Whether it is time to ask for the address.
    pub open spec fn request_due(self) -> bool {
        self.request_age_ms >= ARP_REQUEST_COOLDOWN_MS
    }

    pub open spec fn after(self, elapsed_ms: u64) -> PendingView {
        PendingView {
            age_ms: aged(self.age_ms, elapsed_ms),
            request_age_ms: aged(self.request_age_ms, elapsed_ms),
            ..self
        }
    }

    /// Whether every datagram that waits can be sent.
    pub open spec fn all_fit(self) -> bool {
        forall|i: int| 0 <= i < self.datagrams.len() ==> (#[trigger] self.datagrams[i]).fits()
    }
}

impl PendingResolution {
    fn new() -> (pending: Self)
        ensures
            pending@ == PendingView::fresh(),
    {
        let pending = Self {
            datagrams: VecDeque::new(),
            age_ms: 0,
            request_age_ms: ARP_REQUEST_COOLDOWN_MS,
        };
        assert(datagram_views(pending.datagrams@) =~= Seq::empty());
        pending
    }

    fn should_send_arp_request(&self) -> (due: bool)
        ensures
            due == self@.request_due(),
    {
        self.request_age_ms >= ARP_REQUEST_COOLDOWN_MS
    }

    fn mark_request_sent(&mut self)
        ensures
            final(self)@ == (PendingView { request_age_ms: 0, ..old(self)@ }),
    {
        self.request_age_ms = 0;
    }

    fn tick(&mut self, elapsed_ms: u64)
        ensures
            final(self)@ == old(self)@.after(elapsed_ms),
    {
        self.age_ms = self.age_ms.saturating_add(elapsed_ms);
        self.request_age_ms = self.request_age_ms.saturating_add(elapsed_ms);
    }

    fn is_expired(&self) -> (expired: bool)
        ensures
            expired == (self@.age_ms >= PENDING_DATAGRAM_TTL_MS),
    {
        self.age_ms >= PENDING_DATAGRAM_TTL_MS
    }
}

/// What an interface is. Addresses of next hops stand as numbers.
#[verifier::ext_equal]
pub struct InterfaceView {
    pub ethernet_address: EthernetAddress,
    pub ip_address: Ipv4AddrBytes,
    pub arp_cache: Map<u32, ArpCacheEntry>,
    pub pending: Map<u32, PendingView>,
    pub frames_out: Seq<FrameView>,
    pub datagrams_in: Seq<DatagramView>,
}

/// The entries of a cache that are young enough after some time.
pub open spec fn aged_cache(cache: Map<u32, ArpCacheEntry>, elapsed_ms: u64) -> Map<
    u32,
    ArpCacheEntry,
> {
    Map::new(
        |ip: u32|
            cache.contains_key(ip) && aged(cache[ip].age_ms, elapsed_ms) < ARP_CACHE_TTL_MS,
        |ip: u32| ArpCacheEntry { age_ms: aged(cache[ip].age_ms, elapsed_ms), ..cache[ip] },
    )
}

/// What still waits after some time.
pub open spec fn aged_pending(pending: Map<u32, PendingView>, elapsed_ms: u64) -> Map<
    u32,
    PendingView,
> {
    Map::new(
        |ip: u32|
            pending.contains_key(ip) && aged(pending[ip].age_ms, elapsed_ms)
                < PENDING_DATAGRAM_TTL_MS,
        |ip: u32| pending[ip].after(elapsed_ms),
    )
}

impl InterfaceView {
    /// What was learned is younger than 30 seconds. Where datagrams wait for an
    /// address it is not known, it was asked for when the first of them came,
    /// and that is less than five seconds ago.
    pub open spec fn valid(self) -> bool {
        &&& forall|ip: u32| #[trigger]
            self.arp_cache.contains_key(ip) ==> self.arp_cache[ip].age_ms < ARP_CACHE_TTL_MS
        &&& forall|ip: u32| #[trigger]
            self.pending.contains_key(ip) ==> {
                &&& !self.arp_cache.contains_key(ip)
                &&& self.pending[ip].datagrams.len() > 0
                &&& self.pending[ip].request_age_ms == self.pending[ip].age_ms
                &&& self.pending[ip].age_ms < PENDING_DATAGRAM_TTL_MS
            }
    }

    /// The Ethernet address known for an IPv4 address.
    pub open spec fn known(self, ip: Ipv4AddrBytes) -> Option<EthernetAddress> {
        if self.arp_cache.contains_key(address_number(ip)) {
            Some(self.arp_cache[address_number(ip)].ethernet_address)
        } else {
            None
        }
    }

    /// What waits for the Ethernet address of a next hop.
    pub open spec fn waiting_for(self, next_hop: Ipv4AddrBytes) -> PendingView {
        if self.pending.contains_key(address_number(next_hop)) {
            self.pending[address_number(next_hop)]
        } else {
            PendingView::fresh()
        }
    }

    /// The frame that carries a datagram to an Ethernet address.
    pub open spec fn ipv4_frame(self, datagram: DatagramView, dst: EthernetAddress) -> FrameView {
        FrameView {
            header: EthernetHeader {
                dst,
                src: self.ethernet_address,
                ethertype: ETHERTYPE_IPV4,
            },
            payload: datagram_bytes(datagram),
        }
    }

    /// The frame that carries an ARP message to an Ethernet address.
    pub open spec fn arp_frame(self, message: ArpMessage, dst: EthernetAddress) -> FrameView {
        FrameView {
            header: EthernetHeader { dst, src: self.ethernet_address, ethertype: ETHERTYPE_ARP },
            payload: arp_bytes(message),
        }
    }

    /// The frame that asks everyone for the Ethernet address of a next hop.
    pub open spec fn request_frame(self, next_hop: Ipv4AddrBytes) -> FrameView {
        self.arp_frame(
            ArpMessage {
                operation: ArpOperation::Request,
                sender_ethernet_address: self.ethernet_address,
                sender_ip_address: self.ip_address.0,
                target_ethernet_address: zero_address(),
                target_ip_address: next_hop.0,
            },
            broadcast_address(),
        )
    }

    /// The frame that answers someone who has asked for this interface.
    pub open spec fn reply_frame(self, asking: EthernetAddress, ip: Ipv4AddrBytes) -> FrameView {
        self.arp_frame(
            ArpMessage {
                operation: ArpOperation::Reply,
                sender_ethernet_address: self.ethernet_address,
                sender_ip_address: self.ip_address.0,
                target_ethernet_address: asking,
                target_ip_address: ip.0,
            },
            asking,
        )
    }

    /// The interface once a datagram was given to it. Where the Ethernet address
    /// of the next hop is known the datagram goes out; otherwise it waits, and
    /// the address is asked for where that is due.
    pub open spec fn after_send(
        self,
        datagram: DatagramView,
        next_hop: Ipv4AddrBytes,
    ) -> InterfaceView {
        match self.known(next_hop) {
            Some(dst) => InterfaceView {
                frames_out: self.frames_out.push(self.ipv4_frame(datagram, dst)),
                ..self
            },
            None => {
                let waiting = self.waiting_for(next_hop);
                let queued = PendingView {
                    datagrams: waiting.datagrams.push(datagram),
                    request_age_ms: if waiting.request_due() {
                        0
                    } else {
                        waiting.request_age_ms
                    },
                    ..waiting
                };
                InterfaceView {
                    pending: self.pending.insert(address_number(next_hop), queued),
                    frames_out: if waiting.request_due() {
                        self.frames_out.push(self.request_frame(next_hop))
                    } else {
                        self.frames_out
                    },
                    ..self
                }
            },
        }
    }

    /// The frames that carry datagrams to an Ethernet address.
    pub open spec fn ipv4_frames(
        self,
        datagrams: Seq<DatagramView>,
        dst: EthernetAddress,
    ) -> Seq<FrameView> {
        Seq::new(datagrams.len(), |i: int| self.ipv4_frame(datagrams[i], dst))
    }

    /// The interface once it has learned the Ethernet address of an IPv4 address:
    /// what waited for it goes out, in order.
    pub open spec fn after_learning(
        self,
        ip: Ipv4AddrBytes,
        ethernet_address: EthernetAddress,
    ) -> InterfaceView {
        InterfaceView {
            arp_cache: self.arp_cache.insert(
                address_number(ip),
                ArpCacheEntry { ethernet_address, age_ms: 0 },
            ),
            pending: self.pending.remove(address_number(ip)),
            frames_out: self.frames_out + self.ipv4_frames(
                self.waiting_for(ip).datagrams,
                ethernet_address,
            ),
            ..self
        }
    }

    /// Whether a frame is meant for this interface.
    pub open spec fn accepts(self, frame: FrameView) -> bool {
        frame.header.dst == self.ethernet_address || frame.header.dst == broadcast_address()
    }

    /// The ARP message that a frame brings to this interface.
    pub open spec fn heard(self, frame: FrameView) -> Option<ArpMessage> {
        if self.accepts(frame) && frame.header.ethertype == ETHERTYPE_ARP && arp_rejection(
            frame.payload,
        ) is None {
            Some(arp_parsed(frame.payload))
        } else {
            None
        }
    }

    /// The interface once a frame came. A datagram is handed up, an ARP message
    /// is learned from, and answered where it asks for this interface.
    pub open spec fn after_frame(self, frame: FrameView) -> InterfaceView {
        match self.heard(frame) {
            Some(message) => {
                let sender = Ipv4AddrBytes(message.sender_ip_address);
                let learned = self.after_learning(sender, message.sender_ethernet_address);
                if message.operation == ArpOperation::Request && Ipv4AddrBytes(
                    message.target_ip_address,
                ) == self.ip_address {
                    InterfaceView {
                        frames_out: learned.frames_out.push(
                            self.reply_frame(message.sender_ethernet_address, sender),
                        ),
                        ..learned
                    }
                } else {
                    learned
                }
            },
            None => if self.accepts(frame) && frame.header.ethertype == ETHERTYPE_IPV4
                && ipv4_rejection(frame.payload) is None {
                InterfaceView {
                    datagrams_in: self.datagrams_in.push(ipv4_parsed(frame.payload)),
                    ..self
                }
            } else {
                self
            },
        }
    }

    /// The interface after some time.
    pub open spec fn after_tick(self, elapsed_ms: u64) -> InterfaceView {
        InterfaceView {
            arp_cache: aged_cache(self.arp_cache, elapsed_ms),
            pending: aged_pending(self.pending, elapsed_ms),
            ..self
        }
    }
}

/// The interface between IPv4 and an Ethernet link.
#[derive(Debug)]
pub struct NetworkInterface {
    ethernet_address: EthernetAddress,
    ip_address: Ipv4AddrBytes,
    arp_cache: HashMap<u32, ArpCacheEntry>,
    pending: HashMap<u32, PendingResolution>,
    frames_out: VecDeque<EthernetFrame>,
    datagrams_in: VecDeque<Ipv4Datagram>,
}

spec fn pending_views(pending: Map<u32, PendingResolution>) -> Map<u32, PendingView> {
    pending.map_values(|p: PendingResolution| p@)
}

impl View for NetworkInterface {
    type V = InterfaceView;

    closed spec fn view(&self) -> InterfaceView {
        InterfaceView {
            ethernet_address: self.ethernet_address,
            ip_address: self.ip_address,
            arp_cache: self.arp_cache@,
            pending: pending_views(self.pending@),
            frames_out: frame_views(self.frames_out@),
            datagrams_in: datagram_views(self.datagrams_in@),
        }
    }
}

impl NetworkInterface {
    pub fn new(ethernet_address: EthernetAddress, ip_address: Ipv4AddrBytes) -> (interface: Self)
        ensures
            interface@ == (InterfaceView {
                ethernet_address,
                ip_address,
                arp_cache: Map::empty(),
                pending: Map::empty(),
                frames_out: Seq::empty(),
                datagrams_in: Seq::empty(),
            }),
            interface@.valid(),
    {
        let interface = Self {
            ethernet_address,
            ip_address,
            arp_cache: HashMap::new(),
            pending: HashMap::new(),
            frames_out: VecDeque::new(),
            datagrams_in: VecDeque::new(),
        };
        assert(interface@.frames_out =~= Seq::empty());
        assert(interface@.datagrams_in =~= Seq::empty());
        assert(interface@.pending =~= Map::empty());
        interface
    }

    pub fn ethernet_address(&self) -> (address: EthernetAddress)
        ensures
            address == self@.ethernet_address,
    {
        self.ethernet_address
    }

    pub fn ip_address(&self) -> (address: Ipv4AddrBytes)
        ensures
            address == self@.ip_address,
    {
        self.ip_address
    }

    pub fn frames_out_len(&self) -> (count: usize)
        ensures
            count == self@.frames_out.len(),
    {
        self.frames_out.len()
    }

    pub fn datagrams_in_len(&self) -> (count: usize)
        ensures
            count == self@.datagrams_in.len(),
    {
        self.datagrams_in.len()
    }

    pub fn arp_cache_len(&self) -> (count: usize)
        ensures
            count == self@.arp_cache.len(),
    {
        self.arp_cache.len()
    }

    pub fn pending_len(&self) -> (count: usize)
        ensures
            count == self@.pending.len(),
    {
        assert(self@.pending.dom() =~= self.pending@.dom());
        self.pending.len()
    }

    pub fn has_arp_cache_entry(&self, ip: Ipv4AddrBytes) -> (known: bool)
        ensures
            known == (self@.known(ip) is Some),
    {
        self.arp_cache.contains_key(&number_of(ip))
    }

    pub fn lookup_ethernet_address(&self, ip: Ipv4AddrBytes) -> (address: Option<EthernetAddress>)
        ensures
            address == self@.known(ip),
    {
        match self.arp_cache.get(&number_of(ip)) {
            Some(entry) => Some(entry.ethernet_address),
            None => None,
        }
    }

    /// The next frame to send over the link.
    pub fn pop_frame(&mut self) -> (frame: Option<EthernetFrame>)
        ensures
            match frame {
                Some(frame) => old(self)@.frames_out.len() > 0 && frame@ == old(
                    self,
                )@.frames_out[0] && final(self)@ == (InterfaceView {
                    frames_out: old(self)@.frames_out.drop_first(),
                    ..old(self)@
                }),
                None => old(self)@.frames_out.len() == 0 && final(self)@ == old(self)@,
            },
            old(self)@.valid() ==> final(self)@.valid(),
    {
        let ghost before = self@.frames_out;
        let frame = self.frames_out.pop_front();
        proof {
            if before.len() > 0 {
                assert(self@.frames_out =~= before.drop_first());
            } else {
                assert(self@.frames_out =~= before);
            }
        }
        frame
    }

    /// The next datagram that came in.
    pub fn pop_datagram(&mut self) -> (datagram: Option<Ipv4Datagram>)
        ensures
            match datagram {
                Some(datagram) => old(self)@.datagrams_in.len() > 0 && datagram@ == old(
                    self,
                )@.datagrams_in[0] && final(self)@ == (InterfaceView {
                    datagrams_in: old(self)@.datagrams_in.drop_first(),
                    ..old(self)@
                }),
                None => old(self)@.datagrams_in.len() == 0 && final(self)@ == old(self)@,
            },
            old(self)@.valid() ==> final(self)@.valid(),
    {
        let ghost before = self@.datagrams_in;
        let datagram = self.datagrams_in.pop_front();
        proof {
            if before.len() > 0 {
                assert(self@.datagrams_in =~= before.drop_first());
            } else {
                assert(self@.datagrams_in =~= before);
            }
        }
        datagram
    }

    /// Sends a datagram to the next hop, or keeps it until the Ethernet address
    /// of the next hop is known. The address is asked for at most once in five
    /// seconds.
    pub fn send_datagram(&mut self, datagram: Ipv4Datagram, next_hop: Ipv4AddrBytes)
        requires
            old(self)@.known(next_hop) is Some ==> datagram@.fits(),
        ensures
            final(self)@ == old(self)@.after_send(datagram@, next_hop),
            old(self)@.valid() ==> final(self)@.valid(),
    {
        if let Some(ethernet_address) = self.lookup_ethernet_address(next_hop) {
            self.emit_ipv4_frame(datagram, ethernet_address);
            return ;
        }
        let number: u32 = number_of(next_hop);
        let mut pending = match self.pending.remove(&number) {
            Some(pending) => pending,
            None => PendingResolution::new(),
        };
        assert(pending@ == old(self)@.waiting_for(next_hop));
        let ghost before = pending@.datagrams;
        let ghost added = datagram@;
        pending.datagrams.push_back(datagram);
        assert(pending@.datagrams =~= before.push(added));
        let due = pending.should_send_arp_request();
        if due {
            pending.mark_request_sent();
        }
        let ghost queued = pending@;
        self.pending.insert(number, pending);
        assert(self@.pending =~= old(self)@.pending.insert(number, queued));
        if due {
            self.emit_arp_request(next_hop);
        }
    }

    /// Takes in a frame of the link.
    pub fn recv_frame(&mut self, frame: EthernetFrame)
        requires
            old(self)@.heard(frame@) matches Some(message) ==> old(self)@.waiting_for(
                Ipv4AddrBytes(message.sender_ip_address),
            ).all_fit(),
        ensures
            final(self)@ == old(self)@.after_frame(frame@),
            old(self)@.valid() ==> final(self)@.valid(),
    {
        if !frame.is_for(self.ethernet_address) {
            return ;
        }
        if frame.header.ethertype == ETHERTYPE_IPV4 {
            if let Ok(datagram) = Ipv4Datagram::parse_bytes(frame.payload) {
                let ghost before = self@.datagrams_in;
                let ghost added = datagram@;
                self.datagrams_in.push_back(datagram);
                assert(self@.datagrams_in =~= before.push(added));
            }
        } else if frame.header.ethertype == ETHERTYPE_ARP {
            if let Ok(message) = ArpMessage::parse_bytes(frame.payload) {
                let sender = Ipv4AddrBytes::new(message.sender_ip_address);
                self.learn_arp_mapping(sender, message.sender_ethernet_address);
                if message.is_request() && Ipv4AddrBytes::new(message.target_ip_address)
                    == self.ip_address {
                    self.emit_arp_reply(message.sender_ethernet_address, sender);
                }
            }
        }
    }

    /// Lets time pass: what was learned is forgotten after 30 seconds, and what
    /// waits is dropped after 5 seconds.
    pub fn tick(&mut self, elapsed_ms: u64)
        ensures
            final(self)@ == old(self)@.after_tick(elapsed_ms),
            old(self)@.valid() ==> final(self)@.valid(),
    {
        self.tick_cache(elapsed_ms);
        self.tick_pending(elapsed_ms);
    }

    /// Learns the Ethernet address of an IPv4 address and sends what has waited
    /// for it.
    pub fn learn_arp_mapping(&mut self, ip: Ipv4AddrBytes, ethernet_address: EthernetAddress)
        requires
            old(self)@.waiting_for(ip).all_fit(),
        ensures
            final(self)@ == old(self)@.after_learning(ip, ethernet_address),
            old(self)@.valid() ==> final(self)@.valid(),
    {
        let number: u32 = number_of(ip);
        self.arp_cache.insert(number, ArpCacheEntry { ethernet_address, age_ms: 0 });
        let ghost waiting = old(self)@.waiting_for(ip).datagrams;
        let removed = self.pending.remove(&number);
        assert(self@.pending =~= old(self)@.pending.remove(number));
        let ghost done = self@;
        let mut pending = match removed {
            Some(pending) => pending,
            None => PendingResolution::new(),
        };
        assert(pending@ == old(self)@.waiting_for(ip));
        assert(done.frames_out + done.ipv4_frames(Seq::empty(), ethernet_address)
            =~= done.frames_out);
        let ghost mut sent: int = 0;
        assert(waiting.take(0) =~= Seq::empty());
        assert(waiting.skip(0) =~= waiting);
        while pending.datagrams.len() > 0
            invariant
                0 <= sent <= waiting.len(),
                pending@.datagrams == waiting.skip(sent),
                forall|i: int| 0 <= i < waiting.len() ==> (#[trigger] waiting[i]).fits(),
                self@ == (InterfaceView {
                    frames_out: done.frames_out + done.ipv4_frames(
                        waiting.take(sent),
                        ethernet_address,
                    ),
                    ..done
                }),
            decreases pending.datagrams@.len(),
        {
            let ghost before = pending@.datagrams;
            let datagram = pending.datagrams.pop_front().unwrap();
            assert(datagram@ == before[0]);
            assert(pending@.datagrams =~= before.drop_first());
            assert(before[0] == waiting[sent]);
            self.emit_ipv4_frame(datagram, ethernet_address);
            proof {
                assert(before.drop_first() =~= waiting.skip(sent + 1));
                assert(self@.frames_out =~= done.frames_out + done.ipv4_frames(
                    waiting.take(sent + 1),
                    ethernet_address,
                ));
                sent = sent + 1;
            }
        }
        assert(waiting.take(sent) =~= waiting);
        assert(self@ =~= old(self)@.after_learning(ip, ethernet_address));
    }

    fn tick_cache(&mut self, elapsed_ms: u64)
        ensures
            final(self)@ == (InterfaceView {
                arp_cache: aged_cache(old(self)@.arp_cache, elapsed_ms),
                ..old(self)@
            }),
    {
        let ghost before = self.arp_cache@;
        let keys = cached_numbers(&self.arp_cache);
        let mut index: usize = 0;
        while index < keys.len()
            invariant
                index <= keys@.len(),
                keys@.no_duplicates(),
                keys@.to_set() == before.dom(),
                before == old(self).arp_cache@,
                *self == (NetworkInterface { arp_cache: self.arp_cache, ..*old(self) }),
                forall|i: int|
                    index <= i < keys@.len() ==> self.arp_cache@.contains_key(
                        #[trigger] keys@[i],
                    ) && self.arp_cache@[keys@[i]] == before[keys@[i]],
                forall|i: int|
                    0 <= i < index ==> (self.arp_cache@.contains_key(#[trigger] keys@[i])
                        <==> aged_cache(before, elapsed_ms).contains_key(keys@[i])) && (
                    self.arp_cache@.contains_key(keys@[i]) ==> self.arp_cache@[keys@[i]]
                        == aged_cache(before, elapsed_ms)[keys@[i]]),
                forall|k: u32|
                    #![auto]
                    self.arp_cache@.contains_key(k) ==> before.contains_key(k),
            decreases keys@.len() - index,
        {
            let key: u32 = keys[index];
            assert(keys@.to_set().contains(key));
            let mut entry = self.arp_cache.remove(&key).unwrap();
            entry.age_ms = entry.age_ms.saturating_add(elapsed_ms);
            if entry.age_ms < ARP_CACHE_TTL_MS {
                self.arp_cache.insert(key, entry);
            }
            index = index + 1;
        }
        assert(self.arp_cache@ =~= aged_cache(before, elapsed_ms)) by {
            assert forall|k: u32| before.contains_key(k) implies exists|i: int|
                0 <= i < keys@.len() && keys@[i] == k by {
                assert(keys@.to_set().contains(k));
            }
        }
    }

    fn tick_pending(&mut self, elapsed_ms: u64)
        ensures
            final(self)@ == (InterfaceView {
                pending: aged_pending(old(self)@.pending, elapsed_ms),
                ..old(self)@
            }),
    {
        let ghost before = self@.pending;
        assert(before.dom() =~= self.pending@.dom());
        let keys = pending_numbers(&self.pending);
        let mut index: usize = 0;
        while index < keys.len()
            invariant
                index <= keys@.len(),
                keys@.no_duplicates(),
                keys@.to_set() == before.dom(),
                before == old(self)@.pending,
                *self == (NetworkInterface { pending: self.pending, ..*old(self) }),
                forall|i: int|
                    index <= i < keys@.len() ==> self.pending@.contains_key(
                        #[trigger] keys@[i],
                    ) && self.pending@[keys@[i]]@ == before[keys@[i]],
                forall|i: int|
                    0 <= i < index ==> (self.pending@.contains_key(#[trigger] keys@[i])
                        <==> aged_pending(before, elapsed_ms).contains_key(keys@[i])) && (
                    self.pending@.contains_key(keys@[i]) ==> self.pending@[keys@[i]]@
                        == aged_pending(before, elapsed_ms)[keys@[i]]),
                forall|k: u32|
                    #![auto]
                    self.pending@.contains_key(k) ==> before.contains_key(k),
            decreases keys@.len() - index,
        {
            let key: u32 = keys[index];
            assert(keys@.to_set().contains(key));
            let mut pending = self.pending.remove(&key).unwrap();
            pending.tick(elapsed_ms);
            if !pending.is_expired() {
                self.pending.insert(key, pending);
            }
            index = index + 1;
        }
        assert(self@.pending =~= aged_pending(before, elapsed_ms)) by {
            assert forall|k: u32| before.contains_key(k) implies exists|i: int|
                0 <= i < keys@.len() && keys@[i] == k by {
                assert(keys@.to_set().contains(k));
            }
        }
    }

    fn emit_ipv4_frame(&mut self, datagram: Ipv4Datagram, dst: EthernetAddress)
        requires
            datagram@.fits(),
        ensures
            final(self)@ == (InterfaceView {
                frames_out: old(self)@.frames_out.push(old(self)@.ipv4_frame(datagram@, dst)),
                ..old(self)@
            }),
    {
        let frame = EthernetFrame::ipv4(dst, self.ethernet_address, datagram.serialize());
        self.emit(frame);
    }

    fn emit_arp_request(&mut self, target_ip: Ipv4AddrBytes)
        ensures
            final(self)@ == (InterfaceView {
                frames_out: old(self)@.frames_out.push(old(self)@.request_frame(target_ip)),
                ..old(self)@
            }),
    {
        let arp = ArpMessage::request(
            self.ethernet_address,
            self.ip_address.octets(),
            target_ip.octets(),
        );
        let frame = EthernetFrame::arp(
            EthernetAddress::broadcast(),
            self.ethernet_address,
            arp.serialize(),
        );
        self.emit(frame);
    }

    fn emit_arp_reply(&mut self, target_ethernet_address: EthernetAddress, target_ip: Ipv4AddrBytes)
        ensures
            final(self)@ == (InterfaceView {
                frames_out: old(self)@.frames_out.push(
                    old(self)@.reply_frame(target_ethernet_address, target_ip),
                ),
                ..old(self)@
            }),
    {
        let arp = ArpMessage::reply(
            self.ethernet_address,
            self.ip_address.octets(),
            target_ethernet_address,
            target_ip.octets(),
        );
        let frame = EthernetFrame::arp(
            target_ethernet_address,
            self.ethernet_address,
            arp.serialize(),
        );
        self.emit(frame);
    }

    fn emit(&mut self, frame: EthernetFrame)
        ensures
            final(self)@ == (InterfaceView {
                frames_out: old(self)@.frames_out.push(frame@),
                ..old(self)@
            }),
    {
        let ghost before = self@.frames_out;
        let ghost added = frame@;
        self.frames_out.push_back(frame);
        assert(self@.frames_out =~= before.push(added));
    }
}

/// An address as one number.
fn number_of(ip: Ipv4AddrBytes) -> (number: u32)
    ensures
        number == address_number(ip),
{
    let bytes = ip.octets();
    join32(bytes[0], bytes[1], bytes[2], bytes[3])
}

/// The addresses in a cache.
fn cached_numbers(cache: &HashMap<u32, ArpCacheEntry>) -> (keys: Vec<u32>)
    ensures
        keys@.no_duplicates(),
        keys@.to_set() == cache@.dom(),
{
    let mut keys: Vec<u32> = Vec::new();
    let ghost all = cache.keys().remaining();
    for key in iter: cache.keys()
        invariant
            iter.seq() == all,
            keys@.len() == iter.index(),
            forall|i: int| 0 <= i < keys@.len() ==> keys@[i] == *all[i],
    {
        keys.push(*key);
    }
    assert(keys@ =~= all.unref());
    keys
}

/// The addresses for which something waits.
fn pending_numbers(pending: &HashMap<u32, PendingResolution>) -> (keys: Vec<u32>)
    ensures
        keys@.no_duplicates(),
        keys@.to_set() == pending@.dom(),
{
    let mut keys: Vec<u32> = Vec::new();
    let ghost all = pending.keys().remaining();
    for key in iter: pending.keys()
        invariant
            iter.seq() == all,
            keys@.len() == iter.index(),
            forall|i: int| 0 <= i < keys@.len() ==> keys@[i] == *all[i],
    {
        keys.push(*key);
    }
    assert(keys@ =~= all.unref());
    keys
}

/// No two addresses have the same number.
#[verifier::rlimit(30)]
pub proof fn law_addresses_have_their_own_number(a: Ipv4AddrBytes, b: Ipv4AddrBytes)
    ensures
        address_number(a) == address_number(b) <==> a == b,
{
    if address_number(a) == address_number(b) {
        assert(a.0 =~= b.0);
    }
}

/// What was learned is used: the next datagram goes out at once, and others are
/// found as before.
pub proof fn law_learned_address_is_used(
    interface: InterfaceView,
    ip: Ipv4AddrBytes,
    ethernet_address: EthernetAddress,
    other: Ipv4AddrBytes,
    datagram: DatagramView,
)
    ensures
        ({
            let learned = interface.after_learning(ip, ethernet_address);
            &&& learned.known(ip) == Some(ethernet_address)
            &&& !learned.pending.contains_key(address_number(ip))
            &&& other != ip ==> learned.known(other) == interface.known(other)
            &&& learned.after_send(datagram, ip) == (InterfaceView {
                frames_out: learned.frames_out.push(
                    interface.ipv4_frame(datagram, ethernet_address),
                ),
                ..learned
            })
        }),
{
    law_addresses_have_their_own_number(ip, other);
}

/// What was learned is forgotten after 30 seconds and not before, unless it is
/// learned again.
pub proof fn law_learned_address_expires(
    interface: InterfaceView,
    ip: Ipv4AddrBytes,
    ethernet_address: EthernetAddress,
    ms: u64,
)
    ensures
        interface.after_learning(ip, ethernet_address).after_tick(ms).known(ip) == if ms
            < ARP_CACHE_TTL_MS {
            Some(ethernet_address)
        } else {
            None
        },
{
}

/// A datagram for an unknown address goes out behind those that wait, once the
/// address is learned, and arrives as it was sent.
pub proof fn law_waiting_datagram_is_sent(
    interface: InterfaceView,
    datagram: DatagramView,
    next_hop: Ipv4AddrBytes,
    ethernet_address: EthernetAddress,
)
    requires
        interface.known(next_hop) is None,
        datagram.fits(),
    ensures
        ({
            let queued = interface.after_send(datagram, next_hop);
            let resolved = queued.after_learning(next_hop, ethernet_address);
            &&& queued.waiting_for(next_hop).datagrams == interface.waiting_for(
                next_hop,
            ).datagrams.push(datagram)
            &&& resolved.frames_out.last() == interface.ipv4_frame(datagram, ethernet_address)
            &&& ipv4_rejection(resolved.frames_out.last().payload) is None
            &&& ipv4_parsed(resolved.frames_out.last().payload) == datagram
        }),
{
    let queued = interface.after_send(datagram, next_hop);
    let resolved = queued.after_learning(next_hop, ethernet_address);
    law_ipv4_round_trip(datagram, Seq::empty());
    assert(datagram_bytes(datagram) + Seq::<u8>::empty() =~= datagram_bytes(datagram));
    assert(resolved.frames_out.last() == interface.ipv4_frame(datagram, ethernet_address));
}

/// What can happen to an interface.
pub enum InterfaceAction {
    Send(DatagramView, Ipv4AddrBytes),
    Receive(FrameView),
    Learn(Ipv4AddrBytes, EthernetAddress),
    Tick(u64),
    TakeFrame,
    TakeDatagram,
}

impl InterfaceAction {
    /// How much time passes.
    pub open spec fn elapsed_ms(self) -> nat {
        match self {
            InterfaceAction::Tick(ms) => ms as nat,
            _ => 0,
        }
    }
}

/// How much time passes in the course of these.
pub open spec fn elapsed_in(actions: Seq<InterfaceAction>) -> nat
    decreases actions.len(),
{
    if actions.len() == 0 {
        0
    } else {
        elapsed_in(actions.drop_last()) + actions.last().elapsed_ms()
    }
}

impl InterfaceView {
    /// The interface after something happened to it.
    pub open spec fn after(self, action: InterfaceAction) -> InterfaceView {
        match action {
            InterfaceAction::Send(datagram, next_hop) => self.after_send(datagram, next_hop),
            InterfaceAction::Receive(frame) => self.after_frame(frame),
            InterfaceAction::Learn(ip, ethernet_address) => self.after_learning(
                ip,
                ethernet_address,
            ),
            InterfaceAction::Tick(ms) => self.after_tick(ms),
            InterfaceAction::TakeFrame => if self.frames_out.len() > 0 {
                InterfaceView { frames_out: self.frames_out.drop_first(), ..self }
            } else {
                self
            },
            InterfaceAction::TakeDatagram => if self.datagrams_in.len() > 0 {
                InterfaceView { datagrams_in: self.datagrams_in.drop_first(), ..self }
            } else {
                self
            },
        }
    }

    /// The interface after all of these, one by one.
    pub open spec fn after_all(self, actions: Seq<InterfaceAction>) -> InterfaceView
        decreases actions.len(),
    {
        if actions.len() == 0 {
            self
        } else {
            self.after_all(actions.drop_last()).after(actions.last())
        }
    }

    /// Whether an address was learned, or asked for, no longer ago than `ms`,
    /// and still is known or waited for.
    pub open spec fn settled(self, ip: Ipv4AddrBytes, ms: nat) -> bool {
        let number = address_number(ip);
        ||| self.arp_cache.contains_key(number) && self.arp_cache[number].age_ms <= ms
        ||| self.pending.contains_key(number) && self.pending[number].age_ms <= ms
    }
}

/// Whatever happens to an interface keeps it valid.
pub proof fn law_every_action_keeps_valid(interface: InterfaceView, action: InterfaceAction)
    requires
        interface.valid(),
    ensures
        interface.after(action).valid(),
{
}

/// A request goes out with a datagram exactly if nothing waited for the same
/// unknown next hop; the datagram waits behind what waited.
pub proof fn law_request_if_nothing_waits(
    interface: InterfaceView,
    datagram: DatagramView,
    next_hop: Ipv4AddrBytes,
)
    requires
        interface.valid(),
        interface.known(next_hop) is None,
    ensures
        interface.after_send(datagram, next_hop).frames_out == if interface.pending.contains_key(
            address_number(next_hop),
        ) {
            interface.frames_out
        } else {
            interface.frames_out.push(interface.request_frame(next_hop))
        },
        interface.after_send(datagram, next_hop).waiting_for(next_hop).datagrams
            == interface.waiting_for(next_hop).datagrams.push(datagram),
{
}

/// Within five seconds of a request no other goes out for the same next hop,
/// whatever else happens to the interface in between: a further datagram goes
/// out itself, where the address was learned, or waits.
pub proof fn law_one_request_in_five_seconds(
    interface: InterfaceView,
    first: DatagramView,
    next_hop: Ipv4AddrBytes,
    actions: Seq<InterfaceAction>,
    second: DatagramView,
)
    requires
        interface.valid(),
        interface.known(next_hop) is None,
        !interface.pending.contains_key(address_number(next_hop)),
        elapsed_in(actions) < ARP_REQUEST_COOLDOWN_MS,
    ensures
        ({
            let asked = interface.after_send(first, next_hop);
            let later = asked.after_all(actions);
            &&& asked.frames_out == interface.frames_out.push(interface.request_frame(next_hop))
            &&& later.valid()
            &&& later.after_send(second, next_hop).frames_out == match later.known(next_hop) {
                Some(dst) => later.frames_out.push(later.ipv4_frame(second, dst)),
                None => later.frames_out,
            }
        }),
{
    let asked = interface.after_send(first, next_hop);
    lemma_settled(asked, next_hop, actions);
}

proof fn lemma_settled(
    interface: InterfaceView,
    ip: Ipv4AddrBytes,
    actions: Seq<InterfaceAction>,
)
    requires
        interface.valid(),
        interface.settled(ip, 0),
        elapsed_in(actions) < ARP_REQUEST_COOLDOWN_MS,
    ensures
        interface.after_all(actions).valid(),
        interface.after_all(actions).settled(ip, elapsed_in(actions)),
    decreases actions.len(),
{
    if actions.len() > 0 {
        lemma_settled(interface, ip, actions.drop_last());
        law_every_action_keeps_valid(interface.after_all(actions.drop_last()), actions.last());
    }
}

/// While a request is younger than five seconds no other is sent for the same
/// next hop: further datagrams just wait.
pub proof fn law_one_request_per_cooldown(
    interface: InterfaceView,
    first: DatagramView,
    second: DatagramView,
    next_hop: Ipv4AddrBytes,
    ms: u64,
)
    requires
        interface.known(next_hop) is None,
        !interface.pending.contains_key(address_number(next_hop)),
        ms < ARP_REQUEST_COOLDOWN_MS,
    ensures
        ({
            let asked = interface.after_send(first, next_hop);
            let later = asked.after_tick(ms);
            let again = later.after_send(second, next_hop);
            &&& asked.frames_out == interface.frames_out.push(interface.request_frame(next_hop))
            &&& again.frames_out == asked.frames_out
            &&& again.waiting_for(next_hop).datagrams == seq![first, second]
        }),
{
    let asked = interface.after_send(first, next_hop);
    let later = asked.after_tick(ms);
    let again = later.after_send(second, next_hop);
    assert(later.known(next_hop) is None);
    assert(again.waiting_for(next_hop).datagrams =~= seq![first, second]);
}

/// No request is sent for a next hop whose last request is younger than five
/// seconds, whatever waits for it and however much more comes.
pub proof fn law_no_request_while_one_is_young(
    interface: InterfaceView,
    datagram: DatagramView,
    next_hop: Ipv4AddrBytes,
    ms: u64,
)
    requires
        interface.known(next_hop) is None,
        interface.waiting_for(next_hop).request_age_ms < ARP_REQUEST_COOLDOWN_MS,
    ensures
        interface.after_send(datagram, next_hop).frames_out == interface.frames_out,
        interface.after_send(datagram, next_hop).waiting_for(next_hop).request_age_ms
            == interface.waiting_for(next_hop).request_age_ms,
        interface.after_tick(ms).pending.contains_key(address_number(next_hop))
            ==> interface.after_tick(ms).waiting_for(next_hop).request_age_ms == aged(
            interface.waiting_for(next_hop).request_age_ms,
            ms,
        ),
{
}

/// What waits is dropped five seconds after the first of it came, and the
/// address is asked for again then.
pub proof fn law_waiting_datagrams_expire(
    interface: InterfaceView,
    datagram: DatagramView,
    next_hop: Ipv4AddrBytes,
    ms: u64,
)
    requires
        interface.known(next_hop) is None,
        !interface.pending.contains_key(address_number(next_hop)),
    ensures
        ({
            let later = interface.after_send(datagram, next_hop).after_tick(ms);
            &&& later.pending.contains_key(address_number(next_hop)) <==> ms
                < PENDING_DATAGRAM_TTL_MS
            &&& ms >= PENDING_DATAGRAM_TTL_MS ==> later.waiting_for(next_hop).request_due()
        }),
{
}

/// Time may pass in pieces.
pub proof fn law_ticks_add_up(interface: InterfaceView, first: u64, second: u64)
    requires
        first + second <= u64::MAX,
    ensures
        interface.after_tick(first).after_tick(second) == interface.after_tick(
            (first + second) as u64,
        ),
{
    let twice = interface.after_tick(first).after_tick(second);
    let once = interface.after_tick((first + second) as u64);
    assert(twice.arp_cache =~= once.arp_cache);
    assert(twice.pending =~= once.pending);
}

/// A frame for someone else changes nothing.
pub proof fn law_frames_for_others_are_ignored(interface: InterfaceView, frame: FrameView)
    requires
        frame.header.dst != interface.ethernet_address,
        frame.header.dst != broadcast_address(),
    ensures
        interface.after_frame(frame) == interface,
{
}

/// One interface asks for another, and both know each other then: the request
/// is answered, and either side learns the address of the other.
pub proof fn law_request_and_reply_resolve(asking: InterfaceView, asked: InterfaceView)
    ensures
        ({
            let request = asking.request_frame(asked.ip_address);
            let answering = asked.after_frame(request);
            let reply = answering.frames_out.last();
            &&& answering.known(asking.ip_address) == Some(asking.ethernet_address)
            &&& reply == asked.reply_frame(asking.ethernet_address, asking.ip_address)
            &&& asking.after_frame(reply).known(asked.ip_address) == Some(asked.ethernet_address)
        }),
{
    let request = asking.request_frame(asked.ip_address);
    let question = ArpMessage {
        operation: ArpOperation::Request,
        sender_ethernet_address: asking.ethernet_address,
        sender_ip_address: asking.ip_address.0,
        target_ethernet_address: zero_address(),
        target_ip_address: asked.ip_address.0,
    };
    law_arp_round_trip(question, Seq::empty());
    assert(arp_bytes(question) + Seq::<u8>::empty() =~= arp_bytes(question));
    assert(asked.heard(request) == Some(question));
    let answering = asked.after_frame(request);
    let reply = answering.frames_out.last();
    let answer = ArpMessage {
        operation: ArpOperation::Reply,
        sender_ethernet_address: asked.ethernet_address,
        sender_ip_address: asked.ip_address.0,
        target_ethernet_address: asking.ethernet_address,
        target_ip_address: asking.ip_address.0,
    };
    law_arp_round_trip(answer, Seq::empty());
    assert(arp_bytes(answer) + Seq::<u8>::empty() =~= arp_bytes(answer));
    assert(reply == asked.reply_frame(asking.ethernet_address, asking.ip_address));
    assert(asking.heard(reply) == Some(answer));
}

/// Whatever a frame brings, the datagrams that came in can be sent on.
pub proof fn law_received_datagrams_fit(interface: InterfaceView, frame: FrameView)
    requires
        forall|i: int|
            0 <= i < interface.datagrams_in.len() ==> (#[trigger] interface.datagrams_in[i]).fits(),
    ensures
        forall|i: int|
            0 <= i < interface.after_frame(frame).datagrams_in.len() ==> (
            #[trigger] interface.after_frame(frame).datagrams_in[i]).fits(),
{
}

/// Every datagram is handed up, of whatever protocol, between whatever addresses
/// and with whatever content: a frame of type IPv4, to this interface or to
/// everyone, that begins with the bytes of a datagram, adds exactly that datagram
/// to what came in, and changes nothing else.
pub proof fn law_every_datagram_is_handed_up(
    interface: InterfaceView,
    frame: FrameView,
    datagram: DatagramView,
    trailing: Seq<u8>,
)
    requires
        frame.header.dst == interface.ethernet_address || frame.header.dst.0@ == seq![
            0xffu8,
            0xff,
            0xff,
            0xff,
            0xff,
            0xff,
        ],
        frame.header.ethertype == 0x0800,
        frame.payload == datagram_bytes(datagram) + trailing,
        datagram.payload.len() <= 65515,
    ensures
        ({
            let after = interface.after_frame(frame);
            &&& after.datagrams_in == interface.datagrams_in.push(datagram)
            &&& after.frames_out == interface.frames_out
            &&& after.arp_cache == interface.arp_cache
            &&& after.pending == interface.pending
            &&& after.ethernet_address == interface.ethernet_address
            &&& after.ip_address == interface.ip_address
        }),
{
    lemma_everyone(frame.header.dst);
    law_ipv4_round_trip(datagram, trailing);
}

proof fn lemma_everyone(address: EthernetAddress)
    ensures
        address == broadcast_address() <==> address.0@ == seq![
            0xffu8,
            0xff,
            0xff,
            0xff,
            0xff,
            0xff,
        ],
{
    assert(broadcast_address().0@ =~= seq![0xffu8, 0xff, 0xff, 0xff, 0xff, 0xff]);
    if address.0@ == broadcast_address().0@ {
        assert(address.0 =~= broadcast_address().0);
    }
}

/// What any packet does that a frame of type IPv4 brings: where it is accepted,
/// the datagram is handed up; where it is not, nothing happens.
pub proof fn law_packets_are_handed_up(interface: InterfaceView, frame: FrameView)
    requires
        frame.header.dst == interface.ethernet_address || frame.header.dst.0@ == seq![
            0xffu8,
            0xff,
            0xff,
            0xff,
            0xff,
            0xff,
        ],
        frame.header.ethertype == 0x0800,
    ensures
        interface.after_frame(frame) == (InterfaceView {
            datagrams_in: if ipv4_rejection(frame.payload) is None {
                interface.datagrams_in.push(ipv4_parsed(frame.payload))
            } else {
                interface.datagrams_in
            },
            ..interface
        }),
{
    lemma_everyone(frame.header.dst);
}

/// What one interface sends to another that it knows is handed up there: the frame
/// that carries a datagram out adds that datagram to what came in at the interface
/// whose Ethernet address was known.
pub proof fn law_datagrams_cross_the_link(
    from: InterfaceView,
    to: InterfaceView,
    datagram: DatagramView,
    next_hop: Ipv4AddrBytes,
)
    requires
        from.arp_cache.contains_key(address_number(next_hop)),
        from.arp_cache[address_number(next_hop)].ethernet_address == to.ethernet_address,
        datagram.payload.len() <= 65515,
    ensures
        ({
            let sent = from.after_send(datagram, next_hop);
            let after = to.after_frame(sent.frames_out.last());
            &&& sent.frames_out.drop_last() == from.frames_out
            &&& sent.frames_out.last().header.src == from.ethernet_address
            &&& after == (InterfaceView {
                datagrams_in: to.datagrams_in.push(datagram),
                ..to
            })
        }),
{
    let frame = from.after_send(datagram, next_hop).frames_out.last();
    assert(from.after_send(datagram, next_hop).frames_out.drop_last() =~= from.frames_out);
    assert(datagram_bytes(datagram) + Seq::<u8>::empty() =~= datagram_bytes(datagram));
    law_every_datagram_is_handed_up(to, frame, datagram, Seq::empty());
    assert(to.after_frame(frame) =~= (InterfaceView {
        datagrams_in: to.datagrams_in.push(datagram),
        ..to
    }));
}

/// A datagram for a next hop whose Ethernet address is known goes out at once, in
/// a frame of type IPv4 to that address, and nothing else changes.
pub proof fn law_known_next_hop(
    interface: InterfaceView,
    datagram: DatagramView,
    next_hop: Ipv4AddrBytes,
)
    requires
        interface.arp_cache.contains_key(address_number(next_hop)),
    ensures
        ({
            let after = interface.after_send(datagram, next_hop);
            let frame = after.frames_out.last();
            &&& after.frames_out == interface.frames_out.push(frame)
            &&& frame.header.dst == interface.arp_cache[address_number(
                next_hop,
            )].ethernet_address
            &&& frame.header.src == interface.ethernet_address
            &&& frame.header.ethertype == 0x0800
            &&& frame.payload == datagram_bytes(datagram)
            &&& after == (InterfaceView { frames_out: after.frames_out, ..interface })
        }),
{
}

/// A datagram for a next hop whose Ethernet address is not known waits behind the
/// others for it. The address is asked for unless that was done less than five
/// seconds ago, by a frame to everyone that tells both addresses of this
/// interface. What waits for other next hops stays.
pub proof fn law_unknown_next_hop(
    interface: InterfaceView,
    datagram: DatagramView,
    next_hop: Ipv4AddrBytes,
    other: u32,
)
    requires
        !interface.arp_cache.contains_key(address_number(next_hop)),
    ensures
        ({
            let number = address_number(next_hop);
            let after = interface.after_send(datagram, next_hop);
            let waited = interface.pending.contains_key(number);
            let ask = !waited || interface.pending[number].request_age_ms >= 5000;
            &&& after.pending.contains_key(number)
            &&& after.pending[number].datagrams == if waited {
                interface.pending[number].datagrams.push(datagram)
            } else {
                seq![datagram]
            }
            &&& after.pending[number].age_ms == if waited {
                interface.pending[number].age_ms
            } else {
                0
            }
            &&& after.pending[number].request_age_ms == if ask {
                0
            } else {
                interface.pending[number].request_age_ms
            }
            &&& other != number ==> (after.pending.contains_key(other)
                <==> interface.pending.contains_key(other))
            &&& other != number && interface.pending.contains_key(other) ==> after.pending[other]
                == interface.pending[other]
            &&& !ask ==> after.frames_out == interface.frames_out
            &&& ask ==> {
                let frame = after.frames_out.last();
                &&& after.frames_out == interface.frames_out.push(frame)
                &&& frame.header.dst.0@ == seq![0xffu8, 0xff, 0xff, 0xff, 0xff, 0xff]
                &&& frame.header.src == interface.ethernet_address
                &&& frame.header.ethertype == 0x0806
                &&& arp_rejection(frame.payload) is None
                &&& arp_parsed(frame.payload).operation == ArpOperation::Request
                &&& arp_parsed(frame.payload).sender_ethernet_address == interface.ethernet_address
                &&& arp_parsed(frame.payload).sender_ip_address == interface.ip_address.0
                &&& arp_parsed(frame.payload).target_ethernet_address.0@ == seq![0u8, 0, 0, 0, 0, 0]
                &&& arp_parsed(frame.payload).target_ip_address == next_hop.0
                &&& frame.payload.len() == 28
            }
            &&& after == (InterfaceView {
                pending: after.pending,
                frames_out: after.frames_out,
                ..interface
            })
        }),
{
    let after = interface.after_send(datagram, next_hop);
    let message = ArpMessage {
        operation: ArpOperation::Request,
        sender_ethernet_address: interface.ethernet_address,
        sender_ip_address: interface.ip_address.0,
        target_ethernet_address: zero_address(),
        target_ip_address: next_hop.0,
    };
    law_arp_round_trip(message, Seq::empty());
    assert(arp_bytes(message) + Seq::<u8>::empty() =~= arp_bytes(message));
    lemma_everyone(broadcast_address());
    assert(zero_address().0@ =~= seq![0u8, 0, 0, 0, 0, 0]);
    assert(Seq::<DatagramView>::empty().push(datagram) =~= seq![datagram]);
}

/// What an ARP message does, whoever asks or answers: the interface knows the
/// sender then, and what waited for it goes out to it, in order. Where the message
/// asks for this interface, it is answered behind that, to the sender alone, with
/// both addresses of the interface; otherwise nothing more goes out. What is known
/// of others, and what waits for them, stays.
pub proof fn law_arp_message_is_learned_from(
    interface: InterfaceView,
    frame: FrameView,
    message: ArpMessage,
    trailing: Seq<u8>,
    other: u32,
)
    requires
        frame.header.dst == interface.ethernet_address || frame.header.dst.0@ == seq![
            0xffu8,
            0xff,
            0xff,
            0xff,
            0xff,
            0xff,
        ],
        frame.header.ethertype == 0x0806,
        frame.payload == arp_bytes(message) + trailing,
    ensures
        ({
            let after = interface.after_frame(frame);
            let number = address_number(Ipv4AddrBytes(message.sender_ip_address));
            let waited = if interface.pending.contains_key(number) {
                interface.pending[number].datagrams
            } else {
                Seq::empty()
            };
            let before = interface.frames_out.len() as int;
            let asks = message.operation == ArpOperation::Request && message.target_ip_address
                == interface.ip_address.0;
            &&& after.arp_cache.contains_key(number)
            &&& after.arp_cache[number].ethernet_address == message.sender_ethernet_address
            &&& after.arp_cache[number].age_ms == 0
            &&& other != number ==> (after.arp_cache.contains_key(other)
                <==> interface.arp_cache.contains_key(other)) && (interface.arp_cache.contains_key(
                other,
            ) ==> after.arp_cache[other] == interface.arp_cache[other])
            &&& !after.pending.contains_key(number)
            &&& other != number ==> (after.pending.contains_key(other)
                <==> interface.pending.contains_key(other)) && (interface.pending.contains_key(
                other,
            ) ==> after.pending[other] == interface.pending[other])
            &&& after.frames_out.len() == before + waited.len() + if asks {
                1int
            } else {
                0
            }
            &&& after.frames_out.take(before) == interface.frames_out
            &&& forall|i: int|
                0 <= i < waited.len() ==> {
                    let sent = #[trigger] after.frames_out[before + i];
                    &&& sent.header.dst == message.sender_ethernet_address
                    &&& sent.header.src == interface.ethernet_address
                    &&& sent.header.ethertype == 0x0800
                    &&& sent.payload == datagram_bytes(waited[i])
                }
            &&& asks ==> {
                let reply = after.frames_out.last();
                &&& reply.header.dst == message.sender_ethernet_address
                &&& reply.header.src == interface.ethernet_address
                &&& reply.header.ethertype == 0x0806
                &&& arp_rejection(reply.payload) is None
                &&& arp_parsed(reply.payload).operation == ArpOperation::Reply
                &&& arp_parsed(reply.payload).sender_ethernet_address == interface.ethernet_address
                &&& arp_parsed(reply.payload).sender_ip_address == interface.ip_address.0
                &&& arp_parsed(reply.payload).target_ethernet_address
                    == message.sender_ethernet_address
                &&& arp_parsed(reply.payload).target_ip_address == message.sender_ip_address
                &&& reply.payload.len() == 28
            }
            &&& after.datagrams_in == interface.datagrams_in
            &&& after.ethernet_address == interface.ethernet_address
            &&& after.ip_address == interface.ip_address
        }),
{
    lemma_everyone(frame.header.dst);
    law_arp_round_trip(message, trailing);
    let after = interface.after_frame(frame);
    let answer = ArpMessage {
        operation: ArpOperation::Reply,
        sender_ethernet_address: interface.ethernet_address,
        sender_ip_address: interface.ip_address.0,
        target_ethernet_address: message.sender_ethernet_address,
        target_ip_address: message.sender_ip_address,
    };
    law_arp_round_trip(answer, Seq::empty());
    assert(arp_bytes(answer) + Seq::<u8>::empty() =~= arp_bytes(answer));
    assert(interface.heard(frame) == Some(message));
    assert(after.frames_out.take(interface.frames_out.len() as int) =~= interface.frames_out);
}

/// Which frames do nothing: those for others, those of another type, and those
/// whose ARP message is none.
pub proof fn law_which_frames_do_nothing(interface: InterfaceView, frame: FrameView)
    requires
        ({
            ||| frame.header.dst != interface.ethernet_address && frame.header.dst.0@ != seq![
                0xffu8,
                0xff,
                0xff,
                0xff,
                0xff,
                0xff,
            ]
            ||| frame.header.ethertype != 0x0800 && frame.header.ethertype != 0x0806
            ||| frame.header.ethertype == 0x0806 && arp_rejection(frame.payload) is Some
            ||| frame.header.ethertype == 0x0800 && ipv4_rejection(frame.payload) is Some
        }),
    ensures
        interface.after_frame(frame) == interface,
{
    lemma_everyone(frame.header.dst);
}

/// What time does: everything learned and everything that waits grows older by it.
/// What was learned is forgotten at an age of 30 seconds, and what waits is
/// dropped, all of it, at an age of 5 seconds. Nothing goes out or comes in.
pub proof fn law_what_time_does(interface: InterfaceView, ms: u64, ip: u32)
    ensures
        ({
            let after = interface.after_tick(ms);
            &&& after.arp_cache.contains_key(ip) <==> interface.arp_cache.contains_key(ip)
                && interface.arp_cache[ip].age_ms + ms < 30000
            &&& after.arp_cache.contains_key(ip) ==> {
                &&& after.arp_cache[ip].ethernet_address
                    == interface.arp_cache[ip].ethernet_address
                &&& after.arp_cache[ip].age_ms == interface.arp_cache[ip].age_ms + ms
            }
            &&& after.pending.contains_key(ip) <==> interface.pending.contains_key(ip)
                && interface.pending[ip].age_ms + ms < 5000
            &&& after.pending.contains_key(ip) ==> {
                &&& after.pending[ip].datagrams == interface.pending[ip].datagrams
                &&& after.pending[ip].age_ms == interface.pending[ip].age_ms + ms
                &&& interface.pending[ip].request_age_ms + ms <= u64::MAX
                    ==> after.pending[ip].request_age_ms == interface.pending[ip].request_age_ms
                    + ms
            }
            &&& after == (InterfaceView {
                arp_cache: after.arp_cache,
                pending: after.pending,
                ..interface
            })
        }),
{
}

/// What is known of an address is what is in the cache for its number, which is
/// made of its four bytes.
pub proof fn law_what_is_known(interface: InterfaceView, ip: Ipv4AddrBytes)
    ensures
        address_number(ip) == ip.0[0] * 0x100_0000 + ip.0[1] * 0x1_0000 + ip.0[2] * 0x100
            + ip.0[3],
        interface.known(ip) is Some <==> interface.arp_cache.contains_key(address_number(ip)),
        interface.known(ip) matches Some(found) ==> found == interface.arp_cache[address_number(
            ip,
        )].ethernet_address,
{
}

/// Learning an address by hand is like learning it from a message: it is known
/// from then on, what waited for it goes out to it in order, and what is known of
/// others, and waits for them, stays.
pub proof fn law_what_learning_does(
    interface: InterfaceView,
    ip: Ipv4AddrBytes,
    ethernet_address: EthernetAddress,
    other: u32,
)
    ensures
        ({
            let after = interface.after_learning(ip, ethernet_address);
            let number = address_number(ip);
            let waited = if interface.pending.contains_key(number) {
                interface.pending[number].datagrams
            } else {
                Seq::empty()
            };
            let before = interface.frames_out.len() as int;
            &&& after.arp_cache.contains_key(number)
            &&& after.arp_cache[number].ethernet_address == ethernet_address
            &&& after.arp_cache[number].age_ms == 0
            &&& !after.pending.contains_key(number)
            &&& other != number ==> {
                &&& after.arp_cache.contains_key(other) <==> interface.arp_cache.contains_key(other)
                &&& interface.arp_cache.contains_key(other) ==> after.arp_cache[other]
                    == interface.arp_cache[other]
                &&& after.pending.contains_key(other) <==> interface.pending.contains_key(other)
                &&& interface.pending.contains_key(other) ==> after.pending[other]
                    == interface.pending[other]
            }
            &&& after.frames_out.len() == before + waited.len()
            &&& after.frames_out.take(before) == interface.frames_out
            &&& forall|i: int|
                0 <= i < waited.len() ==> {
                    let sent = #[trigger] after.frames_out[before + i];
                    &&& sent.header.dst == ethernet_address
                    &&& sent.header.src == interface.ethernet_address
                    &&& sent.header.ethertype == 0x0800
                    &&& sent.payload == datagram_bytes(waited[i])
                }
            &&& after.datagrams_in == interface.datagrams_in
            &&& after.ethernet_address == interface.ethernet_address
            &&& after.ip_address == interface.ip_address
        }),
{
    let after = interface.after_learning(ip, ethernet_address);
    assert(after.frames_out.take(interface.frames_out.len() as int) =~= interface.frames_out);
}

/// What datagrams and frames hold is told one by one.
pub proof fn law_one_by_one(
    datagrams: Seq<Ipv4Datagram>,
    frames: Seq<EthernetFrame>,
    i: int,
    j: int,
)
    requires
        0 <= i < datagrams.len(),
        0 <= j < frames.len(),
    ensures
        datagram_views(datagrams).len() == datagrams.len(),
        datagram_views(datagrams)[i] == datagrams[i]@,
        frame_views(frames).len() == frames.len(),
        frame_views(frames)[j] == frames[j]@,
{
}

/// Which frames can be taken in: all but those with an ARP message from an address
/// for which a datagram waits that is too long to be sent.
pub proof fn law_which_frames_can_be_taken_in(
    interface: InterfaceView,
    frame: FrameView,
    message: ArpMessage,
)
    requires
        interface.heard(frame) == Some(message),
        forall|i: int|
            interface.pending.contains_key(
                address_number(Ipv4AddrBytes(message.sender_ip_address)),
            ) && 0 <= i < interface.pending[address_number(
                Ipv4AddrBytes(message.sender_ip_address),
            )].datagrams.len() ==> (#[trigger] interface.pending[address_number(
                Ipv4AddrBytes(message.sender_ip_address),
            )].datagrams[i]).payload.len() <= 65515,
    ensures
        interface.waiting_for(Ipv4AddrBytes(message.sender_ip_address)).all_fit(),
{
}

} // verus!
