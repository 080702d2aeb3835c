//! The stack as a whole: its tables, the link-level protocol registry, the
//! input queue and the dispatch of received frames.
use vstd::prelude::*;

use crate::device::{Device, FAMILY_IP};
use crate::icmp::IcmpDrop;
use crate::ip::{
    ip_handler, ip_input_malformed, ip_input_spec, loopback_spec, IpAddr, IpDrop, IpIface,
    IpProtocol, IpRoute, TxError,
};

verus! {

pub const PROTOCOL_TYPE_IP: u16 = 0x0800;

pub const PROTOCOL_TYPE_ARP: u16 = 0x0806;

pub const PROTOCOL_TYPE_IPV6: u16 = 0x86dd;

/// Who handles frames of a link-level protocol type.
#[derive(Clone, Copy, Debug, PartialEq, Eq, Structural)]
pub enum ProtocolHandler {
    /// The IP layer of this stack.
    Ip,
    /// A handler of the application, known by its number; frames for it are
    /// handed back to the application as events.
    Application(u32),
}

#[derive(Clone, Copy, Debug, PartialEq, Eq, Structural)]
pub struct NetProtocol {
    pub ty: u16,
    pub handler: ProtocolHandler,
}

/// What happened while received frames were handled, in order.
#[derive(Debug)]
pub enum Event {
    /// A frame went to the application's handler `handler`.
    NetDelivered { handler: u32, ty: u16, dev: usize, data: Vec<u8> },
    /// The IP layer dropped a packet received on device `dev`.
    IpDropped { dev: usize, reason: IpDrop },
    /// The IP layer accepted a packet for this host.
    IpAccepted { src: IpAddr, dst: IpAddr, protocol: u8, total: u16 },
    /// An IP packet's data went to the application's handler `handler`.
    IpDelivered {
        handler: u32,
        protocol: u8,
        iface: usize,
        src: IpAddr,
        dst: IpAddr,
        data: Vec<u8>,
    },
    /// The ICMP layer dropped a message.
    IcmpDropped { reason: IcmpDrop },
    /// The ICMP layer received a message: its type, code, type-dependent
    /// field and the data after its header.
    IcmpReceived { src: IpAddr, dst: IpAddr, ty: u8, code: u8, values: u32, data: Vec<u8> },
    /// A packet the stack sent in reply could not be sent.
    OutputFailed { reason: TxError },
}

/// The content of an event.
pub enum EventV {
    NetDelivered { handler: u32, ty: u16, dev: usize, data: Seq<u8> },
    IpDropped { dev: usize, reason: IpDrop },
    IpAccepted { src: IpAddr, dst: IpAddr, protocol: u8, total: u16 },
    IpDelivered {
        handler: u32,
        protocol: u8,
        iface: usize,
        src: IpAddr,
        dst: IpAddr,
        data: Seq<u8>,
    },
    IcmpDropped { reason: IcmpDrop },
    IcmpReceived { src: IpAddr, dst: IpAddr, ty: u8, code: u8, values: u32, data: Seq<u8> },
    OutputFailed { reason: TxError },
}

impl View for Event {
    type V = EventV;

    open spec fn view(&self) -> EventV {
        match self {
            Event::NetDelivered { handler, ty, dev, data } => EventV::NetDelivered {
                handler: *handler,
                ty: *ty,
                dev: *dev,
                data: data@,
            },
            Event::IpDropped { dev, reason } => EventV::IpDropped { dev: *dev, reason: *reason },
            Event::IpAccepted { src, dst, protocol, total } => EventV::IpAccepted {
                src: *src,
                dst: *dst,
                protocol: *protocol,
                total: *total,
            },
            Event::IpDelivered { handler, protocol, iface, src, dst, data } => EventV::IpDelivered {
                handler: *handler,
                protocol: *protocol,
                iface: *iface,
                src: *src,
                dst: *dst,
                data: data@,
            },
            Event::IcmpDropped { reason } => EventV::IcmpDropped { reason: *reason },
            Event::IcmpReceived { src, dst, ty, code, values, data } => EventV::IcmpReceived {
                src: *src,
                dst: *dst,
                ty: *ty,
                code: *code,
                values: *values,
                data: data@,
            },
            Event::OutputFailed { reason } => EventV::OutputFailed { reason: *reason },
        }
    }
}

/// The tables of a stack, which handling frames reads but does not change.
pub struct Tables {
    pub devices: Seq<Device>,
    pub protocols: Seq<NetProtocol>,
    pub ip_protocols: Seq<IpProtocol>,
    pub ifaces: Seq<IpIface>,
    pub routes: Seq<IpRoute>,
}

/// Interfaces sit on existing devices, routes use existing interfaces, and
/// the IP links of devices point at existing interfaces.
pub open spec fn tables_wf(t: Tables) -> bool {
    &&& forall|i: int| 0 <= i < t.ifaces.len() ==> #[trigger] t.ifaces[i].dev < t.devices.len()
    &&& forall|i: int| 0 <= i < t.routes.len() ==> #[trigger] t.routes[i].iface < t.ifaces.len()
    &&& forall|d: int, k: int|
        0 <= d < t.devices.len() && 0 <= k < t.devices[d].ifaces@.len()
            && #[trigger] t.devices[d].ifaces@[k].family == FAMILY_IP
            ==> t.devices[d].ifaces@[k].iface < t.ifaces.len()
}

impl Tables {
    /// The IP interface at position `i`.
    pub open spec fn iface_at(&self, i: usize) -> IpIface {
        self.ifaces[i as int]
    }

    /// The device at position `i`.
    pub open spec fn device_at(&self, i: usize) -> Device {
        self.devices[i as int]
    }
}

/// A received frame waiting in the input queue.
pub struct InputEntry {
    pub ty: u16,
    pub data: Vec<u8>,
    pub dev: usize,
}

/// The content of a queued frame.
pub struct Frame {
    pub ty: u16,
    pub data: Seq<u8>,
    pub dev: usize,
}

impl View for InputEntry {
    type V = Frame;

    open spec fn view(&self) -> Frame {
        Frame { ty: self.ty, data: self.data@, dev: self.dev }
    }
}

/// All the state of the stack: devices, protocol registries, the input
/// queue, the IP interfaces and routes, and the identification of the next
/// IP packet sent.
pub struct NetStack {
    pub devices: Vec<Device>,
    pub protocols: Vec<NetProtocol>,
    pub queue: Vec<InputEntry>,
    pub ip_protocols: Vec<IpProtocol>,
    pub ifaces: Vec<IpIface>,
    pub routes: Vec<IpRoute>,
    pub next_id: u16,
}

/// Position of the first registration of link-level type `ty`.
pub open spec fn find_protocol(protocols: Seq<NetProtocol>, ty: u16) -> Option<int>
    decreases protocols.len(),
{
    if protocols.len() == 0 {
        None
    } else {
        match find_protocol(protocols.drop_last(), ty) {
            Some(j) => Some(j),
            None => if protocols.last().ty == ty {
                Some(protocols.len() - 1)
            } else {
                None
            },
        }
    }
}

pub proof fn lemma_find_protocol(protocols: Seq<NetProtocol>, ty: u16)
    ensures
        match find_protocol(protocols, ty) {
            Some(j) => 0 <= j < protocols.len() && protocols[j].ty == ty && forall|k: int|
                0 <= k < j ==> protocols[k].ty != ty,
            None => forall|k: int| 0 <= k < protocols.len() ==> protocols[k].ty != ty,
        },
    decreases protocols.len(),
{
    if protocols.len() > 0 {
        let init = protocols.drop_last();
        lemma_find_protocol(init, ty);
        assert(forall|k: int| 0 <= k < init.len() ==> init[k] == protocols[k]);
    }
}

/// The handler registered for link-level type `ty`.
pub open spec fn net_handler(protocols: Seq<NetProtocol>, ty: u16) -> Option<ProtocolHandler> {
    match find_protocol(protocols, ty) {
        Some(j) => Some(protocols[j].handler),
        None => None,
    }
}

impl NetStack {
    pub open spec fn tables(&self) -> Tables {
        Tables {
            devices: self.devices@,
            protocols: self.protocols@,
            ip_protocols: self.ip_protocols@,
            ifaces: self.ifaces@,
            routes: self.routes@,
        }
    }

    /// The tables refer to each other consistently: interfaces to devices,
    /// routes to interfaces, device links of the IP family to interfaces, and
    /// queued frames to devices.
    pub open spec fn wf(&self) -> bool {
        &&& forall|i: int| 0 <= i < self.ifaces@.len() ==> #[trigger] self.ifaces@[i].dev
            < self.devices@.len()
        &&& forall|i: int| 0 <= i < self.routes@.len() ==> #[trigger] self.routes@[i].iface
            < self.ifaces@.len()
        &&& forall|d: int, k: int|
            0 <= d < self.devices@.len() && 0 <= k < self.devices@[d].ifaces@.len()
                && #[trigger] self.devices@[d].ifaces@[k].family == FAMILY_IP
                ==> self.devices@[d].ifaces@[k].iface < self.ifaces@.len()
        &&& forall|q: int| 0 <= q < self.queue@.len() ==> #[trigger] self.queue@[q].dev
            < self.devices@.len()
    }

    /// A well-formed stack has well-formed tables.
    pub proof fn lemma_wf_tables(&self)
        requires
            self.wf(),
        ensures
            tables_wf(self.tables()),
    {
        let t = self.tables();
        assert forall|d: int, k: int|
            0 <= d < t.devices.len() && 0 <= k < t.devices[d].ifaces@.len()
                && #[trigger] t.devices[d].ifaces@[k].family == FAMILY_IP implies t.devices[d].ifaces@[k].iface
            < t.ifaces.len() by {
            assert(self.devices@[d].ifaces@[k].family == FAMILY_IP);
        }
    }

    /// An empty stack; IP packets are numbered from `first_id` on.
    pub fn new(first_id: u16) -> (s: NetStack)
        ensures
            s.wf(),
            s.devices@.len() == 0,
            s.protocols@.len() == 0,
            s.queue@.len() == 0,
            s.ip_protocols@.len() == 0,
            s.ifaces@.len() == 0,
            s.routes@.len() == 0,
            s.next_id == first_id,
    {
        NetStack {
            devices: Vec::new(),
            protocols: Vec::new(),
            queue: Vec::new(),
            ip_protocols: Vec::new(),
            ifaces: Vec::new(),
            routes: Vec::new(),
            next_id: first_id,
        }
    }
}

/// Registers the handler of a link-level protocol type; a type can be
/// registered once.
pub fn register_protocol(stack: &mut NetStack, ty: u16, handler: ProtocolHandler) -> (r: Result<
    (),
    (),
>)
    ensures
        r is Err <==> net_handler(old(stack).protocols@, ty) is Some,
        r is Ok ==> final(stack).protocols@ == old(stack).protocols@.push(
            NetProtocol { ty, handler },
        ),
        r is Err ==> final(stack).protocols@ == old(stack).protocols@,
        final(stack).devices@ == old(stack).devices@,
        final(stack).queue@ == old(stack).queue@,
        final(stack).ip_protocols@ == old(stack).ip_protocols@,
        final(stack).ifaces@ == old(stack).ifaces@,
        final(stack).routes@ == old(stack).routes@,
        final(stack).next_id == old(stack).next_id,
{
    proof {
        lemma_find_protocol(stack.protocols@, ty);
    }
    let n = stack.protocols.len();
    for i in 0..n
        invariant
            n == stack.protocols@.len(),
            stack.protocols@ == old(stack).protocols@,
            forall|k: int| 0 <= k < i ==> stack.protocols@[k].ty != ty,
    {
        if stack.protocols[i].ty == ty {
            proof {
                lemma_find_protocol(stack.protocols@, ty);
                assert(stack.protocols@[i as int].ty == ty);
            }
            return Err(());
        }
    }
    stack.protocols.push(NetProtocol { ty, handler });
    Ok(())
}

/// The handler registered for link-level type `ty`.
pub fn find_net_handler(stack: &NetStack, ty: u16) -> (r: Option<ProtocolHandler>)
    ensures
        r == net_handler(stack.protocols@, ty),
{
    proof {
        lemma_find_protocol(stack.protocols@, ty);
    }
    let n = stack.protocols.len();
    for i in 0..n
        invariant
            n == stack.protocols@.len(),
            forall|k: int| 0 <= k < i ==> stack.protocols@[k].ty != ty,
            match find_protocol(stack.protocols@, ty) {
                Some(j) => 0 <= j < stack.protocols@.len() && stack.protocols@[j].ty == ty
                    && forall|k: int| 0 <= k < j ==> stack.protocols@[k].ty != ty,
                None => forall|k: int|
                    0 <= k < stack.protocols@.len() ==> stack.protocols@[k].ty != ty,
            },
    {
        if stack.protocols[i].ty == ty {
            return Some(stack.protocols[i].handler);
        }
    }
    None
}

/// What the loopback driver does with a frame it transmits: it comes back
/// as a received frame, queued when a handler is registered for its type.
pub fn loopback_frame(stack: &NetStack, ty: u16, data: Vec<u8>, dev: usize) -> (r: Option<
    InputEntry,
>)
    ensures
        match r {
            Some(e) => loopback_spec(stack.tables(), ty, data@, dev) == Some(e@) && e.dev == dev,
            None => loopback_spec(stack.tables(), ty, data@, dev) is None,
        },
{
    match find_net_handler(stack, ty) {
        Some(_) => Some(InputEntry { ty, data, dev }),
        None => None,
    }
}

// --- handling received frames ---
/// What handling one queued frame comes to: the events, the frame it puts
/// back into the queue (a reply over a loopback device), and the next IP
/// identification.
pub open spec fn step_spec(t: Tables, f: Frame, id: u16) -> (Seq<EventV>, Option<Frame>, u16) {
    match net_handler(t.protocols, f.ty) {
        None => (Seq::<EventV>::empty(), None, id),
        Some(ProtocolHandler::Application(h)) => (
            seq![EventV::NetDelivered { handler: h, ty: f.ty, dev: f.dev, data: f.data }],
            None,
            id,
        ),
        Some(ProtocolHandler::Ip) => ip_input_spec(t, f.data, f.dev, id),
    }
}

/// A frame the IP layer would accept although its total length is shorter
/// than its header; the handlers cannot cut such a packet.
pub open spec fn frame_malformed(t: Tables, f: Frame) -> bool {
    net_handler(t.protocols, f.ty) == Some(ProtocolHandler::Ip) && ip_input_malformed(
        t,
        f.data,
        f.dev,
    )
}

/// The tables alone make handling frames end: either no type is handled by
/// the IP layer, or IP protocol 1 (ICMP) has a handler, so that an ICMP
/// message that is not an Echo Request draws no reply. Then handling any
/// handleable queue ends (`lemma_handling_ends_by_tables`).
pub open spec fn dispatch_terminates(t: Tables) -> bool {
    (forall|k: int| 0 <= k < t.protocols.len() ==> t.protocols[k].handler != ProtocolHandler::Ip)
        || ip_handler(t.ip_protocols, crate::ip::IP_PROTOCOL_ICMP) is Some
}

/// An IPv4 packet with a plain 20-byte header carrying an ICMP message that is
/// not an Echo Request: every reply the stack sends looks like this.
pub open spec fn reply_like(d: Seq<u8>) -> bool {
    d.len() > 20 && d[0] == 0x45 && d[9] == crate::ip::IP_PROTOCOL_ICMP && d[20]
        != crate::icmp::ICMP_TYPE_ECHO
}

/// Frames handled before the queue is empty, counting one more for a frame
/// that may still draw a reply.
pub open spec fn frame_pot(f: Frame) -> nat {
    if reply_like(f.data) {
        1
    } else {
        2
    }
}

pub open spec fn queue_pot(q: Seq<Frame>) -> nat
    decreases q.len(),
{
    if q.len() == 0 {
        0
    } else {
        queue_pot(q.drop_last()) + frame_pot(q.last())
    }
}

pub proof fn lemma_queue_pot_first(q: Seq<Frame>)
    requires
        q.len() > 0,
    ensures
        queue_pot(q) == frame_pot(q[0]) + queue_pot(q.drop_first()),
    decreases q.len(),
{
    if q.len() > 1 {
        lemma_queue_pot_first(q.drop_last());
        assert(q.drop_last().drop_first() =~= q.drop_first().drop_last());
    } else {
        assert(q.drop_first() =~= Seq::<Frame>::empty());
        assert(q.drop_last() =~= Seq::<Frame>::empty());
    }
}

/// A reply-like frame draws no reply of its own.
pub proof fn lemma_reply_like_quiet(t: Tables, f: Frame, id: u16)
    requires
        dispatch_terminates(t),
        reply_like(f.data),
        !frame_malformed(t, f),
    ensures
        step_spec(t, f, id).1 is None,
{
    let d = f.data;
    if net_handler(t.protocols, f.ty) == Some(ProtocolHandler::Ip) {
        lemma_find_protocol(t.protocols, f.ty);
        let j = find_protocol(t.protocols, f.ty)->0;
        assert(t.protocols[j].handler == ProtocolHandler::Ip);
        assert(ip_handler(t.ip_protocols, crate::ip::IP_PROTOCOL_ICMP) is Some);
        assert(crate::ip::hdr_hlen(d) == 20);
        let payload = crate::ip::ip_payload(d);
        if crate::ip::ip_check(d) is None && crate::ip::ip_target(t, d, f.dev) is Some
            && payload.len() >= 8 {
            assert(crate::ip::hdr_total(d) >= 20);
            assert(payload[0] == d[20]);
        }
    }
}

/// A reply the stack queues is reply-like, comes from a registered device, and
/// can be cut into header and data.
pub proof fn lemma_child_shape(t: Tables, f: Frame, id: u16)
    requires
        tables_wf(t),
        f.dev < t.devices.len(),
        step_spec(t, f, id).1 is Some,
    ensures
        ({
            let c = step_spec(t, f, id).1->0;
            &&& reply_like(c.data)
            &&& c.dev < t.devices.len()
            &&& !frame_malformed(t, c)
        }),
{
    let d = f.data;
    assert(net_handler(t.protocols, f.ty) == Some(ProtocolHandler::Ip));
    assert(crate::ip::ip_check(d) is None);
    let idx = crate::ip::ip_target(t, d, f.dev)->0;
    crate::device::lemma_first_link(t.device_at(f.dev).ifaces@, FAMILY_IP);
    let iface = t.iface_at(idx);
    let src = crate::ip::hdr_src(d);
    let m = match ip_handler(t.ip_protocols, d[9]) {
        Some(crate::ip::ProtocolHandler::Icmp) => crate::icmp::icmp_input_spec(
            crate::ip::ip_payload(d),
            src,
            crate::ip::hdr_dst(d),
            iface.unicast,
        ).1->0,
        _ => crate::icmp::IcmpMsgV {
            ty: crate::icmp::ICMP_TYPE_DEST_UNREACH,
            code: crate::icmp::ICMP_CODE_PROTO_UNREACH,
            values: 0,
            data: crate::ip::ip_quote(d),
            src: iface.unicast,
            dst: src,
        },
    };
    assert(step_spec(t, f, id).1 == crate::ip::send_message_spec(t, m, id).1);
    assert(m.ty == 0 || m.ty == 3);
    lemma_sent_reply_shape(t, m, id);
}

/// A message of type 0 or 3 that the stack sends comes back, if at all, as a
/// reply-like frame from a registered device, with total length covering its
/// 20-byte header.
proof fn lemma_sent_reply_shape(t: Tables, m: crate::icmp::IcmpMsgV, id: u16)
    requires
        tables_wf(t),
        m.ty == 0 || m.ty == 3,
    ensures
        crate::ip::send_message_spec(t, m, id).1 matches Some(c) ==> {
            &&& reply_like(c.data)
            &&& c.dev < t.devices.len()
            &&& crate::ip::hdr_total(c.data) >= crate::ip::hdr_hlen(c.data)
        },
{
    let pkt = crate::icmp::icmp_message_spec(m.ty, m.code, m.values, m.data);
    let (res, id2) = crate::ip::ip_output_spec(t, crate::ip::IP_PROTOCOL_ICMP, pkt, m.src, m.dst, id);
    if let Ok((dv, p)) = res {
        lemma_best_route_in_table(t, m.dst);
        let j = crate::ip::best_route(t.routes, m.dst)->0;
        let s = if m.src == IpAddr::spec_any() {
            t.iface_at(t.routes[j].iface).unicast
        } else {
            m.src
        };
        assert(p == crate::ip::ip_packet_spec(crate::ip::IP_PROTOCOL_ICMP, pkt, s, m.dst, id));
        crate::ip::lemma_packet_reads_back(crate::ip::IP_PROTOCOL_ICMP, pkt, s, m.dst, id);
        assert(pkt[0] == m.ty);
        assert(p[20] == pkt[0]);
        assert(p[0] == 0x45);
    }
}

proof fn lemma_best_route_in_table(t: Tables, dst: IpAddr)
    ensures
        crate::ip::best_route(t.routes, dst) matches Some(j) ==> 0 <= j < t.routes.len(),
{
    crate::ip::lemma_best_route(t.routes, dst);
}

/// The queue after its first frame was handled: the rest, and the reply the
/// frame drew if any.
pub open spec fn queue_after(q: Seq<Frame>, child: Option<Frame>) -> Seq<Frame> {
    match child {
        Some(c) => q.drop_first().push(c),
        None => q.drop_first(),
    }
}

/// Queued frames come from registered devices and can be handled.
pub open spec fn queue_ok(t: Tables, q: Seq<Frame>) -> bool {
    forall|i: int| 0 <= i < q.len() ==> #[trigger] q[i].dev < t.devices.len() && !frame_malformed(t, q[i])
}

/// Handling the first frame keeps the queue handleable.
pub proof fn lemma_queue_ok_step(t: Tables, q: Seq<Frame>, id: u16)
    requires
        tables_wf(t),
        queue_ok(t, q),
        q.len() > 0,
    ensures
        queue_ok(t, queue_after(q, step_spec(t, q[0], id).1)),
{
    let f = q[0];
    assert(f.dev < t.devices.len() && !frame_malformed(t, f));
    let child = step_spec(t, f, id).1;
    let rest = queue_after(q, child);
    match child {
        Some(c) => {
            lemma_child_shape(t, f, id);
            assert(rest.last() == c);
            assert forall|i: int| 0 <= i < rest.len() implies #[trigger] rest[i].dev < t.devices.len()
                && !frame_malformed(t, rest[i]) by {
                if i < rest.len() - 1 {
                    assert(rest[i] == q[i + 1]);
                }
            }
        },
        None => {
            assert forall|i: int| 0 <= i < rest.len() implies #[trigger] rest[i].dev < t.devices.len()
                && !frame_malformed(t, rest[i]) by {
                assert(rest[i] == q[i + 1]);
            }
        },
    }
}

/// When the tables make every reply quiet, handling the first frame lowers
/// the queue's count.
pub proof fn lemma_drain_step(t: Tables, q: Seq<Frame>, id: u16)
    requires
        tables_wf(t),
        dispatch_terminates(t),
        queue_ok(t, q),
        q.len() > 0,
    ensures
        queue_pot(queue_after(q, step_spec(t, q[0], id).1)) < queue_pot(q),
{
    let f = q[0];
    assert(f.dev < t.devices.len() && !frame_malformed(t, f));
    lemma_queue_pot_first(q);
    let child = step_spec(t, f, id).1;
    let rest = queue_after(q, child);
    if let Some(c) = child {
        if reply_like(f.data) {
            lemma_reply_like_quiet(t, f, id);
        }
        lemma_child_shape(t, f, id);
        assert(rest.drop_last() =~= q.drop_first());
        assert(rest.last() == c);
    }
}

/// Handling the queued frames, and every reply they draw, in order, for at
/// most `fuel` frames: all the events and the next IP identification, or None
/// if frames are still queued after that many.
pub open spec fn drain_fuel(t: Tables, q: Seq<Frame>, id: u16, fuel: nat) -> Option<(Seq<EventV>, u16)>
    decreases fuel,
{
    if q.len() == 0 {
        Some((Seq::<EventV>::empty(), id))
    } else if fuel == 0 {
        None
    } else {
        let (ev, child, id2) = step_spec(t, q[0], id);
        match drain_fuel(t, queue_after(q, child), id2, (fuel - 1) as nat) {
            Some((ev2, id3)) => Some((ev + ev2, id3)),
            None => None,
        }
    }
}

/// Handling the queued frames comes to an end: the queue is empty after some
/// number of frames were handled. (It does not when a reply draws a reply in
/// turn for ever, as a Destination Unreachable sent over a loopback device
/// to a stack without a handler for ICMP.)
pub open spec fn handling_ends(t: Tables, q: Seq<Frame>, id: u16) -> bool {
    exists|n: nat| (#[trigger] drain_fuel(t, q, id, n)) is Some
}

/// Handling every queued frame, and every reply they draw, in order: all the
/// events, and the next IP identification (when handling ends).
pub open spec fn drain_spec(t: Tables, q: Seq<Frame>, id: u16) -> (Seq<EventV>, u16) {
    drain_fuel(t, q, id, choose|n: nat| (#[trigger] drain_fuel(t, q, id, n)) is Some)->0
}

/// More fuel gives the same outcome.
pub proof fn lemma_drain_fuel_more(t: Tables, q: Seq<Frame>, id: u16, n: nat, m: nat)
    requires
        drain_fuel(t, q, id, n) is Some,
        n <= m,
    ensures
        drain_fuel(t, q, id, m) == drain_fuel(t, q, id, n),
    decreases n,
{
    if q.len() > 0 {
        let (ev, child, id2) = step_spec(t, q[0], id);
        lemma_drain_fuel_more(t, queue_after(q, child), id2, (n - 1) as nat, (m - 1) as nat);
    }
}

/// Handling that ends with `n` frames comes to `drain_spec`.
pub proof fn lemma_drain_spec_is(t: Tables, q: Seq<Frame>, id: u16, n: nat)
    requires
        drain_fuel(t, q, id, n) is Some,
    ensures
        handling_ends(t, q, id),
        drain_spec(t, q, id) == drain_fuel(t, q, id, n)->0,
{
    let k = choose|k: nat| (#[trigger] drain_fuel(t, q, id, k)) is Some;
    if k <= n {
        lemma_drain_fuel_more(t, q, id, k, n);
    } else {
        lemma_drain_fuel_more(t, q, id, n, k);
    }
}

/// When the tables make every reply quiet (`dispatch_terminates`), handling
/// any handleable queue ends.
pub proof fn lemma_handling_ends_by_tables(t: Tables, q: Seq<Frame>, id: u16)
    requires
        tables_wf(t),
        dispatch_terminates(t),
        queue_ok(t, q),
    ensures
        drain_fuel(t, q, id, queue_pot(q)) is Some,
        handling_ends(t, q, id),
    decreases queue_pot(q),
{
    if q.len() > 0 {
        lemma_queue_pot_first(q);
        lemma_drain_step(t, q, id);
        lemma_queue_ok_step(t, q, id);
        let (ev, child, id2) = step_spec(t, q[0], id);
        let rest = queue_after(q, child);
        lemma_handling_ends_by_tables(t, rest, id2);
        lemma_drain_fuel_more(t, rest, id2, queue_pot(rest), (queue_pot(q) - 1) as nat);
    }
}

/// The events of a run of handling, as their contents.
pub open spec fn events_view(events: Seq<Event>) -> Seq<EventV> {
    events.map_values(|e: Event| e@)
}

/// The frames of the input queue, as their contents.
pub open spec fn queue_view(queue: Seq<InputEntry>) -> Seq<Frame> {
    queue.map_values(|e: InputEntry| e@)
}

/// Handles one queued frame: hands it to the handler registered for its type.
fn dispatch(stack: &NetStack, entry: &InputEntry, id: u16) -> (r: (Vec<Event>, Option<InputEntry>, u16))
    requires
        stack.wf(),
        entry.dev < stack.devices@.len(),
        !frame_malformed(stack.tables(), entry@),
    ensures
        ({
            let (ev, child, id2) = step_spec(stack.tables(), entry@, id);
            &&& events_view(r.0@) == ev
            &&& r.2 == id2
            &&& match r.1 {
                Some(c) => child == Some(c@),
                None => child is None,
            }
        }),
{
    match find_net_handler(stack, entry.ty) {
        None => {
            let events: Vec<Event> = Vec::new();
            assert(events_view(events@) =~= Seq::<EventV>::empty());
            (events, None, id)
        },
        Some(ProtocolHandler::Application(h)) => {
            let mut events: Vec<Event> = Vec::new();
            events.push(
                Event::NetDelivered {
                    handler: h,
                    ty: entry.ty,
                    dev: entry.dev,
                    data: vstd::slice::slice_to_vec(entry.data.as_slice()),
                },
            );
            assert(events_view(events@) =~= step_spec(stack.tables(), entry@, id).0);
            (events, None, id)
        },
        Some(ProtocolHandler::Ip) => crate::ip::input(stack, entry.data.as_slice(), entry.dev, id),
    }
}

/// Handles queued frames until the queue is empty, including the replies they
/// put back into it; returns what happened.
pub fn softirq_handler(stack: &mut NetStack) -> (events: Vec<Event>)
    requires
        old(stack).wf(),
        queue_ok(old(stack).tables(), queue_view(old(stack).queue@)),
        handling_ends(old(stack).tables(), queue_view(old(stack).queue@), old(stack).next_id),
    ensures
        final(stack).wf(),
        final(stack).tables() == old(stack).tables(),
        final(stack).queue@.len() == 0,
        (events_view(events@), final(stack).next_id) == drain_spec(
            old(stack).tables(),
            queue_view(old(stack).queue@),
            old(stack).next_id,
        ),
{
    let ghost t = stack.tables();
    let ghost q0 = queue_view(stack.queue@);
    let ghost id0 = stack.next_id;
    let ghost mut fuel: nat = choose|n: nat| (#[trigger] drain_fuel(t, q0, id0, n)) is Some;
    proof {
        stack.lemma_wf_tables();
        assert(events_view(Seq::<Event>::empty()) =~= Seq::<EventV>::empty());
        let r0 = drain_fuel(t, q0, id0, fuel)->0;
        assert(Seq::<EventV>::empty() + r0.0 =~= r0.0);
    }
    let mut events: Vec<Event> = Vec::new();
    while stack.queue.len() > 0
        invariant
            stack.wf(),
            stack.tables() == t,
            tables_wf(t),
            queue_ok(t, queue_view(stack.queue@)),
            drain_fuel(t, queue_view(stack.queue@), stack.next_id, fuel) is Some,
            drain_spec(t, q0, id0) == ({
                let rest = drain_fuel(t, queue_view(stack.queue@), stack.next_id, fuel)->0;
                (events_view(events@) + rest.0, rest.1)
            }),
        decreases fuel,
    {
        let ghost q = queue_view(stack.queue@);
        let ghost evs = events_view(events@);
        let ghost idb = stack.next_id;
        proof {
            lemma_queue_ok_step(t, q, idb);
        }
        let entry = stack.queue.remove(0);
        assert(queue_view(stack.queue@) =~= q.drop_first());
        assert(entry@ == q[0]);
        let (mut ev, child, id2) = dispatch(&*stack, &entry, stack.next_id);
        let ghost evv = events_view(ev@);
        events.append(&mut ev);
        assert(events_view(events@) =~= evs + evv);
        match child {
            Some(c) => {
                proof {
                    lemma_child_shape(t, q[0], idb);
                }
                stack.queue.push(c);
            },
            None => {},
        }
        stack.next_id = id2;
        assert(queue_view(stack.queue@) =~= queue_after(q, step_spec(t, q[0], idb).1));
        proof {
            let rest = drain_fuel(t, queue_view(stack.queue@), id2, (fuel - 1) as nat)->0;
            assert(evs + (evv + rest.0) =~= (evs + evv) + rest.0);
            fuel = (fuel - 1) as nat;
        }
    }
    proof {
        assert(queue_view(stack.queue@) =~= Seq::<Frame>::empty());
        assert(events_view(events@) + Seq::<EventV>::empty() =~= events_view(events@));
    }
    events
}

/// What receiving a frame of type `ty` on device `dev` comes to, given the
/// tables, the queued frames and the next IP identification: the events (None
/// when the device is not registered), the queue after, the next
/// identification. A frame of a type nobody handles is dropped unseen;
/// otherwise it is queued and the queue is handled until empty.
pub open spec fn receive_outcome(t: Tables, q: Seq<Frame>, ty: u16, data: Seq<u8>, dev: usize, id: u16) -> (
    Option<Seq<EventV>>,
    Seq<Frame>,
    u16,
) {
    if net_handler(t.protocols, ty) is None {
        (Some(Seq::<EventV>::empty()), q, id)
    } else if dev >= t.devices.len() {
        (None, q, id)
    } else {
        let (ev, id2) = drain_spec(t, q.push(Frame { ty, data, dev }), id);
        (Some(ev), Seq::<Frame>::empty(), id2)
    }
}

/// Receiving the frame can be done: a frame that is queued can be cut into
/// header and data, and handling the queue with it comes to an end.
pub open spec fn receive_ok(t: Tables, q: Seq<Frame>, ty: u16, data: Seq<u8>, dev: usize, id: u16) -> bool {
    net_handler(t.protocols, ty) is Some && dev < t.devices.len() ==> {
        &&& !frame_malformed(t, Frame { ty, data, dev })
        &&& handling_ends(t, q.push(Frame { ty, data, dev }), id)
    }
}

/// Receives a frame of type `ty` from device `dev` (what a driver calls):
/// queues it if its type has a handler, then handles the queue.
pub fn input_handler(stack: &mut NetStack, ty: u16, data: &[u8], dev: usize) -> (r: Result<
    Vec<Event>,
    (),
>)
    requires
        old(stack).wf(),
        queue_ok(old(stack).tables(), queue_view(old(stack).queue@)),
        receive_ok(
            old(stack).tables(),
            queue_view(old(stack).queue@),
            ty,
            data@,
            dev,
            old(stack).next_id,
        ),
    ensures
        final(stack).wf(),
        final(stack).tables() == old(stack).tables(),
        ({
            let (ev, q, id) = receive_outcome(
                old(stack).tables(),
                queue_view(old(stack).queue@),
                ty,
                data@,
                dev,
                old(stack).next_id,
            );
            &&& match r {
                Ok(evs) => ev == Some(events_view(evs@)),
                Err(()) => ev is None,
            }
            &&& queue_view(final(stack).queue@) == q
            &&& final(stack).next_id == id
        }),
{
    if find_net_handler(stack, ty).is_none() {
        let events: Vec<Event> = Vec::new();
        assert(events_view(events@) =~= Seq::<EventV>::empty());
        return Ok(events);
    }
    if dev >= stack.devices.len() {
        return Err(());
    }
    let ghost q0 = queue_view(stack.queue@);
    stack.queue.push(InputEntry { ty, data: vstd::slice::slice_to_vec(data), dev });
    assert(queue_view(stack.queue@) =~= q0.push(Frame { ty, data: data@, dev }));
    let events = softirq_handler(stack);
    assert(queue_view(stack.queue@) =~= Seq::<Frame>::empty());
    Ok(events)
}

/// What receiving the frame did, from stack `before` to stack `after` with
/// result `r`: the tables are unchanged, and the result, the queue and the
/// next identification are those of `receive_outcome`.
pub open spec fn received_as(
    before: NetStack,
    after: NetStack,
    r: Result<Vec<Event>, ()>,
    ty: u16,
    data: Seq<u8>,
    dev: usize,
) -> bool {
    let (ev, q, id) = receive_outcome(
        before.tables(),
        queue_view(before.queue@),
        ty,
        data,
        dev,
        before.next_id,
    );
    &&& after.wf()
    &&& after.tables() == before.tables()
    &&& match r {
        Ok(evs) => ev == Some(events_view(evs@)),
        Err(()) => ev is None,
    }
    &&& queue_view(after.queue@) == q
    &&& after.next_id == id
}

/// Initializes the protocol layers: the IP layer for type 0x0800, then ICMP
/// for IP protocol 1; stops at the first that is already registered.
pub fn init(stack: &mut NetStack) -> (r: Result<(), ()>)
    ensures
        r is Ok <==> net_handler(old(stack).protocols@, PROTOCOL_TYPE_IP) is None && ip_handler(
            old(stack).ip_protocols@,
            crate::ip::IP_PROTOCOL_ICMP,
        ) is None,
        net_handler(old(stack).protocols@, PROTOCOL_TYPE_IP) is None ==> final(stack).protocols@
            == old(stack).protocols@.push(NetProtocol { ty: PROTOCOL_TYPE_IP, handler: ProtocolHandler::Ip }),
        net_handler(old(stack).protocols@, PROTOCOL_TYPE_IP) is Some ==> final(stack).protocols@
            == old(stack).protocols@,
        r is Ok ==> final(stack).ip_protocols@ == old(stack).ip_protocols@.push(
            IpProtocol {
                protocol: crate::ip::IP_PROTOCOL_ICMP,
                handler: crate::ip::ProtocolHandler::Icmp,
            },
        ),
        r is Err ==> final(stack).ip_protocols@ == old(stack).ip_protocols@,
        r is Ok ==> dispatch_terminates(final(stack).tables()),
        dispatch_terminates(old(stack).tables()) ==> dispatch_terminates(final(stack).tables()),
        final(stack).devices@ == old(stack).devices@,
        final(stack).queue@ == old(stack).queue@,
        final(stack).ifaces@ == old(stack).ifaces@,
        final(stack).routes@ == old(stack).routes@,
        final(stack).next_id == old(stack).next_id,
{
    if crate::ip::init(stack).is_err() {
        return Err(());
    }
    crate::icmp::init(stack)
}

/// Brings every registered device up, in order; stops at the first device
/// that fails (one already up), leaving the devices before it up.
pub fn run(stack: &mut NetStack) -> (r: Result<(), ()>)
    requires
        old(stack).wf(),
    ensures
        final(stack).wf(),
        final(stack).devices@.len() == old(stack).devices@.len(),
        r is Ok <==> forall|i: int|
            0 <= i < old(stack).devices@.len() ==> !old(stack).devices@[i].spec_is_up(),
        forall|i: int|
            #![trigger final(stack).devices@[i]]
            0 <= i < old(stack).devices@.len() ==> {
                &&& final(stack).devices@[i].same_identity(&old(stack).devices@[i])
                &&& final(stack).devices@[i].ifaces@ == old(stack).devices@[i].ifaces@
                &&& if forall|k: int| 0 <= k <= i ==> !old(stack).devices@[k].spec_is_up() {
                    final(stack).devices@[i].flags == old(stack).devices@[i].flags | crate::device::FLAG_UP
                } else {
                    final(stack).devices@[i].flags == old(stack).devices@[i].flags
                }
            },
        final(stack).protocols@ == old(stack).protocols@,
        final(stack).queue@ == old(stack).queue@,
        final(stack).ip_protocols@ == old(stack).ip_protocols@,
        final(stack).ifaces@ == old(stack).ifaces@,
        final(stack).routes@ == old(stack).routes@,
        final(stack).next_id == old(stack).next_id,
{
    let n = stack.devices.len();
    for i in 0..n
        invariant
            n == old(stack).devices@.len(),
            stack.devices@.len() == n,
            forall|k: int| 0 <= k < i ==> !old(stack).devices@[k].spec_is_up(),
            forall|k: int|
                #![trigger stack.devices@[k]]
                0 <= k < n ==> {
                    &&& stack.devices@[k].same_identity(&old(stack).devices@[k])
                    &&& stack.devices@[k].ifaces@ == old(stack).devices@[k].ifaces@
                    &&& if k < i {
                        stack.devices@[k].flags == old(stack).devices@[k].flags | crate::device::FLAG_UP
                    } else {
                        stack.devices@[k].flags == old(stack).devices@[k].flags
                    }
                },
            stack.protocols@ == old(stack).protocols@,
            stack.queue@ == old(stack).queue@,
            stack.ip_protocols@ == old(stack).ip_protocols@,
            stack.ifaces@ == old(stack).ifaces@,
            stack.routes@ == old(stack).routes@,
            stack.next_id == old(stack).next_id,
            old(stack).wf(),
    {
        if stack.devices[i].open().is_err() {
            proof {
                assert(old(stack).devices@[i as int].spec_is_up());
                lemma_devices_keep_links(*old(stack), *stack);
            }
            return Err(());
        }
    }
    proof {
        lemma_devices_keep_links(*old(stack), *stack);
    }
    Ok(())
}

/// Takes every registered device down; a device that is already down stays
/// as it is.
pub fn shutdown(stack: &mut NetStack)
    requires
        old(stack).wf(),
    ensures
        final(stack).wf(),
        final(stack).devices@.len() == old(stack).devices@.len(),
        forall|i: int|
            #![trigger final(stack).devices@[i]]
            0 <= i < old(stack).devices@.len() ==> {
                &&& final(stack).devices@[i].same_identity(&old(stack).devices@[i])
                &&& final(stack).devices@[i].ifaces@ == old(stack).devices@[i].ifaces@
                &&& final(stack).devices@[i].flags == old(stack).devices@[i].flags
                    & !crate::device::FLAG_UP
            },
        final(stack).protocols@ == old(stack).protocols@,
        final(stack).queue@ == old(stack).queue@,
        final(stack).ip_protocols@ == old(stack).ip_protocols@,
        final(stack).ifaces@ == old(stack).ifaces@,
        final(stack).routes@ == old(stack).routes@,
        final(stack).next_id == old(stack).next_id,
{
    let n = stack.devices.len();
    for i in 0..n
        invariant
            n == old(stack).devices@.len(),
            stack.devices@.len() == n,
            forall|k: int|
                #![trigger stack.devices@[k]]
                0 <= k < n ==> {
                    &&& stack.devices@[k].same_identity(&old(stack).devices@[k])
                    &&& stack.devices@[k].ifaces@ == old(stack).devices@[k].ifaces@
                    &&& if k < i {
                        stack.devices@[k].flags == old(stack).devices@[k].flags
                            & !crate::device::FLAG_UP
                    } else {
                        stack.devices@[k].flags == old(stack).devices@[k].flags
                    }
                },
            stack.protocols@ == old(stack).protocols@,
            stack.queue@ == old(stack).queue@,
            stack.ip_protocols@ == old(stack).ip_protocols@,
            stack.ifaces@ == old(stack).ifaces@,
            stack.routes@ == old(stack).routes@,
            stack.next_id == old(stack).next_id,
            old(stack).wf(),
    {
        let ghost before = stack.devices@[i as int].flags;
        let res = stack.devices[i].close();
        proof {
            lemma_clear_up_when_down(before);
        }
        let _ = res;
    }
    proof {
        lemma_devices_keep_links(*old(stack), *stack);
    }
}

proof fn lemma_clear_up_when_down(flags: u16)
    ensures
        flags & crate::device::FLAG_UP == 0 ==> flags & !crate::device::FLAG_UP == flags,
{
    assert(flags & 1u16 == 0 ==> flags & !1u16 == flags) by (bit_vector);
}

/// Changing only device flags keeps the stack well formed.
proof fn lemma_devices_keep_links(a: NetStack, b: NetStack)
    requires
        a.wf(),
        b.devices@.len() == a.devices@.len(),
        forall|k: int|
            #![trigger b.devices@[k]]
            0 <= k < a.devices@.len() ==> b.devices@[k].ifaces@ == a.devices@[k].ifaces@,
        b.ifaces@ == a.ifaces@,
        b.routes@ == a.routes@,
        b.queue@ == a.queue@,
    ensures
        b.wf(),
{
    assert forall|d: int, k: int|
        0 <= d < b.devices@.len() && 0 <= k < b.devices@[d].ifaces@.len()
            && #[trigger] b.devices@[d].ifaces@[k].family == FAMILY_IP implies b.devices@[d].ifaces@[k].iface
        < b.ifaces@.len() by {
        assert(b.devices@[d].ifaces@ == a.devices@[d].ifaces@);
        assert(a.devices@[d].ifaces@[k].family == FAMILY_IP);
    }
}

/// Whether the tables alone make handling frames end, whatever is queued
/// (`dispatch_terminates`, see `lemma_handling_ends_by_tables`).
pub fn handling_terminates(stack: &NetStack) -> (r: bool)
    ensures
        r == dispatch_terminates(stack.tables()),
{
    let mut has_ip = false;
    let n = stack.protocols.len();
    for i in 0..n
        invariant
            n == stack.protocols@.len(),
            has_ip == exists|k: int| 0 <= k < i && stack.protocols@[k].handler == ProtocolHandler::Ip,
    {
        if stack.protocols[i].handler == ProtocolHandler::Ip {
            has_ip = true;
        }
    }
    let icmp_known = crate::ip::handler_of(stack, crate::ip::IP_PROTOCOL_ICMP).is_some();
    !has_ip || icmp_known
}

/// Whether a frame can be handed to `input_handler`: it is not a packet the IP
/// layer would accept with a total length shorter than its header.
pub fn frame_ok(stack: &NetStack, ty: u16, data: &[u8], dev: usize) -> (r: bool)
    requires
        stack.wf(),
    ensures
        dev < stack.devices@.len() ==> r == !frame_malformed(
            stack.tables(),
            Frame { ty, data: data@, dev },
        ),
        dev >= stack.devices@.len() ==> r,
{
    if dev >= stack.devices.len() {
        return true;
    }
    match find_net_handler(stack, ty) {
        Some(ProtocolHandler::Ip) => !crate::ip::is_malformed(stack, data, dev),
        _ => true,
    }
}

/// The tables hold a working local address `u`: IP and ICMP are registered,
/// the route for `u` goes over an interface whose unicast address is `u`, that
/// interface is the IP interface of its device, and the device is up with an
/// MTU that takes `len` more bytes after the IP and ICMP headers.
pub open spec fn local_address_ready(t: Tables, u: IpAddr, len: nat) -> bool {
    &&& net_handler(t.protocols, PROTOCOL_TYPE_IP) == Some(ProtocolHandler::Ip)
    &&& ip_handler(t.ip_protocols, crate::ip::IP_PROTOCOL_ICMP) == Some(
        crate::ip::ProtocolHandler::Icmp,
    )
    &&& u != IpAddr::spec_any()
    &&& crate::ip::best_route(t.routes, u) matches Some(j) && {
        let idx = t.routes[j].iface;
        let iface = t.iface_at(idx);
        let dev = t.device_at(iface.dev);
        &&& iface.unicast == u
        &&& dev.spec_is_up()
        &&& 28 + len <= dev.mtu
        &&& crate::device::first_link(dev.ifaces@, FAMILY_IP) matches Some(k) && dev.ifaces@[k].iface
            == idx
    }
}

/// The total length of an IP packet carrying an Echo message with `len` bytes
/// of data.
pub open spec fn echo_packet_len(len: nat) -> u16 {
    (28 + len) as u16
}

/// Ping over a loopback device: an Echo Request sent from a local address to
/// itself is received, answered, and the Echo Reply, with the same
/// identifier, sequence number and data, is received in turn; nothing is left
/// in the queue and two identifications are used.
pub proof fn lemma_ping_over_loopback(t: Tables, u: IpAddr, values: u32, data: Seq<u8>, id: u16)
    requires
        tables_wf(t),
        local_address_ready(t, u, data.len()),
    ensures
        ({
            let total = echo_packet_len(data.len());
            crate::ip::send_outcome(
                t,
                Seq::<Frame>::empty(),
                crate::ip::IP_PROTOCOL_ICMP,
                crate::icmp::icmp_message_spec(crate::icmp::ICMP_TYPE_ECHO, 0, values, data),
                u,
                u,
                id,
            ) == (
                Some(
                    seq![
                        EventV::IpAccepted { src: u, dst: u, protocol: crate::ip::IP_PROTOCOL_ICMP, total },
                        EventV::IcmpReceived { src: u, dst: u, ty: crate::icmp::ICMP_TYPE_ECHO, code: 0, values, data },
                        EventV::IpAccepted { src: u, dst: u, protocol: crate::ip::IP_PROTOCOL_ICMP, total },
                        EventV::IcmpReceived { src: u, dst: u, ty: crate::icmp::ICMP_TYPE_ECHO_REPLY, code: 0, values, data },
                    ],
                ),
                Seq::<Frame>::empty(),
                crate::ip::next_id(crate::ip::next_id(id)),
            )
        }),
{
    let j = crate::ip::best_route(t.routes, u)->0;
    crate::ip::lemma_best_route(t.routes, u);
    let idx = t.routes[j].iface;
    let iface = t.iface_at(idx);
    let dv = iface.dev;
    let dev = t.device_at(dv);
    crate::device::lemma_first_link(dev.ifaces@, FAMILY_IP);
    lemma_find_protocol(t.protocols, PROTOCOL_TYPE_IP);
    // the request
    let req = crate::icmp::icmp_message_spec(crate::icmp::ICMP_TYPE_ECHO, 0, values, data);
    crate::icmp::lemma_message_verifies(crate::icmp::ICMP_TYPE_ECHO, 0, values, data);
    let id1 = crate::ip::next_id(id);
    let p1 = crate::ip::ip_packet_spec(crate::ip::IP_PROTOCOL_ICMP, req, u, u, id);
    crate::ip::lemma_packet_reads_back(crate::ip::IP_PROTOCOL_ICMP, req, u, u, id);
    crate::ip::lemma_built_packet_passes_checks(crate::ip::IP_PROTOCOL_ICMP, req, u, u, id);
    assert(crate::ip::ip_output_spec(t, crate::ip::IP_PROTOCOL_ICMP, req, u, u, id) == (
        Ok::<(usize, Seq<u8>), crate::ip::TxError>((dv, p1)),
        id1,
    ));
    let f1 = Frame { ty: PROTOCOL_TYPE_IP, data: p1, dev: dv };
    assert(crate::ip::ip_payload(p1) == req);
    assert(crate::ip::ip_target(t, p1, dv) == Some(idx));
    // the reply
    let rep = crate::icmp::icmp_message_spec(crate::icmp::ICMP_TYPE_ECHO_REPLY, 0, values, data);
    crate::icmp::lemma_message_verifies(crate::icmp::ICMP_TYPE_ECHO_REPLY, 0, values, data);
    let id2 = crate::ip::next_id(id1);
    let p2 = crate::ip::ip_packet_spec(crate::ip::IP_PROTOCOL_ICMP, rep, u, u, id1);
    crate::ip::lemma_packet_reads_back(crate::ip::IP_PROTOCOL_ICMP, rep, u, u, id1);
    crate::ip::lemma_built_packet_passes_checks(crate::ip::IP_PROTOCOL_ICMP, rep, u, u, id1);
    assert(crate::ip::ip_output_spec(t, crate::ip::IP_PROTOCOL_ICMP, rep, u, u, id1) == (
        Ok::<(usize, Seq<u8>), crate::ip::TxError>((dv, p2)),
        id2,
    ));
    let f2 = Frame { ty: PROTOCOL_TYPE_IP, data: p2, dev: dv };
    assert(crate::ip::ip_payload(p2) == rep);
    assert(crate::ip::ip_target(t, p2, dv) == Some(idx));
    assert(step_spec(t, f2, id2).1 is None);
    let q1 = seq![f1];
    assert(queue_ok(t, q1));
    assert(queue_after(q1, step_spec(t, f1, id1).1) =~= seq![f2]);
    let q2 = seq![f2];
    assert(queue_ok(t, q2));
    assert(queue_after(q2, step_spec(t, f2, id2).1) =~= Seq::<Frame>::empty());
    assert(Seq::<Frame>::empty().push(f1) =~= q1);
    let total = echo_packet_len(data.len());
    let acc = EventV::IpAccepted { src: u, dst: u, protocol: crate::ip::IP_PROTOCOL_ICMP, total };
    let got_req = EventV::IcmpReceived {
        src: u,
        dst: u,
        ty: crate::icmp::ICMP_TYPE_ECHO,
        code: 0,
        values,
        data,
    };
    let got_rep = EventV::IcmpReceived {
        src: u,
        dst: u,
        ty: crate::icmp::ICMP_TYPE_ECHO_REPLY,
        code: 0,
        values,
        data,
    };
    assert(crate::ip::hdr_total(p1) == total);
    assert(crate::ip::hdr_total(p2) == total);
    assert(step_spec(t, f1, id1).1 == Some(f2));
    assert(step_spec(t, f1, id1).2 == id2);
    assert(step_spec(t, f1, id1).0 =~= seq![acc, got_req]);
    assert(step_spec(t, f2, id2).0 =~= seq![acc, got_rep]);
    assert(step_spec(t, f2, id2).2 == id2);
    assert(queue_ok(t, Seq::<Frame>::empty()));
    assert(drain_fuel(t, Seq::<Frame>::empty(), id2, 0) == Some((Seq::<EventV>::empty(), id2)));
    assert(seq![acc, got_rep] + Seq::<EventV>::empty() =~= seq![acc, got_rep]);
    assert(drain_fuel(t, q2, id2, 1) == Some((seq![acc, got_rep], id2)));
    assert(seq![acc, got_req] + seq![acc, got_rep] =~= seq![acc, got_req, acc, got_rep]);
    assert(drain_fuel(t, q1, id1, 2) == Some((seq![acc, got_req, acc, got_rep], id2)));
    lemma_drain_spec_is(t, q1, id1, 2);
}

} // verus!
