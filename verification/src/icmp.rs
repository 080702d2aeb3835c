//! ICMP: reading messages, answering Echo Requests, building messages.
use vstd::prelude::*;

use crate::ip::{
    be16, ip_handler, output_packet, send_message_spec, send_ok, send_outcome, IpAddr,
    ProtocolHandler, IP_PROTOCOL_ICMP,
};
use crate::net::{
    events_view, loopback_frame, queue_ok, queue_view, InputEntry, NetStack,
    PROTOCOL_TYPE_IP,
};
use crate::net::{Event, EventV};
use crate::util::{
    be32, be32_bytes, cksum16, cksum_spec, extend_bytes, lemma_cksum_field_verifies, lemma_ones_sum_bound,
    ones_sum, push_be32, with_sum, write_sum,
};

verus! {

pub const ICMP_HDR_SIZE: usize = 8;

pub const ICMP_TYPE_ECHO_REPLY: u8 = 0;

pub const ICMP_TYPE_DEST_UNREACH: u8 = 3;

pub const ICMP_TYPE_REDIRECT: u8 = 5;

pub const ICMP_TYPE_ECHO: u8 = 8;

pub const ICMP_TYPE_TIME_EXCEEDED: u8 = 11;

pub const ICMP_CODE_NET_UNREACH: u8 = 0;

pub const ICMP_CODE_HOST_UNREACH: u8 = 1;

pub const ICMP_CODE_PROTO_UNREACH: u8 = 2;

pub const ICMP_CODE_PORT_UNREACH: u8 = 3;

/// A view of the common 8-byte header at the front of an ICMP message.
pub struct IcmpCommon<'a> {
    data: &'a [u8],
}

impl<'a> View for IcmpCommon<'a> {
    type V = Seq<u8>;

    closed spec fn view(&self) -> Seq<u8> {
        self.data@
    }
}

impl<'a> IcmpCommon<'a> {
    #[verifier::type_invariant]
    closed spec fn long_enough(self) -> bool {
        self.data@.len() >= ICMP_HDR_SIZE
    }

    /// The header of `data`, if it is long enough to hold one.
    pub fn new(data: &'a [u8]) -> (r: Option<IcmpCommon<'a>>)
        ensures
            r is Some <==> data@.len() >= ICMP_HDR_SIZE,
            r matches Some(h) ==> h@ == data@,
    {
        if data.len() < ICMP_HDR_SIZE {
            return None;
        }
        Some(IcmpCommon { data })
    }

    pub fn ty(&self) -> (r: u8)
        ensures
            r == self@[0],
    {
        proof {
            use_type_invariant(self);
        }
        self.data[0]
    }

    pub fn code(&self) -> (r: u8)
        ensures
            r == self@[1],
    {
        proof {
            use_type_invariant(self);
        }
        self.data[1]
    }

    pub fn sum(&self) -> (r: u16)
        ensures
            r == be16(self@, 2),
    {
        proof {
            use_type_invariant(self);
        }
        (self.data[2] as u16) * 256 + self.data[3] as u16
    }

    /// The type-dependent field (identifier and sequence number of an Echo).
    pub fn dep(&self) -> (r: u32)
        ensures
            r == be32(self@, 4),
    {
        proof {
            use_type_invariant(self);
        }
        read_be32(self.data, 4)
    }
}

fn read_be32(data: &[u8], i: usize) -> (r: u32)
    requires
        i + 3 < data@.len(),
    ensures
        r == be32(data@, i as int),
{
    (data[i] as u32) * 0x1000000 + (data[i + 1] as u32) * 0x10000 + (data[i + 2] as u32) * 0x100
        + data[i + 3] as u32
}

/// A view of an Echo or Echo Reply message.
pub struct IcmpEcho<'a> {
    data: &'a [u8],
}

impl<'a> View for IcmpEcho<'a> {
    type V = Seq<u8>;

    closed spec fn view(&self) -> Seq<u8> {
        self.data@
    }
}

impl<'a> IcmpEcho<'a> {
    #[verifier::type_invariant]
    closed spec fn long_enough(self) -> bool {
        self.data@.len() >= ICMP_HDR_SIZE
    }

    pub fn new(data: &'a [u8]) -> (r: Option<IcmpEcho<'a>>)
        ensures
            r is Some <==> data@.len() >= ICMP_HDR_SIZE,
            r matches Some(h) ==> h@ == data@,
    {
        if data.len() < ICMP_HDR_SIZE {
            return None;
        }
        Some(IcmpEcho { data })
    }

    pub fn id(&self) -> (r: u16)
        ensures
            r == be16(self@, 4),
    {
        proof {
            use_type_invariant(self);
        }
        (self.data[4] as u16) * 256 + self.data[5] as u16
    }

    pub fn seq(&self) -> (r: u16)
        ensures
            r == be16(self@, 6),
    {
        proof {
            use_type_invariant(self);
        }
        (self.data[6] as u16) * 256 + self.data[7] as u16
    }
}

/// The name of a message type.
pub open spec fn type_name_spec(ty: u8) -> Seq<char> {
    if ty == ICMP_TYPE_ECHO_REPLY {
        "EchoReply"@
    } else if ty == ICMP_TYPE_DEST_UNREACH {
        "DestinationUnreachable"@
    } else if ty == ICMP_TYPE_REDIRECT {
        "Redirect"@
    } else if ty == ICMP_TYPE_ECHO {
        "Echo"@
    } else if ty == ICMP_TYPE_TIME_EXCEEDED {
        "TimeExceeded"@
    } else {
        "Unknown"@
    }
}

pub fn icmp_type_name(ty: u8) -> (r: &'static str)
    ensures
        r@ == type_name_spec(ty),
{
    if ty == ICMP_TYPE_ECHO_REPLY {
        "EchoReply"
    } else if ty == ICMP_TYPE_DEST_UNREACH {
        "DestinationUnreachable"
    } else if ty == ICMP_TYPE_REDIRECT {
        "Redirect"
    } else if ty == ICMP_TYPE_ECHO {
        "Echo"
    } else if ty == ICMP_TYPE_TIME_EXCEEDED {
        "TimeExceeded"
    } else {
        "Unknown"
    }
}

/// An ICMP message to be sent.
pub struct IcmpMsg {
    pub ty: u8,
    pub code: u8,
    pub values: u32,
    pub data: Vec<u8>,
    pub src: IpAddr,
    pub dst: IpAddr,
}

/// The content of an ICMP message to be sent.
pub struct IcmpMsgV {
    pub ty: u8,
    pub code: u8,
    pub values: u32,
    pub data: Seq<u8>,
    pub src: IpAddr,
    pub dst: IpAddr,
}

impl View for IcmpMsg {
    type V = IcmpMsgV;

    open spec fn view(&self) -> IcmpMsgV {
        IcmpMsgV {
            ty: self.ty,
            code: self.code,
            values: self.values,
            data: self.data@,
            src: self.src,
            dst: self.dst,
        }
    }
}

/// The message bytes before the checksum: type, code, a zero checksum, the
/// type-dependent field in big-endian order, then the data.
pub open spec fn icmp_unsummed(ty: u8, code: u8, values: u32, data: Seq<u8>) -> Seq<u8> {
    seq![ty, code, 0u8, 0u8] + be32_bytes(values) + data
}

/// The message bytes, checksum included.
pub open spec fn icmp_message_spec(ty: u8, code: u8, values: u32, data: Seq<u8>) -> Seq<u8> {
    with_sum(icmp_unsummed(ty, code, values, data), 2)
}

/// The checksum of the message can be summed without overflow.
pub open spec fn icmp_sum_fits(ty: u8, code: u8, values: u32, data: Seq<u8>) -> bool {
    ones_sum(icmp_unsummed(ty, code, values, data)) <= u32::MAX
}

/// Builds the bytes of a message.
pub fn build_message(ty: u8, code: u8, values: u32, data: &[u8]) -> (r: Vec<u8>)
    requires
        icmp_sum_fits(ty, code, values, data@),
    ensures
        r@ == icmp_message_spec(ty, code, values, data@),
{
    let mut buf: Vec<u8> = Vec::new();
    buf.push(ty);
    buf.push(code);
    buf.push(0);
    buf.push(0);
    push_be32(&mut buf, values);
    extend_bytes(&mut buf, data);
    assert(buf@ =~= icmp_unsummed(ty, code, values, data@));
    write_sum(&mut buf, 2);
    buf
}

/// Why a received message was dropped.
#[derive(Clone, Copy, Debug, PartialEq, Eq, Structural)]
pub enum IcmpDrop {
    TooShort,
    ChecksumError,
}

/// What the ICMP layer does with a received message `payload` that came
/// from `src` to `dst` on an interface with address `unicast`: the events it
/// reports and the reply it sends, if any (an Echo Reply to an Echo Request,
/// with the same identifier, sequence number and data).
pub open spec fn icmp_input_spec(payload: Seq<u8>, src: IpAddr, dst: IpAddr, unicast: IpAddr) -> (
    Seq<EventV>,
    Option<IcmpMsgV>,
) {
    if payload.len() < ICMP_HDR_SIZE {
        (seq![EventV::IcmpDropped { reason: IcmpDrop::TooShort }], None)
    } else if cksum_spec(payload, 0) != 0 {
        (seq![EventV::IcmpDropped { reason: IcmpDrop::ChecksumError }], None)
    } else {
        let ev = EventV::IcmpReceived {
            src,
            dst,
            ty: payload[0],
            code: payload[1],
            values: be32(payload, 4),
            data: payload.skip(8),
        };
        if payload[0] == ICMP_TYPE_ECHO {
            (
                seq![ev],
                Some(
                    IcmpMsgV {
                        ty: ICMP_TYPE_ECHO_REPLY,
                        code: 0,
                        values: be32(payload, 4),
                        data: payload.skip(8),
                        src: unicast,
                        dst: src,
                    },
                ),
            )
        } else {
            (seq![ev], None)
        }
    }
}

/// The ICMP input handler for a message of at most 65535 bytes.
pub fn input(payload: &[u8], src: IpAddr, dst: IpAddr, unicast: IpAddr) -> (r: (
    Vec<Event>,
    Option<IcmpMsg>,
))
    requires
        payload@.len() <= 0xffff,
    ensures
        r.0@.map_values(|e: Event| e@) == icmp_input_spec(payload@, src, dst, unicast).0,
        match r.1 {
            Some(m) => icmp_input_spec(payload@, src, dst, unicast).1 == Some(m@),
            None => icmp_input_spec(payload@, src, dst, unicast).1 is None,
        },
{
    let mut events: Vec<Event> = Vec::new();
    if payload.len() < ICMP_HDR_SIZE {
        events.push(Event::IcmpDropped { reason: IcmpDrop::TooShort });
        assert(events@.map_values(|e: Event| e@) =~= icmp_input_spec(payload@, src, dst, unicast).0);
        return (events, None);
    }
    proof {
        lemma_ones_sum_bound(payload@);
        assert(0xffff * payload@.len() <= 0xffff * 0xffff) by (nonlinear_arith)
            requires
                payload@.len() <= 0xffff,
        ;
    }
    if cksum16(payload, 0) != 0 {
        events.push(Event::IcmpDropped { reason: IcmpDrop::ChecksumError });
        assert(events@.map_values(|e: Event| e@) =~= icmp_input_spec(payload@, src, dst, unicast).0);
        return (events, None);
    }
    let com = IcmpCommon::new(payload).unwrap();
    let ty = com.ty();
    let values = com.dep();
    let body = vstd::slice::slice_subrange(payload, ICMP_HDR_SIZE, payload.len());
    events.push(
        Event::IcmpReceived {
            src,
            dst,
            ty,
            code: com.code(),
            values,
            data: vstd::slice::slice_to_vec(body),
        },
    );
    assert(events@.map_values(|e: Event| e@) =~= icmp_input_spec(payload@, src, dst, unicast).0);
    if ty == ICMP_TYPE_ECHO {
        let reply = IcmpMsg {
            ty: ICMP_TYPE_ECHO_REPLY,
            code: 0,
            values,
            data: vstd::slice::slice_to_vec(body),
            src: unicast,
            dst: src,
        };
        (events, Some(reply))
    } else {
        (events, None)
    }
}

/// The checksum of a message of at most 65535 bytes can be summed in 32 bits.
pub proof fn lemma_message_sum_fits(ty: u8, code: u8, values: u32, data: Seq<u8>)
    requires
        8 + data.len() <= 0xffff,
    ensures
        icmp_sum_fits(ty, code, values, data),
{
    let b = icmp_unsummed(ty, code, values, data);
    lemma_ones_sum_bound(b);
    assert(0xffff * b.len() <= 0xffff * 0xffff) by (nonlinear_arith)
        requires
            b.len() <= 0xffff,
    ;
}

/// Sends an ICMP message from within the stack: builds it, hands it to the IP
/// layer with `id` as identification, and gives back the frame the loopback
/// device queues, the events (a failure to send) and the next identification.
pub fn send_message(stack: &NetStack, m: IcmpMsg, id: u16) -> (r: (
    Vec<Event>,
    Option<InputEntry>,
    u16,
))
    requires
        stack.wf(),
        8 + m.data@.len() <= 0xffff,
    ensures
        ({
            let (ev, child, id2) = send_message_spec(stack.tables(), m@, id);
            &&& r.0@.map_values(|e: Event| e@) == ev
            &&& r.2 == id2
            &&& match r.1 {
                Some(c) => child == Some(c@) && c.dev < stack.devices@.len(),
                None => child is None,
            }
        }),
{
    proof {
        lemma_message_sum_fits(m.ty, m.code, m.values, m.data@);
    }
    let buf = build_message(m.ty, m.code, m.values, m.data.as_slice());
    let (res, id2) = output_packet(stack, IP_PROTOCOL_ICMP, buf.as_slice(), m.src, m.dst, id);
    let mut events: Vec<Event> = Vec::new();
    match res {
        Err(e) => {
            events.push(Event::OutputFailed { reason: e });
            assert(events@.map_values(|e: Event| e@) =~= seq![EventV::OutputFailed { reason: e }]);
            (events, None, id2)
        },
        Ok((d, pkt)) => {
            assert(events@.map_values(|e: Event| e@) =~= Seq::<EventV>::empty());
            let child = loopback_frame(stack, PROTOCOL_TYPE_IP, pkt, d);
            (events, child, id2)
        },
    }
}

/// Sends an ICMP message of type `ty` and code `code`, with type-dependent
/// field `values` and data `data`, from `src` to `dst`; returns the events of
/// handling what comes back over a loopback device.
pub fn output(
    stack: &mut NetStack,
    ty: u8,
    code: u8,
    values: u32,
    data: &[u8],
    src: IpAddr,
    dst: IpAddr,
) -> (r: Result<Vec<Event>, ()>)
    requires
        old(stack).wf(),
        queue_ok(old(stack).tables(), queue_view(old(stack).queue@)),
        icmp_sum_fits(ty, code, values, data@),
        send_ok(
            old(stack).tables(),
            queue_view(old(stack).queue@),
            IP_PROTOCOL_ICMP,
            icmp_message_spec(ty, code, values, data@),
            src,
            dst,
            old(stack).next_id,
        ),
    ensures
        final(stack).wf(),
        final(stack).tables() == old(stack).tables(),
        ({
            let (ev, q, id) = send_outcome(
                old(stack).tables(),
                queue_view(old(stack).queue@),
                IP_PROTOCOL_ICMP,
                icmp_message_spec(ty, code, values, data@),
                src,
                dst,
                old(stack).next_id,
            );
            &&& match r {
                Ok(evs) => ev == Some(events_view(evs@)),
                Err(()) => ev is None,
            }
            &&& queue_view(final(stack).queue@) == q
            &&& final(stack).next_id == id
        }),
{
    let buf = build_message(ty, code, values, data);
    crate::ip::output(stack, IP_PROTOCOL_ICMP, buf.as_slice(), src, dst)
}

/// Registers the ICMP layer as the handler of IP protocol 1.
pub fn init(stack: &mut NetStack) -> (r: Result<(), ()>)
    ensures
        r is Err <==> ip_handler(old(stack).ip_protocols@, IP_PROTOCOL_ICMP) is Some,
        r is Ok ==> final(stack).ip_protocols@ == old(stack).ip_protocols@.push(
            crate::ip::IpProtocol { protocol: IP_PROTOCOL_ICMP, handler: ProtocolHandler::Icmp },
        ),
        r is Err ==> final(stack).ip_protocols@ == old(stack).ip_protocols@,
        ip_handler(final(stack).ip_protocols@, IP_PROTOCOL_ICMP) is Some,
        final(stack).devices@ == old(stack).devices@,
        final(stack).protocols@ == old(stack).protocols@,
        final(stack).queue@ == old(stack).queue@,
        final(stack).ifaces@ == old(stack).ifaces@,
        final(stack).routes@ == old(stack).routes@,
        final(stack).next_id == old(stack).next_id,
{
    let r = crate::ip::register_protocol(stack, IP_PROTOCOL_ICMP, ProtocolHandler::Icmp);
    proof {
        crate::ip::lemma_find_ip_protocol(stack.ip_protocols@, IP_PROTOCOL_ICMP);
        if r is Ok {
            crate::ip::lemma_find_ip_protocol(old(stack).ip_protocols@, IP_PROTOCOL_ICMP);
            assert(stack.ip_protocols@.last().protocol == IP_PROTOCOL_ICMP);
        }
    }
    r
}

/// A message the stack builds reads back and passes the checks of the ICMP
/// input: type, code, type-dependent field and data are those it was built
/// with, and its checksum verifies.
pub proof fn lemma_message_verifies(ty: u8, code: u8, values: u32, data: Seq<u8>)
    ensures
        ({
            let m = icmp_message_spec(ty, code, values, data);
            &&& m.len() == ICMP_HDR_SIZE + data.len()
            &&& m[0] == ty
            &&& m[1] == code
            &&& be32(m, 4) == values
            &&& m.skip(8) == data
            &&& cksum_spec(m, 0) == 0
        }),
{
    let b = icmp_unsummed(ty, code, values, data);
    let m = icmp_message_spec(ty, code, values, data);
    assert(b[2] == 0 && b[3] == 0);
    lemma_cksum_field_verifies(b, 2, 0);
    assert(m.skip(8) =~= data);
    let v = be32_bytes(values);
    assert(m[4] == v[0] && m[5] == v[1] && m[6] == v[2] && m[7] == v[3]);
    crate::util::lemma_be32_bytes(values);
}


/// An Echo Request is answered by an Echo Reply from the unicast address of
/// the receiving interface back to the sender, whatever address the request
/// was sent to (the interface's own, its subnet broadcast, 255.255.255.255),
/// with the request's identifier, sequence number and data; a message that
/// is not an Echo Request is not answered.
pub proof fn lemma_echo_reply(payload: Seq<u8>, src: IpAddr, dst: IpAddr, other_dst: IpAddr, unicast: IpAddr)
    ensures
        icmp_input_spec(payload, src, dst, unicast).1 == icmp_input_spec(
            payload,
            src,
            other_dst,
            unicast,
        ).1,
        icmp_input_spec(payload, src, dst, unicast).1 matches Some(m) ==> {
            &&& payload[0] == ICMP_TYPE_ECHO
            &&& m.ty == ICMP_TYPE_ECHO_REPLY
            &&& m.code == 0
            &&& m.src == unicast
            &&& m.dst == src
            &&& m.values == be32(payload, 4)
            &&& m.data == payload.skip(8)
        },
        payload.len() >= ICMP_HDR_SIZE && payload[0] != ICMP_TYPE_ECHO ==> icmp_input_spec(
            payload,
            src,
            dst,
            unicast,
        ).1 is None,
{
}

} // verus!
