//! IPv4: addresses, header parsing, logical interfaces, routing, and the
//! building of packets.
use vstd::prelude::*;

use crate::device::{Device, IfaceLink, FAMILY_IP};
use crate::icmp::{icmp_input_spec, icmp_message_spec, IcmpMsg, IcmpMsgV, ICMP_CODE_PROTO_UNREACH, ICMP_TYPE_DEST_UNREACH};
use crate::net::{
    events_view, handling_ends, net_handler, queue_ok, queue_view, receive_ok,
    receive_outcome, received_as, tables_wf, Event, EventV, Frame, InputEntry, NetStack, Tables,
    PROTOCOL_TYPE_IP,
};
use crate::util::{
    cksum16, cksum_spec, decimal, digit_char, lemma_cksum_field_verifies, lemma_ones_sum_bound,
    push_char, push_decimal, with_sum,
};
use vstd::string::StringSliceAdditionalSpecFns;

verus! {

pub const IP_ADDR_LEN: usize = 4;

pub const IP_VERSION_IPV4: u8 = 4;

pub const IP_HDR_SIZE_MIN: usize = 20;

pub const IP_HDR_FLAG_MF: u16 = 0x2000;

pub const IP_HDR_FLAG_DF: u16 = 0x4000;

pub const IP_HDR_OFFSET_MASK: u16 = 0x1fff;

pub const IP_PROTOCOL_ICMP: u8 = 1;

pub const IP_PROTOCOL_TCP: u8 = 6;

pub const IP_PROTOCOL_UDP: u8 = 17;

// --- upper-layer protocol registry ---
/// Who handles IP packets of a protocol number.
#[derive(Clone, Copy, Debug, PartialEq, Eq, Structural)]
pub enum ProtocolHandler {
    /// The ICMP layer of this stack.
    Icmp,
    /// A handler of the application, known by its number; packets for it are
    /// handed back to the application as events.
    Application(u32),
}

#[derive(Clone, Copy, Debug, PartialEq, Eq, Structural)]
pub struct IpProtocol {
    pub protocol: u8,
    pub handler: ProtocolHandler,
}

/// Position of the first registration of `protocol`.
pub open spec fn find_ip_protocol(protocols: Seq<IpProtocol>, protocol: u8) -> Option<int>
    decreases protocols.len(),
{
    if protocols.len() == 0 {
        None
    } else {
        match find_ip_protocol(protocols.drop_last(), protocol) {
            Some(j) => Some(j),
            None => if protocols.last().protocol == protocol {
                Some(protocols.len() - 1)
            } else {
                None
            },
        }
    }
}

pub proof fn lemma_find_ip_protocol(protocols: Seq<IpProtocol>, protocol: u8)
    ensures
        match find_ip_protocol(protocols, protocol) {
            Some(j) => 0 <= j < protocols.len() && protocols[j].protocol == protocol
                && forall|k: int| 0 <= k < j ==> protocols[k].protocol != protocol,
            None => forall|k: int| 0 <= k < protocols.len() ==> protocols[k].protocol != protocol,
        },
    decreases protocols.len(),
{
    if protocols.len() > 0 {
        let init = protocols.drop_last();
        lemma_find_ip_protocol(init, protocol);
        assert(forall|k: int| 0 <= k < init.len() ==> init[k] == protocols[k]);
    }
}

/// The handler registered for `protocol`.
pub open spec fn ip_handler(protocols: Seq<IpProtocol>, protocol: u8) -> Option<ProtocolHandler> {
    match find_ip_protocol(protocols, protocol) {
        Some(j) => Some(protocols[j].handler),
        None => None,
    }
}

/// Registers the handler of an IP protocol number; a number can be
/// registered once.
pub fn register_protocol(stack: &mut NetStack, protocol: u8, handler: ProtocolHandler) -> (r:
    Result<(), ()>)
    ensures
        r is Err <==> ip_handler(old(stack).ip_protocols@, protocol) is Some,
        r is Ok ==> final(stack).ip_protocols@ == old(stack).ip_protocols@.push(
            IpProtocol { protocol, handler },
        ),
        r is Err ==> final(stack).ip_protocols@ == old(stack).ip_protocols@,
        final(stack).devices@ == old(stack).devices@,
        final(stack).protocols@ == old(stack).protocols@,
        final(stack).queue@ == old(stack).queue@,
        final(stack).ifaces@ == old(stack).ifaces@,
        final(stack).routes@ == old(stack).routes@,
        final(stack).next_id == old(stack).next_id,
{
    proof {
        lemma_find_ip_protocol(stack.ip_protocols@, protocol);
    }
    let n = stack.ip_protocols.len();
    for i in 0..n
        invariant
            n == stack.ip_protocols@.len(),
            stack.ip_protocols@ == old(stack).ip_protocols@,
            forall|k: int| 0 <= k < i ==> stack.ip_protocols@[k].protocol != protocol,
    {
        if stack.ip_protocols[i].protocol == protocol {
            proof {
                lemma_find_ip_protocol(stack.ip_protocols@, protocol);
                assert(stack.ip_protocols@[i as int].protocol == protocol);
            }
            return Err(());
        }
    }
    stack.ip_protocols.push(IpProtocol { protocol, handler });
    Ok(())
}

/// Why a received packet was dropped.
#[derive(Clone, Copy, Debug, PartialEq, Eq, Structural)]
pub enum IpDrop {
    TooShort,
    NotIpv4,
    HeaderTruncated,
    TotalTruncated,
    ChecksumError,
    Fragmented,
}

/// Why a packet could not be sent.
#[derive(Clone, Copy, Debug, PartialEq, Eq, Structural)]
pub enum TxError {
    /// A broadcast needs an explicit source address.
    BroadcastNeedsSource,
    NoRoute,
    /// Header and data exceed the MTU of the outgoing device.
    TooLongForMtu,
    /// Header and data exceed 65535 bytes.
    PacketTooLong,
    /// The outgoing device refused the packet (it is down).
    DeviceRefused,
}

// --- addresses ---
/// An IPv4 address, most significant octet first.
#[derive(Clone, Copy, Debug)]
pub struct IpAddr(pub [u8; IP_ADDR_LEN]);

impl PartialEq for IpAddr {
    fn eq(&self, other: &Self) -> (r: bool) {
        let r = self.0[0] == other.0[0] && self.0[1] == other.0[1] && self.0[2] == other.0[2]
            && self.0[3] == other.0[3];
        proof {
            if r {
                assert(self.0 =~= other.0);
            }
        }
        r
    }
}

impl Eq for IpAddr {

}

impl vstd::std_specs::cmp::PartialEqSpecImpl for IpAddr {
    open spec fn obeys_eq_spec() -> bool {
        true
    }

    open spec fn eq_spec(&self, other: &Self) -> bool {
        self.0 == other.0
    }
}

/// The address made of four octets.
pub open spec fn ip4(a: u8, b: u8, c: u8, d: u8) -> IpAddr {
    IpAddr([a, b, c, d])
}

impl IpAddr {
    /// 0.0.0.0, the unspecified address.
    pub open spec fn spec_any() -> IpAddr {
        ip4(0, 0, 0, 0)
    }

    /// 255.255.255.255, the limited broadcast address.
    pub open spec fn spec_broadcast() -> IpAddr {
        ip4(255, 255, 255, 255)
    }

    pub fn any() -> (r: IpAddr)
        ensures
            r == IpAddr::spec_any(),
    {
        IpAddr([0, 0, 0, 0])
    }

    pub fn broadcast() -> (r: IpAddr)
        ensures
            r == IpAddr::spec_broadcast(),
    {
        IpAddr([255, 255, 255, 255])
    }
}

/// Whether two addresses are equal (the same as `==`).
pub fn addr_eq(a: IpAddr, b: IpAddr) -> (r: bool)
    ensures
        r == (a == b),
{
    let r = a.0[0] == b.0[0] && a.0[1] == b.0[1] && a.0[2] == b.0[2] && a.0[3] == b.0[3];
    proof {
        if r {
            assert(a.0 =~= b.0);
        }
    }
    r
}

// --- parsing dotted-decimal text ---
/// The pieces of `b` between the dots ("a.b" gives "a" and "b"; an empty
/// text gives one empty piece).
pub open spec fn split_dots(b: Seq<u8>) -> Seq<Seq<u8>>
    decreases b.len(),
{
    if b.len() == 0 {
        seq![Seq::<u8>::empty()]
    } else {
        let p = split_dots(b.drop_last());
        if b.last() == 46 {
            p.push(Seq::<u8>::empty())
        } else {
            p.update(p.len() - 1, p.last().push(b.last()))
        }
    }
}

pub open spec fn is_digit(c: u8) -> bool {
    48 <= c <= 57
}

/// The value of a string of decimal digits.
pub open spec fn digits_value(d: Seq<u8>) -> nat
    decreases d.len(),
{
    if d.len() == 0 {
        0
    } else {
        digits_value(d.drop_last()) * 10 + (d.last() - 48) as nat
    }
}

/// A byte in decimal as `u8::from_str` reads it: an optional `+`, then at
/// least one digit, and a value of at most 255.
/// The digits of a decimal byte: the text without a leading `+`.
pub open spec fn octet_digits(p: Seq<u8>) -> Seq<u8> {
    if p.len() > 0 && p[0] == 43 {
        p.drop_first()
    } else {
        p
    }
}

pub open spec fn parse_octet_spec(p: Seq<u8>) -> Option<u8> {
    let d = octet_digits(p);
    if d.len() > 0 && (forall|i: int| 0 <= i < d.len() ==> is_digit(#[trigger] d[i]))
        && digits_value(d) <= 255 {
        Some(digits_value(d) as u8)
    } else {
        None
    }
}

/// An IPv4 address in dotted-decimal text: exactly four pieces between dots,
/// each a byte in decimal.
pub open spec fn parse_addr_spec(b: Seq<u8>) -> Option<IpAddr> {
    let parts = split_dots(b);
    if parts.len() == 4 && parse_octet_spec(parts[0]) is Some && parse_octet_spec(parts[1]) is Some
        && parse_octet_spec(parts[2]) is Some && parse_octet_spec(parts[3]) is Some {
        Some(
            ip4(
                parse_octet_spec(parts[0])->0,
                parse_octet_spec(parts[1])->0,
                parse_octet_spec(parts[2])->0,
                parse_octet_spec(parts[3])->0,
            ),
        )
    } else {
        None
    }
}

proof fn lemma_digits_value_prefix_le(d: Seq<u8>, j: int)
    requires
        0 <= j <= d.len(),
        forall|i: int| 0 <= i < d.len() ==> is_digit(#[trigger] d[i]),
    ensures
        digits_value(d.subrange(0, j)) <= digits_value(d),
    decreases d.len(),
{
    if j < d.len() {
        let init = d.drop_last();
        assert(forall|i: int| 0 <= i < init.len() ==> init[i] == d[i]);
        lemma_digits_value_prefix_le(init, j);
        assert(init.subrange(0, j) =~= d.subrange(0, j));
    } else {
        assert(d.subrange(0, j) =~= d);
    }
}

fn parse_octet(p: &[u8]) -> (r: Option<u8>)
    ensures
        r == parse_octet_spec(p@),
{
    let start: usize = if p.len() > 0 && p[0] == 43 {
        1
    } else {
        0
    };
    let ghost d = octet_digits(p@);
    assert(d =~= p@.subrange(start as int, p@.len() as int));
    if start >= p.len() {
        return None;
    }
    let mut v: u32 = 0;
    let mut i: usize = start;
    while i < p.len()
        invariant
            start <= i <= p@.len(),
            d =~= p@.subrange(start as int, p@.len() as int),
            d == octet_digits(p@),
            v == digits_value(d.subrange(0, i - start)),
            v <= 255,
            forall|k: int| 0 <= k < i - start ==> is_digit(#[trigger] d[k]),
        decreases p.len() - i,
    {
        let c = p[i];
        assert(d[i - start] == c);
        if c < 48 || c > 57 {
            assert(!is_digit(d[i - start]));
            assert(!(forall|k: int| 0 <= k < d.len() ==> is_digit(#[trigger] d[k])));
            assert(parse_octet_spec(p@) is None);
            return None;
        }
        let ghost pre = d.subrange(0, i - start);
        assert(d.subrange(0, i - start + 1).drop_last() =~= pre);
        v = v * 10 + (c - 48) as u32;
        i = i + 1;
        if v > 255 {
            proof {
                assert(d.subrange(0, i - start).drop_last() =~= pre);
                assert(v == digits_value(d.subrange(0, i - start)));
                if forall|k: int| 0 <= k < d.len() ==> is_digit(#[trigger] d[k]) {
                    lemma_digits_value_prefix_le(d, i - start);
                    assert(digits_value(d) > 255);
                }
                assert(parse_octet_spec(p@) is None);
            }
            return None;
        }
    }
    assert(d.subrange(0, i - start) =~= d);
    Some(v as u8)
}

/// Reads an IPv4 address in dotted-decimal text ("127.0.0.1").
pub fn parse_addr(s: &str) -> (r: Option<IpAddr>)
    ensures
        r == parse_addr_spec(s.spec_bytes()),
{
    let b = s.as_bytes();
    let mut parts: Vec<Vec<u8>> = Vec::new();
    let mut cur: Vec<u8> = Vec::new();
    let n = b.len();
    for i in 0..n
        invariant
            n == b@.len(),
            parts@.map_values(|v: Vec<u8>| v@).push(cur@) =~= split_dots(b@.subrange(0, i as int)),
    {
        let ghost before = parts@.map_values(|v: Vec<u8>| v@).push(cur@);
        assert(b@.subrange(0, i + 1).drop_last() =~= b@.subrange(0, i as int));
        if b[i] == 46 {
            let done = cur;
            cur = Vec::new();
            parts.push(done);
            assert(parts@.map_values(|v: Vec<u8>| v@).push(cur@) =~= before.push(
                Seq::<u8>::empty(),
            ));
        } else {
            cur.push(b[i]);
            assert(parts@.map_values(|v: Vec<u8>| v@).push(cur@) =~= before.update(
                before.len() - 1,
                before.last().push(b@[i as int]),
            ));
        }
    }
    parts.push(cur);
    assert(b@.subrange(0, n as int) =~= b@);
    let ghost all = parts@.map_values(|v: Vec<u8>| v@);
    assert(all =~= split_dots(s.spec_bytes()));
    if parts.len() != 4 {
        return None;
    }
    let o0 = parse_octet(parts[0].as_slice());
    let o1 = parse_octet(parts[1].as_slice());
    let o2 = parse_octet(parts[2].as_slice());
    let o3 = parse_octet(parts[3].as_slice());
    assert(all[0] == parts@[0]@ && all[1] == parts@[1]@ && all[2] == parts@[2]@ && all[3]
        == parts@[3]@);
    match (o0, o1, o2, o3) {
        (Some(a), Some(b1), Some(c), Some(d)) => Some(IpAddr([a, b1, c, d])),
        _ => None,
    }
}

impl core::str::FromStr for IpAddr {
    type Err = ();

    fn from_str(s: &str) -> (r: Result<IpAddr, ()>)
        ensures
            r == (match parse_addr_spec(s.spec_bytes()) {
                Some(a) => Ok::<IpAddr, ()>(a),
                None => Err::<IpAddr, ()>(()),
            }),
    {
        match parse_addr(s) {
            Some(a) => Ok(a),
            None => Err(()),
        }
    }
}

// --- dotted-decimal text of an address ---
/// The dotted-decimal text of `a`: its four octets in decimal, joined by dots.
pub open spec fn addr_text(a: IpAddr) -> Seq<char> {
    decimal(a.0[0] as nat) + seq!['.'] + decimal(a.0[1] as nat) + seq!['.'] + decimal(
        a.0[2] as nat,
    ) + seq!['.'] + decimal(a.0[3] as nat)
}

/// The text of an endpoint: the address, a colon and the port in decimal.
pub open spec fn endp_text(e: IpEndp) -> Seq<char> {
    addr_text(e.addr) + seq![':'] + decimal(e.port as nat)
}

/// The bytes of an ASCII text, one per character.
pub open spec fn ascii_bytes(s: Seq<char>) -> Seq<u8> {
    Seq::new(s.len(), |i: int| s[i] as u8)
}

proof fn lemma_ascii_bytes_concat(x: Seq<char>, y: Seq<char>)
    ensures
        ascii_bytes(x + y) =~= ascii_bytes(x) + ascii_bytes(y),
{
}

/// The decimal text of `n` is ASCII digits that read back as `n`.
proof fn lemma_decimal_reads_back(n: nat)
    ensures
        decimal(n).len() > 0,
        vstd::utf8::is_ascii_chars(decimal(n)),
        forall|i: int| 0 <= i < decimal(n).len() ==> is_digit(#[trigger] ascii_bytes(decimal(n))[i]),
        digits_value(ascii_bytes(decimal(n))) == n,
    decreases n,
{
    let d = (n % 10) as nat;
    assert(digit_char(d) as u8 == 48 + d);
    if n >= 10 {
        lemma_decimal_reads_back(n / 10);
        let p = decimal(n / 10);
        let x = ascii_bytes(decimal(n));
        assert(x =~= ascii_bytes(p).push((48 + d) as u8));
        assert(x.drop_last() =~= ascii_bytes(p));
        assert(x.last() == 48 + d);
        assert(digits_value(x) == digits_value(ascii_bytes(p)) * 10 + d);
        assert(n == (n / 10) * 10 + d);
    } else {
        let x = ascii_bytes(decimal(n));
        assert(x.drop_last() =~= Seq::<u8>::empty());
        assert(x.last() == 48 + d);
        assert(digits_value(x) == digits_value(x.drop_last()) * 10 + d);
    }
}

proof fn lemma_split_dots_nonempty(b: Seq<u8>)
    ensures
        split_dots(b).len() >= 1,
    decreases b.len(),
{
    if b.len() > 0 {
        lemma_split_dots_nonempty(b.drop_last());
    }
}

/// Bytes without a dot extend the last piece.
proof fn lemma_split_dots_append(b: Seq<u8>, c: Seq<u8>)
    requires
        forall|i: int| 0 <= i < c.len() ==> #[trigger] c[i] != 46,
    ensures
        ({
            let p = split_dots(b);
            split_dots(b + c) == p.update(p.len() - 1, p.last() + c)
        }),
    decreases c.len(),
{
    lemma_split_dots_nonempty(b);
    let p = split_dots(b);
    if c.len() == 0 {
        assert(b + c =~= b);
        assert(p.update(p.len() - 1, p.last() + c) =~= p);
    } else {
        let c0 = c.drop_last();
        lemma_split_dots_append(b, c0);
        assert((b + c).drop_last() =~= b + c0);
        assert((b + c).last() == c.last());
        let p1 = p.update(p.len() - 1, p.last() + c0);
        assert(p1.last().push(c.last()) =~= p.last() + c);
        assert(p1.update(p1.len() - 1, p1.last().push(c.last())) =~= p.update(
            p.len() - 1,
            p.last() + c,
        ));
    }
}

/// A dot and then bytes without a dot add one piece.
proof fn lemma_split_dots_piece(b: Seq<u8>, c: Seq<u8>)
    requires
        forall|i: int| 0 <= i < c.len() ==> #[trigger] c[i] != 46,
    ensures
        split_dots(b + seq![46u8] + c) == split_dots(b).push(c),
{
    let b1 = b + seq![46u8];
    assert(b1.drop_last() =~= b);
    assert(split_dots(b1) == split_dots(b).push(Seq::<u8>::empty()));
    lemma_split_dots_append(b1, c);
    let p = split_dots(b1);
    assert(p.update(p.len() - 1, p.last() + c) =~= split_dots(b).push(c));
}

/// The bytes of the decimal text of an octet hold no dot and read back as it.
proof fn lemma_octet_text(o: u8)
    ensures
        forall|i: int| 0 <= i < ascii_bytes(decimal(o as nat)).len() ==> #[trigger] ascii_bytes(
            decimal(o as nat),
        )[i] != 46,
        parse_octet_spec(ascii_bytes(decimal(o as nat))) == Some(o),
{
    lemma_decimal_reads_back(o as nat);
    let d = ascii_bytes(decimal(o as nat));
    assert(is_digit(d[0]));
    assert(octet_digits(d) == d);
}

/// Printing an address and reading the text back gives the address.
pub proof fn lemma_text_parses_back(a: IpAddr)
    ensures
        vstd::utf8::is_ascii_chars(addr_text(a)),
        parse_addr_spec(vstd::utf8::encode_utf8(addr_text(a))) == Some(a),
{
    let t0 = decimal(a.0[0] as nat);
    let t1 = decimal(a.0[1] as nat);
    let t2 = decimal(a.0[2] as nat);
    let t3 = decimal(a.0[3] as nat);
    lemma_decimal_reads_back(a.0[0] as nat);
    lemma_decimal_reads_back(a.0[1] as nat);
    lemma_decimal_reads_back(a.0[2] as nat);
    lemma_decimal_reads_back(a.0[3] as nat);
    lemma_octet_text(a.0[0]);
    lemma_octet_text(a.0[1]);
    lemma_octet_text(a.0[2]);
    lemma_octet_text(a.0[3]);
    let text = addr_text(a);
    assert(vstd::utf8::is_ascii_chars(text)) by {
        assert forall|i: int| 0 <= i < text.len() implies '\0' <= #[trigger] text[i] <= '\u{7f}' by {
            let n0 = t0.len() as int;
            let n1 = n0 + 1 + t1.len();
            let n2 = n1 + 1 + t2.len();
            if i < n0 {
                assert(text[i] == t0[i]);
            } else if i == n0 {
            } else if i < n1 {
                assert(text[i] == t1[i - n0 - 1]);
            } else if i == n1 {
            } else if i < n2 {
                assert(text[i] == t2[i - n1 - 1]);
            } else if i == n2 {
            } else {
                assert(text[i] == t3[i - n2 - 1]);
            }
        }
    }
    vstd::utf8::is_ascii_chars_encode_utf8(text);
    let bytes = vstd::utf8::encode_utf8(text);
    assert(bytes =~= ascii_bytes(text));
    let d0 = ascii_bytes(t0);
    let d1 = ascii_bytes(t1);
    let d2 = ascii_bytes(t2);
    let d3 = ascii_bytes(t3);
    let dot = seq![46u8];
    assert(ascii_bytes(seq!['.']) =~= dot);
    lemma_ascii_bytes_concat(t0, seq!['.']);
    lemma_ascii_bytes_concat(t0 + seq!['.'], t1);
    lemma_ascii_bytes_concat(t0 + seq!['.'] + t1, seq!['.']);
    lemma_ascii_bytes_concat(t0 + seq!['.'] + t1 + seq!['.'], t2);
    lemma_ascii_bytes_concat(t0 + seq!['.'] + t1 + seq!['.'] + t2, seq!['.']);
    lemma_ascii_bytes_concat(t0 + seq!['.'] + t1 + seq!['.'] + t2 + seq!['.'], t3);
    assert(bytes =~= d0 + dot + d1 + dot + d2 + dot + d3);
    lemma_split_dots_append(Seq::<u8>::empty(), d0);
    assert(Seq::<u8>::empty() + d0 =~= d0);
    assert(split_dots(d0) =~= seq![d0]);
    lemma_split_dots_piece(d0, d1);
    lemma_split_dots_piece(d0 + dot + d1, d2);
    lemma_split_dots_piece(d0 + dot + d1 + dot + d2, d3);
    assert(split_dots(bytes) =~= seq![d0, d1, d2, d3]);
    assert(a == ip4(a.0[0], a.0[1], a.0[2], a.0[3])) by {
        assert(a.0 =~= [a.0[0], a.0[1], a.0[2], a.0[3]]);
    }
}

impl IpAddr {
    /// The address in dotted-decimal text ("127.0.0.1").
    pub fn to_text(&self) -> (r: String)
        ensures
            r@ == addr_text(*self),
    {
        let mut s = String::new();
        push_decimal(&mut s, self.0[0] as usize);
        push_char(&mut s, '.');
        push_decimal(&mut s, self.0[1] as usize);
        push_char(&mut s, '.');
        push_decimal(&mut s, self.0[2] as usize);
        push_char(&mut s, '.');
        push_decimal(&mut s, self.0[3] as usize);
        s
    }
}

// --- addr:port ---
#[derive(Clone, Copy, Debug, PartialEq, Eq)]
pub struct IpEndp {
    pub addr: IpAddr,
    pub port: u16,
}

impl IpEndp {
    pub fn new(addr: IpAddr, port: u16) -> (r: IpEndp)
        ensures
            r.addr == addr,
            r.port == port,
    {
        IpEndp { addr, port }
    }

    /// The endpoint as text: address, colon, port ("127.0.0.1:7").
    pub fn to_text(&self) -> (r: String)
        ensures
            r@ == endp_text(*self),
    {
        let mut s = self.addr.to_text();
        push_char(&mut s, ':');
        push_decimal(&mut s, self.port as usize);
        s
    }
}

// --- header fields, read from the bytes of a packet ---
/// The 16-bit big-endian field at offset `i`.
pub open spec fn be16(b: Seq<u8>, i: int) -> u16 {
    (b[i] as nat * 256 + b[i + 1] as nat) as u16
}

pub open spec fn hdr_version(b: Seq<u8>) -> u8 {
    b[0] / 16
}

pub open spec fn hdr_ihl(b: Seq<u8>) -> u8 {
    b[0] % 16
}

pub open spec fn hdr_hlen(b: Seq<u8>) -> nat {
    (b[0] % 16) as nat * 4
}

pub open spec fn hdr_total(b: Seq<u8>) -> u16 {
    be16(b, 2)
}

pub open spec fn hdr_id(b: Seq<u8>) -> u16 {
    be16(b, 4)
}

pub open spec fn hdr_offset(b: Seq<u8>) -> u16 {
    be16(b, 6)
}

pub open spec fn hdr_sum(b: Seq<u8>) -> u16 {
    be16(b, 10)
}

pub open spec fn hdr_src(b: Seq<u8>) -> IpAddr {
    ip4(b[12], b[13], b[14], b[15])
}

pub open spec fn hdr_dst(b: Seq<u8>) -> IpAddr {
    ip4(b[16], b[17], b[18], b[19])
}

fn read_be16(data: &[u8], i: usize) -> (r: u16)
    requires
        i + 1 < data@.len(),
    ensures
        r == be16(data@, i as int),
{
    (data[i] as u16) * 256 + data[i + 1] as u16
}

/// A view of the header at the front of an IPv4 packet of at least 20 bytes.
pub struct IpHdr<'a> {
    data: &'a [u8],
}

impl<'a> View for IpHdr<'a> {
    type V = Seq<u8>;

    closed spec fn view(&self) -> Seq<u8> {
        self.data@
    }
}

impl<'a> IpHdr<'a> {
    #[verifier::type_invariant]
    closed spec fn long_enough(self) -> bool {
        self.data@.len() >= IP_HDR_SIZE_MIN
    }

    /// The header of `data`, if it is long enough to hold one.
    pub fn new(data: &'a [u8]) -> (r: Option<IpHdr<'a>>)
        ensures
            r is Some <==> data@.len() >= IP_HDR_SIZE_MIN,
            r matches Some(h) ==> h@ == data@,
    {
        if data.len() < IP_HDR_SIZE_MIN {
            return None;
        }
        Some(IpHdr { data })
    }

    pub fn vhl(&self) -> (r: u8)
        ensures
            r == self@[0],
    {
        proof {
            use_type_invariant(self);
        }
        self.data[0]
    }

    pub fn version(&self) -> (r: u8)
        ensures
            r == hdr_version(self@),
    {
        proof {
            use_type_invariant(self);
        }
        let b = self.data[0];
        assert(b >> 4 == b / 16) by (bit_vector);
        b >> 4
    }

    pub fn ihl(&self) -> (r: u8)
        ensures
            r == hdr_ihl(self@),
    {
        proof {
            use_type_invariant(self);
        }
        let b = self.data[0];
        assert(b & 0x0f == b % 16) by (bit_vector);
        b & 0x0f
    }

    pub fn hlen(&self) -> (r: usize)
        ensures
            r == hdr_hlen(self@),
    {
        (self.ihl() as usize) * 4
    }

    pub fn tos(&self) -> (r: u8)
        ensures
            r == self@[1],
    {
        proof {
            use_type_invariant(self);
        }
        self.data[1]
    }

    pub fn total(&self) -> (r: u16)
        ensures
            r == hdr_total(self@),
    {
        proof {
            use_type_invariant(self);
        }
        read_be16(self.data, 2)
    }

    pub fn id(&self) -> (r: u16)
        ensures
            r == hdr_id(self@),
    {
        proof {
            use_type_invariant(self);
        }
        read_be16(self.data, 4)
    }

    pub fn offset(&self) -> (r: u16)
        ensures
            r == hdr_offset(self@),
    {
        proof {
            use_type_invariant(self);
        }
        read_be16(self.data, 6)
    }

    pub fn ttl(&self) -> (r: u8)
        ensures
            r == self@[8],
    {
        proof {
            use_type_invariant(self);
        }
        self.data[8]
    }

    pub fn protocol(&self) -> (r: u8)
        ensures
            r == self@[9],
    {
        proof {
            use_type_invariant(self);
        }
        self.data[9]
    }

    pub fn sum(&self) -> (r: u16)
        ensures
            r == hdr_sum(self@),
    {
        proof {
            use_type_invariant(self);
        }
        read_be16(self.data, 10)
    }

    pub fn src(&self) -> (r: IpAddr)
        ensures
            r == hdr_src(self@),
    {
        proof {
            use_type_invariant(self);
        }
        IpAddr([self.data[12], self.data[13], self.data[14], self.data[15]])
    }

    pub fn dst(&self) -> (r: IpAddr)
        ensures
            r == hdr_dst(self@),
    {
        proof {
            use_type_invariant(self);
        }
        IpAddr([self.data[16], self.data[17], self.data[18], self.data[19]])
    }

    /// The header bytes: the first `hlen` bytes, or all of them if fewer.
    pub fn as_bytes(&self) -> (r: &'a [u8])
        ensures
            r@ == self@.subrange(
                0,
                if hdr_hlen(self@) <= self@.len() {
                    hdr_hlen(self@) as int
                } else {
                    self@.len() as int
                },
            ),
    {
        proof {
            use_type_invariant(self);
        }
        let h = self.hlen();
        let end = if h <= self.data.len() {
            h
        } else {
            self.data.len()
        };
        vstd::slice::slice_subrange(self.data, 0, end)
    }
}

// --- logical interfaces ---
/// An IP interface: the device it sits on (its position in the stack's
/// device table) and its addresses.
#[derive(Clone, Copy, Debug)]
pub struct IpIface {
    pub dev: usize,
    pub unicast: IpAddr,
    pub netmask: IpAddr,
    pub broadcast: IpAddr,
}

/// `a` and `b` agree on the bits that `mask` selects.
pub open spec fn same_subnet(a: IpAddr, b: IpAddr, mask: IpAddr) -> bool {
    forall|i: int| 0 <= i < 4 ==> #[trigger] (a.0[i] & mask.0[i]) == (b.0[i] & mask.0[i])
}

impl IpIface {
    pub fn dev(&self) -> (r: usize)
        ensures
            r == self.dev,
    {
        self.dev
    }

    pub fn unicast(&self) -> (r: IpAddr)
        ensures
            r == self.unicast,
    {
        self.unicast
    }

    pub fn netmask(&self) -> (r: IpAddr)
        ensures
            r == self.netmask,
    {
        self.netmask
    }

    pub fn broadcast(&self) -> (r: IpAddr)
        ensures
            r == self.broadcast,
    {
        self.broadcast
    }

    /// Whether `addr` lies in the interface's subnet.
    pub fn contains(&self, addr: IpAddr) -> (r: bool)
        ensures
            r == same_subnet(addr, self.unicast, self.netmask),
    {
        let mut i: usize = 0;
        while i < IP_ADDR_LEN
            invariant
                i <= 4,
                forall|k: int| 0 <= k < i ==> #[trigger] (addr.0[k] & self.netmask.0[k]) == (
                self.unicast.0[k] & self.netmask.0[k]),
            decreases 4 - i,
        {
            if (addr.0[i] & self.netmask.0[i]) != (self.unicast.0[i] & self.netmask.0[i]) {
                return false;
            }
            i = i + 1;
        }
        true
    }
}

// --- routing ---
#[derive(Clone, Copy, Debug)]
pub struct IpRoute {
    pub network: IpAddr,
    pub netmask: IpAddr,
    pub nexthop: IpAddr,
    pub iface: usize,
}

/// Number of bits set in a byte.
pub open spec fn popcount8(b: u8) -> nat
    decreases b,
{
    if b == 0 {
        0
    } else {
        (b % 2) as nat + popcount8(b / 2)
    }
}

/// The prefix length of a netmask: the bits set in it.
pub open spec fn prefix_len(mask: IpAddr) -> nat {
    popcount8(mask.0[0]) + popcount8(mask.0[1]) + popcount8(mask.0[2]) + popcount8(mask.0[3])
}

/// `dst` masked by the route's netmask is the route's network.
pub open spec fn route_matches(route: IpRoute, dst: IpAddr) -> bool {
    forall|i: int| 0 <= i < 4 ==> #[trigger] (dst.0[i] & route.netmask.0[i]) == route.network.0[i]
}

/// The route the lookup picks for `dst`: among matching routes one with the
/// longest prefix, the first such in the table.
pub open spec fn best_route(routes: Seq<IpRoute>, dst: IpAddr) -> Option<int>
    decreases routes.len(),
{
    if routes.len() == 0 {
        None
    } else {
        let prev = best_route(routes.drop_last(), dst);
        let i = routes.len() - 1;
        if route_matches(routes[i], dst) && (prev is None || prefix_len(routes[i].netmask)
            > prefix_len(routes[prev->0].netmask)) {
            Some(i)
        } else {
            prev
        }
    }
}

/// Longest-prefix match: the chosen route matches, no matching route has a
/// longer prefix, every earlier matching route has a shorter one; no route is
/// chosen only when none matches.
pub proof fn lemma_best_route(routes: Seq<IpRoute>, dst: IpAddr)
    ensures
        match best_route(routes, dst) {
            Some(j) => {
                &&& 0 <= j < routes.len()
                &&& route_matches(routes[j], dst)
                &&& forall|k: int|
                    0 <= k < routes.len() && route_matches(routes[k], dst) ==> prefix_len(
                        routes[k].netmask,
                    ) <= prefix_len(routes[j].netmask)
                &&& forall|k: int|
                    0 <= k < j && route_matches(routes[k], dst) ==> prefix_len(routes[k].netmask)
                        < prefix_len(routes[j].netmask)
            },
            None => forall|k: int| 0 <= k < routes.len() ==> !route_matches(routes[k], dst),
        },
    decreases routes.len(),
{
    if routes.len() > 0 {
        let init = routes.drop_last();
        lemma_best_route(init, dst);
        assert(forall|k: int| 0 <= k < init.len() ==> init[k] == routes[k]);
    }
}

fn popcount(b: u8) -> (r: u32)
    ensures
        r == popcount8(b),
{
    let mut x = b;
    let mut c: u32 = 0;
    while x != 0
        invariant
            c + popcount8(x) == popcount8(b),
            c + x <= b,
        decreases x,
    {
        let xo = x;
        assert(xo & 1 == xo % 2 && xo >> 1 == xo / 2) by (bit_vector);
        c = c + (x & 1) as u32;
        x = x >> 1;
    }
    c
}

/// The address with the host bits of `mask` set: the subnet's broadcast.
pub open spec fn broadcast_of(unicast: IpAddr, mask: IpAddr) -> IpAddr {
    ip4(
        unicast.0[0] | !mask.0[0],
        unicast.0[1] | !mask.0[1],
        unicast.0[2] | !mask.0[2],
        unicast.0[3] | !mask.0[3],
    )
}

/// The address with the host bits of `mask` cleared: the subnet itself.
pub open spec fn network_of(unicast: IpAddr, mask: IpAddr) -> IpAddr {
    ip4(
        unicast.0[0] & mask.0[0],
        unicast.0[1] & mask.0[1],
        unicast.0[2] & mask.0[2],
        unicast.0[3] & mask.0[3],
    )
}

/// Adds a route to `network`/`netmask` through `nexthop` (0.0.0.0 for a
/// directly attached network) on the interface at position `iface`.
pub fn route_add(
    stack: &mut NetStack,
    network: IpAddr,
    netmask: IpAddr,
    nexthop: IpAddr,
    iface: usize,
) -> (r: Result<(), ()>)
    requires
        old(stack).wf(),
        iface < old(stack).ifaces@.len(),
    ensures
        r is Ok,
        final(stack).wf(),
        final(stack).routes@ == old(stack).routes@.push(
            IpRoute { network, netmask, nexthop, iface },
        ),
        final(stack).devices@ == old(stack).devices@,
        final(stack).protocols@ == old(stack).protocols@,
        final(stack).queue@ == old(stack).queue@,
        final(stack).ip_protocols@ == old(stack).ip_protocols@,
        final(stack).ifaces@ == old(stack).ifaces@,
        final(stack).next_id == old(stack).next_id,
{
    stack.routes.push(IpRoute { network, netmask, nexthop, iface });
    Ok(())
}

/// The route for `dst`: longest-prefix match over the routing table.
pub fn route_lookup(stack: &NetStack, dst: IpAddr) -> (r: Option<IpRoute>)
    ensures
        r == (match best_route(stack.routes@, dst) {
            Some(j) => Some(stack.routes@[j]),
            None => None,
        }),
{
    let mut best: Option<usize> = None;
    let mut best_prefix: u32 = 0;
    let n = stack.routes.len();
    for i in 0..n
        invariant
            n == stack.routes@.len(),
            best == (match best_route(stack.routes@.subrange(0, i as int), dst) {
                Some(j) => Some(j as usize),
                None => None,
            }),
            best matches Some(j) ==> j < i && best_prefix == prefix_len(
                stack.routes@[j as int].netmask,
            ),
            best_prefix <= 1020,
    {
        let route = stack.routes[i];
        let ghost pre = stack.routes@.subrange(0, i + 1);
        let ghost prev_routes = stack.routes@.subrange(0, i as int);
        proof {
            assert(pre.drop_last() =~= prev_routes);
            lemma_best_route(prev_routes, dst);
            if let Some(j) = best_route(prev_routes, dst) {
                assert(prev_routes[j] == stack.routes@[j]);
            }
        }
        let mut matches = true;
        let mut k: usize = 0;
        while k < IP_ADDR_LEN
            invariant
                k <= 4,
                matches == forall|m: int| 0 <= m < k ==> #[trigger] (dst.0[m] & route.netmask.0[m])
                    == route.network.0[m],
            decreases 4 - k,
        {
            if (dst.0[k] & route.netmask.0[k]) != route.network.0[k] {
                matches = false;
            }
            k = k + 1;
        }
        assert(matches == route_matches(route, dst));
        if matches {
            let p0 = popcount(route.netmask.0[0]);
            let p1 = popcount(route.netmask.0[1]);
            let p2 = popcount(route.netmask.0[2]);
            let p3 = popcount(route.netmask.0[3]);
            proof {
                lemma_popcount8_le(route.netmask.0[0]);
                lemma_popcount8_le(route.netmask.0[1]);
                lemma_popcount8_le(route.netmask.0[2]);
                lemma_popcount8_le(route.netmask.0[3]);
            }
            let prefix = p0 + p1 + p2 + p3;
            if best.is_none() || prefix > best_prefix {
                best = Some(i);
                best_prefix = prefix;
            }
        }
    }
    assert(stack.routes@.subrange(0, n as int) =~= stack.routes@);
    proof {
        lemma_best_route(stack.routes@, dst);
    }
    match best {
        Some(j) => Some(stack.routes[j]),
        None => None,
    }
}

proof fn lemma_popcount8_le(b: u8)
    ensures
        popcount8(b) <= b,
    decreases b,
{
    if b != 0 {
        lemma_popcount8_le(b / 2);
    }
}

/// A default route (0.0.0.0/0) through the gateway `gw` on the interface at
/// position `iface`.
pub fn set_default_gateway(stack: &mut NetStack, iface: usize, gw: IpAddr) -> (r: Result<(), ()>)
    requires
        old(stack).wf(),
        iface < old(stack).ifaces@.len(),
    ensures
        r is Ok,
        final(stack).wf(),
        final(stack).routes@ == old(stack).routes@.push(
            IpRoute {
                network: IpAddr::spec_any(),
                netmask: IpAddr::spec_any(),
                nexthop: gw,
                iface,
            },
        ),
        final(stack).devices@ == old(stack).devices@,
        final(stack).protocols@ == old(stack).protocols@,
        final(stack).queue@ == old(stack).queue@,
        final(stack).ip_protocols@ == old(stack).ip_protocols@,
        final(stack).ifaces@ == old(stack).ifaces@,
        final(stack).next_id == old(stack).next_id,
{
    route_add(stack, IpAddr::any(), IpAddr::any(), gw, iface)
}

/// Position of the first interface whose unicast address is `addr`.
pub open spec fn find_iface(ifaces: Seq<IpIface>, addr: IpAddr) -> Option<int>
    decreases ifaces.len(),
{
    if ifaces.len() == 0 {
        None
    } else {
        match find_iface(ifaces.drop_last(), addr) {
            Some(j) => Some(j),
            None => if ifaces.last().unicast == addr {
                Some(ifaces.len() - 1)
            } else {
                None
            },
        }
    }
}

pub proof fn lemma_find_iface(ifaces: Seq<IpIface>, addr: IpAddr)
    ensures
        match find_iface(ifaces, addr) {
            Some(j) => 0 <= j < ifaces.len() && ifaces[j].unicast == addr && forall|k: int|
                0 <= k < j ==> ifaces[k].unicast != addr,
            None => forall|k: int| 0 <= k < ifaces.len() ==> ifaces[k].unicast != addr,
        },
    decreases ifaces.len(),
{
    if ifaces.len() > 0 {
        let init = ifaces.drop_last();
        lemma_find_iface(init, addr);
        assert(forall|k: int| 0 <= k < init.len() ==> init[k] == ifaces[k]);
    }
}

/// The first interface whose unicast address is `addr`, by position.
pub fn iface_select(stack: &NetStack, addr: IpAddr) -> (r: Option<usize>)
    ensures
        r == (match find_iface(stack.ifaces@, addr) {
            Some(j) => Some(j as usize),
            None => None,
        }),
{
    let n = stack.ifaces.len();
    for i in 0..n
        invariant
            n == stack.ifaces@.len(),
            forall|k: int| 0 <= k < i ==> stack.ifaces@[k].unicast != addr,
    {
        if addr_eq(stack.ifaces[i].unicast, addr) {
            proof {
                lemma_find_iface(stack.ifaces@, addr);
            }
            return Some(i);
        }
    }
    proof {
        lemma_find_iface(stack.ifaces@, addr);
    }
    None
}

/// The device at position `dev` got `link` appended to its interfaces;
/// every other device, and everything else about this one, is unchanged.
pub open spec fn device_gets_link(
    before: Seq<crate::device::Device>,
    after: Seq<crate::device::Device>,
    dev: int,
    link: IfaceLink,
) -> bool {
    &&& after.len() == before.len()
    &&& forall|i: int| 0 <= i < before.len() && i != dev ==> after[i] == before[i]
    &&& after[dev].same_identity(&before[dev])
    &&& after[dev].flags == before[dev].flags
    &&& after[dev].ifaces@ == before[dev].ifaces@.push(link)
}

/// Whether the device already has an interface of `family`.
pub open spec fn has_family(links: Seq<IfaceLink>, family: u16) -> bool {
    exists|k: int| 0 <= k < links.len() && links[k].family == family
}

/// Registers an IP interface with the given unicast address and netmask on
/// the device at position `dev`, and a route to its subnet. Fails, changing
/// nothing, if an address does not parse or the device already has an IP
/// interface.
pub fn iface_register(stack: &mut NetStack, dev: usize, unicast: &str, netmask: &str) -> (r: Result<
    usize,
    (),
>)
    requires
        old(stack).wf(),
        dev < old(stack).devices@.len(),
    ensures
        final(stack).wf(),
        ({
            let u = parse_addr_spec(unicast.spec_bytes());
            let m = parse_addr_spec(netmask.spec_bytes());
            &&& r is Ok <==> u is Some && m is Some && !has_family(
                old(stack).devices@[dev as int].ifaces@,
                FAMILY_IP,
            )
            &&& r matches Ok(idx) ==> {
                &&& idx == old(stack).ifaces@.len()
                &&& final(stack).ifaces@ == old(stack).ifaces@.push(
                    IpIface {
                        dev,
                        unicast: u->0,
                        netmask: m->0,
                        broadcast: broadcast_of(u->0, m->0),
                    },
                )
                &&& final(stack).routes@ == old(stack).routes@.push(
                    IpRoute {
                        network: network_of(u->0, m->0),
                        netmask: m->0,
                        nexthop: IpAddr::spec_any(),
                        iface: idx,
                    },
                )
                &&& device_gets_link(
                    old(stack).devices@,
                    final(stack).devices@,
                    dev as int,
                    IfaceLink { family: FAMILY_IP, iface: idx },
                )
            }
            &&& r is Err ==> {
                &&& final(stack).ifaces@ == old(stack).ifaces@
                &&& final(stack).routes@ == old(stack).routes@
                &&& final(stack).devices@ == old(stack).devices@
            }
        }),
        final(stack).protocols@ == old(stack).protocols@,
        final(stack).queue@ == old(stack).queue@,
        final(stack).ip_protocols@ == old(stack).ip_protocols@,
        final(stack).next_id == old(stack).next_id,
{
    let u = match parse_addr(unicast) {
        Some(a) => a,
        None => {
            return Err(());
        },
    };
    let m = match parse_addr(netmask) {
        Some(a) => a,
        None => {
            return Err(());
        },
    };
    let broadcast = IpAddr(
        [u.0[0] | !m.0[0], u.0[1] | !m.0[1], u.0[2] | !m.0[2], u.0[3] | !m.0[3]],
    );
    let idx = stack.ifaces.len();
    let link = IfaceLink { family: FAMILY_IP, iface: idx };
    let ghost devs0 = stack.devices@;
    let added = stack.devices[dev].add_iface(link);
    if added.is_err() {
        assert(stack.devices@ =~= devs0);
        return Err(());
    }
    stack.ifaces.push(IpIface { dev, unicast: u, netmask: m, broadcast });
    let network = IpAddr([u.0[0] & m.0[0], u.0[1] & m.0[1], u.0[2] & m.0[2], u.0[3] & m.0[3]]);
    let _ = route_add(stack, network, m, IpAddr::any(), idx);
    Ok(idx)
}

// --- building packets ---
/// The 20-byte header of a packet with `total` bytes, its checksum field
/// still zero: version 4, header length 5 words, TTL 255, no fragmentation.
pub open spec fn ip_header_unsummed(protocol: u8, total: nat, id: u16, src: IpAddr, dst: IpAddr) -> Seq<
    u8,
> {
    seq![
        0x45u8,
        0,
        (total / 256) as u8,
        (total % 256) as u8,
        (id / 256) as u8,
        (id % 256) as u8,
        0,
        0,
        255,
        protocol,
        0,
        0,
        src.0[0],
        src.0[1],
        src.0[2],
        src.0[3],
        dst.0[0],
        dst.0[1],
        dst.0[2],
        dst.0[3],
    ]
}

/// The IP packet carrying `data`.
pub open spec fn ip_packet_spec(protocol: u8, data: Seq<u8>, src: IpAddr, dst: IpAddr, id: u16) -> Seq<
    u8,
> {
    with_sum(ip_header_unsummed(protocol, 20 + data.len(), id, src, dst), 10) + data
}

/// Builds the packet; fails when header and data exceed 65535 bytes.
pub fn build_packet(protocol: u8, data: &[u8], src: IpAddr, dst: IpAddr, id: u16) -> (r: Result<
    Vec<u8>,
    (),
>)
    ensures
        r is Ok <==> IP_HDR_SIZE_MIN + data@.len() <= 0xffff,
        r matches Ok(buf) ==> buf@ == ip_packet_spec(protocol, data@, src, dst, id),
{
    if data.len() > 0xffff - IP_HDR_SIZE_MIN {
        return Err(());
    }
    let total: usize = IP_HDR_SIZE_MIN + data.len();
    let mut buf: Vec<u8> = Vec::new();
    buf.push(0x45);
    buf.push(0);
    buf.push((total / 256) as u8);
    buf.push((total % 256) as u8);
    buf.push((id / 256) as u8);
    buf.push((id % 256) as u8);
    buf.push(0);
    buf.push(0);
    buf.push(255);
    buf.push(protocol);
    buf.push(0);
    buf.push(0);
    buf.push(src.0[0]);
    buf.push(src.0[1]);
    buf.push(src.0[2]);
    buf.push(src.0[3]);
    buf.push(dst.0[0]);
    buf.push(dst.0[1]);
    buf.push(dst.0[2]);
    buf.push(dst.0[3]);
    let ghost h = ip_header_unsummed(protocol, total as nat, id, src, dst);
    assert(buf@ =~= h);
    proof {
        lemma_ones_sum_bound(buf@);
    }
    let c = cksum16(buf.as_slice(), 0);
    buf.set(10, (c % 256) as u8);
    buf.set(11, (c / 256) as u8);
    assert(buf@ =~= with_sum(h, 10));
    let n = data.len();
    for i in 0..n
        invariant
            n == data@.len(),
            buf@ =~= with_sum(h, 10) + data@.subrange(0, i as int),
    {
        buf.push(data[i]);
        assert(data@.subrange(0, i + 1) =~= data@.subrange(0, i as int).push(data@[i as int]));
    }
    assert(data@.subrange(0, n as int) =~= data@);
    Ok(buf)
}

/// A packet built here reads back: its header holds the fields it was built
/// with, its header checksum verifies, and its data follows the header.
pub proof fn lemma_packet_reads_back(protocol: u8, data: Seq<u8>, src: IpAddr, dst: IpAddr, id: u16)
    requires
        20 + data.len() <= 0xffff,
    ensures
        ({
            let b = ip_packet_spec(protocol, data, src, dst, id);
            &&& b.len() == 20 + data.len()
            &&& hdr_version(b) == IP_VERSION_IPV4
            &&& hdr_hlen(b) == 20
            &&& hdr_total(b) == 20 + data.len()
            &&& hdr_id(b) == id
            &&& hdr_offset(b) == 0
            &&& b[8] == 255
            &&& b[9] == protocol
            &&& hdr_src(b) == src
            &&& hdr_dst(b) == dst
            &&& cksum_spec(b.subrange(0, 20), 0) == 0
            &&& b.subrange(20, b.len() as int) == data
        }),
{
    let total = 20 + data.len();
    let h = ip_header_unsummed(protocol, total, id, src, dst);
    let hs = with_sum(h, 10);
    let b = hs + data;
    lemma_cksum_field_verifies(h, 10, 0);
    assert(b.subrange(0, 20) =~= hs);
    assert(b.subrange(20, b.len() as int) =~= data);
    assert(hdr_total(b) == total) by {
        assert(b[2] == (total / 256) as u8 && b[3] == (total % 256) as u8);
        assert((total / 256) as u8 as nat * 256 + (total % 256) as u8 as nat == total) by (nonlinear_arith)
            requires total <= 0xffff;
    }
    assert(hdr_id(b) == id) by {
        assert(b[4] == (id / 256) as u8 && b[5] == (id % 256) as u8);
        assert((id / 256) as u8 as nat * 256 + (id % 256) as u8 as nat == id) by (nonlinear_arith);
    }
    assert(hdr_src(b).0 =~= src.0);
    assert(hdr_dst(b).0 =~= dst.0);
}

// --- sending ---
/// The identification after `id`, wrapping around.
pub open spec fn next_id(id: u16) -> u16 {
    if id == 0xffff {
        0
    } else {
        (id + 1) as u16
    }
}

/// What sending `data` as protocol `protocol` from `src` to `dst` comes to,
/// with `id` the identification the packet would carry: the device and the
/// packet handed to it, or why nothing was handed on; and the next
/// identification (one is used up once a packet is about to be built).
pub open spec fn ip_output_spec(
    t: Tables,
    protocol: u8,
    data: Seq<u8>,
    src: IpAddr,
    dst: IpAddr,
    id: u16,
) -> (Result<(usize, Seq<u8>), TxError>, u16) {
    if src == IpAddr::spec_any() && dst == IpAddr::spec_broadcast() {
        (Err(TxError::BroadcastNeedsSource), id)
    } else {
        match best_route(t.routes, dst) {
            None => (Err(TxError::NoRoute), id),
            Some(j) => {
                let iface = t.ifaces[t.routes[j].iface as int];
                let dev = t.devices[iface.dev as int];
                let s = if src == IpAddr::spec_any() {
                    iface.unicast
                } else {
                    src
                };
                if (dev.mtu as nat) < 20 + data.len() {
                    (Err(TxError::TooLongForMtu), id)
                } else if 20 + data.len() > 0xffff {
                    (Err(TxError::PacketTooLong), next_id(id))
                } else {
                    let pkt = ip_packet_spec(protocol, data, s, dst, id);
                    if dev.spec_is_up() && pkt.len() <= dev.mtu {
                        (Ok((iface.dev, pkt)), next_id(id))
                    } else {
                        (Err(TxError::DeviceRefused), next_id(id))
                    }
                }
            },
        }
    }
}

/// Whether the device of the interface at position `iface` takes the packet
/// (`Device::check_output`): the device's own checks, which decide whether a reply
/// sent while the stack handles its queue is handed to the driver.
fn device_takes(stack: &NetStack, iface: usize, buf: &[u8]) -> (r: Result<usize, TxError>)
    requires
        stack.wf(),
        iface < stack.ifaces@.len(),
    ensures
        ({
            let d = stack.ifaces@[iface as int].dev;
            &&& r is Ok <==> stack.devices@[d as int].takes_frame(buf@.len() as nat)
            &&& r matches Ok(x) ==> x == d
            &&& r matches Err(e) ==> e == TxError::DeviceRefused
        }),
{
    let d = stack.ifaces[iface].dev;
    let hwaddr = [0u8; 16];
    match stack.devices[d].check_output(PROTOCOL_TYPE_IP, buf, &hwaddr) {
        Ok(()) => Ok(d),
        Err(()) => Err(TxError::DeviceRefused),
    }
}

/// Hands a packet to the device of the interface at position `iface`
/// (`Device::output`). The next hop `target` needs no address resolution
/// on a loopback device, so the link-level destination is all zeros.
fn output_device(stack: &mut NetStack, iface: usize, buf: &[u8], target: IpAddr) -> (r: Result<
    Vec<Event>,
    (),
>)
    requires
        old(stack).wf(),
        iface < old(stack).ifaces@.len(),
        queue_ok(old(stack).tables(), queue_view(old(stack).queue@)),
        ({
            let d = old(stack).ifaces@[iface as int].dev;
            old(stack).devices@[d as int].takes_frame(buf@.len() as nat) ==> receive_ok(
                old(stack).tables(),
                queue_view(old(stack).queue@),
                PROTOCOL_TYPE_IP,
                buf@,
                d,
                old(stack).next_id,
            )
        }),
    ensures
        ({
            let d = old(stack).ifaces@[iface as int].dev;
            &&& !old(stack).devices@[d as int].takes_frame(buf@.len() as nat) ==> {
                &&& r is Err
                &&& *final(stack) == *old(stack)
            }
            &&& old(stack).devices@[d as int].takes_frame(buf@.len() as nat) ==> received_as(
                *old(stack),
                *final(stack),
                r,
                PROTOCOL_TYPE_IP,
                buf@,
                d,
            )
        }),
{
    let _ = target;
    let d = stack.ifaces[iface].dev;
    let hwaddr = [0u8; 16];
    Device::output(stack, d, PROTOCOL_TYPE_IP, buf, &hwaddr)
}

fn fits_mtu(mtu: u16, len: usize) -> (r: bool)
    ensures
        r == (20 + len <= mtu),
{
    len <= mtu as usize && IP_HDR_SIZE_MIN + len <= mtu as usize
}

/// Routes the packet for `data` to `dst` and builds it with identification
/// `id`: the interface it leaves by, the packet and its next hop, or why none
/// was built; and the next identification. Whether the device takes the
/// packet is for the device to say.
fn route_packet(
    stack: &NetStack,
    protocol: u8,
    data: &[u8],
    src: IpAddr,
    dst: IpAddr,
    id: u16,
) -> (r: (Result<(usize, Vec<u8>, IpAddr), TxError>, u16))
    requires
        stack.wf(),
    ensures
        ({
            let (spec_res, spec_id) = ip_output_spec(stack.tables(), protocol, data@, src, dst, id);
            &&& r.1 == spec_id
            &&& match r.0 {
                Ok((i, p, _)) => i < stack.ifaces@.len() && {
                    let d = stack.ifaces@[i as int].dev;
                    &&& d < stack.devices@.len()
                    &&& if stack.devices@[d as int].takes_frame(p@.len() as nat) {
                        spec_res == Ok::<(usize, Seq<u8>), TxError>((d, p@))
                    } else {
                        spec_res == Err::<(usize, Seq<u8>), TxError>(TxError::DeviceRefused)
                    }
                },
                Err(e) => spec_res == Err::<(usize, Seq<u8>), TxError>(e)
                    && e != TxError::DeviceRefused,
            }
        }),
{
    if addr_eq(src, IpAddr::any()) && addr_eq(dst, IpAddr::broadcast()) {
        return (Err(TxError::BroadcastNeedsSource), id);
    }
    let route = match route_lookup(stack, dst) {
        Some(r) => r,
        None => {
            return (Err(TxError::NoRoute), id);
        },
    };
    proof {
        lemma_best_route(stack.routes@, dst);
    }
    let iface = stack.ifaces[route.iface];
    let nexthop = if !addr_eq(route.nexthop, IpAddr::any()) {
        route.nexthop
    } else {
        dst
    };
    let s = if addr_eq(src, IpAddr::any()) {
        iface.unicast
    } else {
        src
    };
    if !fits_mtu(stack.devices[iface.dev].mtu, data.len()) {
        return (Err(TxError::TooLongForMtu), id);
    }
    let next = if id == 0xffff {
        0
    } else {
        id + 1
    };
    match build_packet(protocol, data, s, dst, id) {
        Ok(buf) => (Ok((route.iface, buf, nexthop)), next),
        Err(()) => (Err(TxError::PacketTooLong), next),
    }
}

/// Builds the packet for `data` and has the device of the route to `dst`
/// take it, using `id` as its identification; returns the device and packet,
/// or why it was not sent, and the next identification.
pub fn output_packet(
    stack: &NetStack,
    protocol: u8,
    data: &[u8],
    src: IpAddr,
    dst: IpAddr,
    id: u16,
) -> (r: (Result<(usize, Vec<u8>), TxError>, u16))
    requires
        stack.wf(),
    ensures
        ({
            let (spec_res, spec_id) = ip_output_spec(stack.tables(), protocol, data@, src, dst, id);
            &&& r.1 == spec_id
            &&& r.0 matches Ok((d, _)) ==> d < stack.devices@.len()
            &&& match r.0 {
                Ok((d, p)) => spec_res == Ok::<(usize, Seq<u8>), TxError>((d, p@)),
                Err(e) => spec_res == Err::<(usize, Seq<u8>), TxError>(e),
            }
        }),
{
    let (res, next) = route_packet(stack, protocol, data, src, dst, id);
    match res {
        Err(e) => (Err(e), next),
        Ok((i, buf, _)) => match device_takes(stack, i, buf.as_slice()) {
            Ok(d) => (Ok((d, buf)), next),
            Err(e) => (Err(e), next),
        },
    }
}

// --- receiving ---
/// The checks a received packet must pass, in order; the first it fails.
pub open spec fn ip_check(data: Seq<u8>) -> Option<IpDrop> {
    if data.len() < IP_HDR_SIZE_MIN {
        Some(IpDrop::TooShort)
    } else if hdr_version(data) != IP_VERSION_IPV4 {
        Some(IpDrop::NotIpv4)
    } else if data.len() < hdr_hlen(data) {
        Some(IpDrop::HeaderTruncated)
    } else if data.len() < hdr_total(data) {
        Some(IpDrop::TotalTruncated)
    } else if cksum_spec(data.subrange(0, hdr_hlen(data) as int), 0) != 0 {
        Some(IpDrop::ChecksumError)
    } else if hdr_offset(data) & IP_HDR_FLAG_MF != 0 || hdr_offset(data) & IP_HDR_OFFSET_MASK != 0 {
        Some(IpDrop::Fragmented)
    } else {
        None
    }
}

/// The IP interface of device `dev` to which a packet that passed the checks
/// is addressed: its unicast or broadcast address, or 255.255.255.255. None
/// when the device has no IP interface or the packet is for another host.
pub open spec fn ip_target(t: Tables, data: Seq<u8>, dev: usize) -> Option<usize> {
    match crate::device::first_link(t.devices[dev as int].ifaces@, FAMILY_IP) {
        None => None,
        Some(k) => {
            let idx = t.devices[dev as int].ifaces@[k].iface;
            let iface = t.ifaces[idx as int];
            let d = hdr_dst(data);
            if d != iface.unicast && d != iface.broadcast && d != IpAddr::spec_broadcast() {
                None
            } else {
                Some(idx)
            }
        },
    }
}

/// A packet that is accepted but whose total length is shorter than its
/// header length cannot be cut into header and data: the packet is refused
/// by the callers' preconditions.
pub open spec fn ip_input_malformed(t: Tables, data: Seq<u8>, dev: usize) -> bool {
    &&& ip_check(data) is None
    &&& ip_target(t, data, dev) is Some
    &&& hdr_total(data) < hdr_hlen(data)
}

/// The data of an accepted packet: the bytes between header and total length.
pub open spec fn ip_payload(data: Seq<u8>) -> Seq<u8> {
    data.subrange(hdr_hlen(data) as int, hdr_total(data) as int)
}

/// What a Destination Unreachable reply quotes of a packet: its header and
/// at most the first 8 bytes of its data.
pub open spec fn ip_quote(data: Seq<u8>) -> Seq<u8> {
    let hlen = hdr_hlen(data);
    let total = hdr_total(data) as nat;
    data.subrange(0, (hlen + if total - hlen < 8 { total - hlen } else { 8 }) as int)
}

/// A frame handed back by the loopback device: queued if some handler is
/// registered for its type, dropped otherwise.
pub open spec fn loopback_spec(t: Tables, ty: u16, data: Seq<u8>, dev: usize) -> Option<Frame> {
    if net_handler(t.protocols, ty) is Some {
        Some(Frame { ty, data, dev })
    } else {
        None
    }
}

/// Sending an ICMP message from within the stack: the events (a failure to
/// send), the frame it puts back into the input queue, the next identification.
pub open spec fn send_message_spec(t: Tables, m: IcmpMsgV, id: u16) -> (Seq<EventV>, Option<Frame>, u16) {
    let pkt = icmp_message_spec(m.ty, m.code, m.values, m.data);
    let (res, id2) = ip_output_spec(t, IP_PROTOCOL_ICMP, pkt, m.src, m.dst, id);
    match res {
        Err(e) => (seq![EventV::OutputFailed { reason: e }], None, id2),
        Ok((d, p)) => (Seq::<EventV>::empty(), loopback_spec(t, PROTOCOL_TYPE_IP, p, d), id2),
    }
}

/// What the IP layer does with a packet received on device `dev`: the events
/// it reports, the frame it queues (a reply sent over a loopback device), and
/// the next identification.
pub open spec fn ip_input_spec(t: Tables, data: Seq<u8>, dev: usize, id: u16) -> (
    Seq<EventV>,
    Option<Frame>,
    u16,
) {
    match ip_check(data) {
        Some(reason) => (seq![EventV::IpDropped { dev, reason }], None, id),
        None => match ip_target(t, data, dev) {
            None => (Seq::<EventV>::empty(), None, id),
            Some(idx) => {
                let iface = t.iface_at(idx);
                let src = hdr_src(data);
                let protocol = data[9];
                let accepted = EventV::IpAccepted {
                    src,
                    dst: hdr_dst(data),
                    protocol,
                    total: hdr_total(data),
                };
                match crate::ip::ip_handler(t.ip_protocols, protocol) {
                    Some(ProtocolHandler::Icmp) => {
                        let (ev, reply) = icmp_input_spec(
                            ip_payload(data),
                            src,
                            hdr_dst(data),
                            iface.unicast,
                        );
                        match reply {
                            None => (seq![accepted] + ev, None, id),
                            Some(m) => {
                                let (ev2, child, id2) = send_message_spec(t, m, id);
                                (seq![accepted] + ev + ev2, child, id2)
                            },
                        }
                    },
                    Some(ProtocolHandler::Application(h)) => (
                        seq![
                            accepted,
                            EventV::IpDelivered {
                                handler: h,
                                protocol,
                                iface: idx,
                                src,
                                dst: hdr_dst(data),
                                data: ip_payload(data),
                            },
                        ],
                        None,
                        id,
                    ),
                    None => {
                        let m = IcmpMsgV {
                            ty: ICMP_TYPE_DEST_UNREACH,
                            code: ICMP_CODE_PROTO_UNREACH,
                            values: 0,
                            data: ip_quote(data),
                            src: iface.unicast,
                            dst: src,
                        };
                        let (ev2, child, id2) = send_message_spec(t, m, id);
                        (seq![accepted] + ev2, child, id2)
                    },
                }
            },
        },
    }
}

fn check_packet(data: &[u8]) -> (r: Option<IpDrop>)
    ensures
        r == ip_check(data@),
{
    let hdr = match IpHdr::new(data) {
        Some(h) => h,
        None => {
            return Some(IpDrop::TooShort);
        },
    };
    if hdr.version() != IP_VERSION_IPV4 {
        return Some(IpDrop::NotIpv4);
    }
    let hlen = hdr.hlen();
    if data.len() < hlen {
        return Some(IpDrop::HeaderTruncated);
    }
    let total = hdr.total() as usize;
    if data.len() < total {
        return Some(IpDrop::TotalTruncated);
    }
    let head = vstd::slice::slice_subrange(data, 0, hlen);
    proof {
        lemma_ones_sum_bound(head@);
    }
    if cksum16(head, 0) != 0 {
        return Some(IpDrop::ChecksumError);
    }
    let offset = hdr.offset();
    if offset & IP_HDR_FLAG_MF != 0 || offset & IP_HDR_OFFSET_MASK != 0 {
        return Some(IpDrop::Fragmented);
    }
    None
}

fn target_iface(stack: &NetStack, data: &[u8], dev: usize) -> (r: Option<usize>)
    requires
        stack.wf(),
        dev < stack.devices@.len(),
        data@.len() >= IP_HDR_SIZE_MIN,
    ensures
        r == ip_target(stack.tables(), data@, dev),
        r matches Some(i) ==> i < stack.ifaces@.len(),
{
    let link = match stack.devices[dev].get_iface(FAMILY_IP) {
        Some(l) => l,
        None => {
            return None;
        },
    };
    proof {
        crate::device::lemma_first_link(stack.devices@[dev as int].ifaces@, FAMILY_IP);
    }
    let iface = stack.ifaces[link.iface];
    let d = IpAddr([data[16], data[17], data[18], data[19]]);
    if !addr_eq(d, iface.unicast) && !addr_eq(d, iface.broadcast) && !addr_eq(
        d,
        IpAddr::broadcast(),
    ) {
        return None;
    }
    Some(link.iface)
}

/// Header length and total length of a packet that passed the checks.
fn packet_bounds(data: &[u8]) -> (r: (usize, usize))
    requires
        data@.len() >= IP_HDR_SIZE_MIN,
    ensures
        r.0 == hdr_hlen(data@),
        r.1 == hdr_total(data@),
{
    let hdr = IpHdr::new(data).unwrap();
    (hdr.hlen(), hdr.total() as usize)
}

/// How much of a packet a Destination Unreachable quotes.
fn quote_len(hlen: usize, total: usize) -> (r: usize)
    requires
        hlen <= total <= 0xffff,
    ensures
        r == hlen + if total - hlen < 8 {
            total - hlen
        } else {
            8
        },
{
    if total - hlen < 8 {
        total
    } else {
        hlen + 8
    }
}

/// The IP input handler: checks a packet received on device `dev`, accepts
/// it if it is for this host, and hands its data to the protocol's handler;
/// a packet of an unknown protocol is answered with Destination Unreachable.
pub fn input(stack: &NetStack, data: &[u8], dev: usize, id: u16) -> (r: (
    Vec<Event>,
    Option<InputEntry>,
    u16,
))
    requires
        stack.wf(),
        dev < stack.devices@.len(),
        !ip_input_malformed(stack.tables(), data@, dev),
    ensures
        ({
            let (ev, child, id2) = ip_input_spec(stack.tables(), data@, dev, id);
            &&& r.0@.map_values(|e: Event| e@) == ev
            &&& r.2 == id2
            &&& match r.1 {
                Some(c) => child == Some(c@),
                None => child is None,
            }
        }),
{
    let mut events: Vec<Event> = Vec::new();
    match check_packet(data) {
        Some(reason) => {
            events.push(Event::IpDropped { dev, reason });
            assert(events@.map_values(|e: Event| e@) =~= ip_input_spec(
                stack.tables(),
                data@,
                dev,
                id,
            ).0);
            return (events, None, id);
        },
        None => {},
    }
    let idx = match target_iface(stack, data, dev) {
        Some(i) => i,
        None => {
            assert(events@.map_values(|e: Event| e@) =~= Seq::<EventV>::empty());
            return (events, None, id);
        },
    };
    let iface = stack.ifaces[idx];
    let (hlen, total) = packet_bounds(data);
    let src = IpAddr([data[12], data[13], data[14], data[15]]);
    let dst = IpAddr([data[16], data[17], data[18], data[19]]);
    let protocol = data[9];
    let total16 = read_be16(data, 2);
    events.push(Event::IpAccepted { src, dst, protocol, total: total16 });
    let ghost accepted = events@.map_values(|e: Event| e@);
    let handler = handler_of(stack, protocol);
    match handler {
        Some(ProtocolHandler::Icmp) => {
            let payload = vstd::slice::slice_subrange(data, hlen, total);
            let (mut ev, reply) = crate::icmp::input(payload, src, dst, iface.unicast);
            let ghost evv = ev@.map_values(|e: Event| e@);
            events.append(&mut ev);
            assert(events@.map_values(|e: Event| e@) =~= accepted + evv);
            match reply {
                None => {
                    assert(events@.map_values(|e: Event| e@) =~= accepted + icmp_input_spec(
                        ip_payload(data@),
                        src,
                        dst,
                        iface.unicast,
                    ).0);
                    (events, None, id)
                },
                Some(m) => {
                    let ghost before = events@.map_values(|e: Event| e@);
                    let (mut ev2, child, id2) = crate::icmp::send_message(stack, m, id);
                    let ghost ev2v = ev2@.map_values(|e: Event| e@);
                    events.append(&mut ev2);
                    assert(events@.map_values(|e: Event| e@) =~= before + ev2v);
                    (events, child, id2)
                },
            }
        },
        Some(ProtocolHandler::Application(h)) => {
            let payload = vstd::slice::slice_subrange(data, hlen, total);
            events.push(
                Event::IpDelivered {
                    handler: h,
                    protocol,
                    iface: idx,
                    src,
                    dst,
                    data: vstd::slice::slice_to_vec(payload),
                },
            );
            assert(events@.map_values(|e: Event| e@) =~= ip_input_spec(
                stack.tables(),
                data@,
                dev,
                id,
            ).0);
            (events, None, id)
        },
        None => {
            let qlen = quote_len(hlen, total);
            let quote = vstd::slice::slice_subrange(data, 0, qlen);
            let m = IcmpMsg {
                ty: ICMP_TYPE_DEST_UNREACH,
                code: ICMP_CODE_PROTO_UNREACH,
                values: 0,
                data: vstd::slice::slice_to_vec(quote),
                src: iface.unicast,
                dst: src,
            };
            let (mut ev2, child, id2) = crate::icmp::send_message(stack, m, id);
            let ghost ev2v = ev2@.map_values(|e: Event| e@);
            events.append(&mut ev2);
            assert(events@.map_values(|e: Event| e@) =~= accepted + ev2v);
            (events, child, id2)
        },
    }
}

/// The handler registered for `protocol`.
pub fn handler_of(stack: &NetStack, protocol: u8) -> (r: Option<ProtocolHandler>)
    ensures
        r == ip_handler(stack.ip_protocols@, protocol),
{
    proof {
        lemma_find_ip_protocol(stack.ip_protocols@, protocol);
    }
    let n = stack.ip_protocols.len();
    for i in 0..n
        invariant
            n == stack.ip_protocols@.len(),
            forall|k: int| 0 <= k < i ==> stack.ip_protocols@[k].protocol != protocol,
            match find_ip_protocol(stack.ip_protocols@, protocol) {
                Some(j) => 0 <= j < stack.ip_protocols@.len() && stack.ip_protocols@[j].protocol
                    == protocol && forall|k: int|
                    0 <= k < j ==> stack.ip_protocols@[k].protocol != protocol,
                None => forall|k: int|
                    0 <= k < stack.ip_protocols@.len() ==> stack.ip_protocols@[k].protocol
                        != protocol,
            },
    {
        if stack.ip_protocols[i].protocol == protocol {
            return Some(stack.ip_protocols[i].handler);
        }
    }
    None
}

/// What sending comes to, given the tables, the queued frames and the next
/// identification: the events (None when the packet could not be handed to a
/// device), the queue after, and the next identification. A packet handed to
/// a loopback device is received again at once.
pub open spec fn send_outcome(
    t: Tables,
    q: Seq<Frame>,
    protocol: u8,
    data: Seq<u8>,
    src: IpAddr,
    dst: IpAddr,
    id: u16,
) -> (Option<Seq<EventV>>, Seq<Frame>, u16) {
    let (res, id2) = ip_output_spec(t, protocol, data, src, dst, id);
    match res {
        Err(_) => (None, q, id2),
        Ok((d, p)) => receive_outcome(t, q, PROTOCOL_TYPE_IP, p, d, id2),
    }
}

/// A packet handed on by the output path comes from a registered device and
/// its total length covers its header.
pub proof fn lemma_output_well_formed(
    t: Tables,
    protocol: u8,
    data: Seq<u8>,
    src: IpAddr,
    dst: IpAddr,
    id: u16,
)
    requires
        tables_wf(t),
    ensures
        ip_output_spec(t, protocol, data, src, dst, id).0 matches Ok((d, p)) ==> {
            &&& d < t.devices.len()
            &&& hdr_total(p) >= hdr_hlen(p)
        },
{
    let (res, id2) = ip_output_spec(t, protocol, data, src, dst, id);
    if let Ok((d, p)) = res {
        lemma_best_route(t.routes, dst);
        let j = best_route(t.routes, dst)->0;
        let s = if src == IpAddr::spec_any() {
            t.iface_at(t.routes[j].iface).unicast
        } else {
            src
        };
        lemma_packet_reads_back(protocol, data, s, dst, id);
    }
}

/// Sending can be done: if the packet is handed to a device and its type is
/// handled, handling the queue with it comes to an end.
pub open spec fn send_ok(
    t: Tables,
    q: Seq<Frame>,
    protocol: u8,
    data: Seq<u8>,
    src: IpAddr,
    dst: IpAddr,
    id: u16,
) -> bool {
    let (res, id2) = ip_output_spec(t, protocol, data, src, dst, id);
    match res {
        Ok((d, p)) => net_handler(t.protocols, PROTOCOL_TYPE_IP) is Some ==> handling_ends(
            t,
            q.push(Frame { ty: PROTOCOL_TYPE_IP, data: p, dev: d }),
            id2,
        ),
        Err(_) => true,
    }
}

/// Sends `data` as protocol `protocol` from `src` (0.0.0.0: the address of
/// the outgoing interface) to `dst`, over the route for `dst`, through the
/// route's device (`Device::output`). A packet sent over a loopback device
/// is received and handled at once; the events of that handling are returned.
pub fn output(stack: &mut NetStack, protocol: u8, data: &[u8], src: IpAddr, dst: IpAddr) -> (r:
    Result<Vec<Event>, ()>)
    requires
        old(stack).wf(),
        queue_ok(old(stack).tables(), queue_view(old(stack).queue@)),
        send_ok(
            old(stack).tables(),
            queue_view(old(stack).queue@),
            protocol,
            data@,
            src,
            dst,
            old(stack).next_id,
        ),
    ensures
        final(stack).wf(),
        final(stack).tables() == old(stack).tables(),
        ({
            let (ev, q, id) = send_outcome(
                old(stack).tables(),
                queue_view(old(stack).queue@),
                protocol,
                data@,
                src,
                dst,
                old(stack).next_id,
            );
            &&& match r {
                Ok(evs) => ev == Some(events_view(evs@)),
                Err(()) => ev is None,
            }
            &&& queue_view(final(stack).queue@) == q
            &&& final(stack).next_id == id
        }),
{
    proof {
        stack.lemma_wf_tables();
        lemma_output_well_formed(stack.tables(), protocol, data@, src, dst, stack.next_id);
    }
    let (res, id2) = route_packet(&*stack, protocol, data, src, dst, stack.next_id);
    stack.next_id = id2;
    match res {
        Err(_) => Err(()),
        Ok((i, pkt, nexthop)) => output_device(stack, i, pkt.as_slice(), nexthop),
    }
}

/// Registers the IP layer as the handler of link-level type 0x0800.
pub fn init(stack: &mut NetStack) -> (r: Result<(), ()>)
    ensures
        r is Err <==> net_handler(old(stack).protocols@, PROTOCOL_TYPE_IP) is Some,
        r is Ok ==> final(stack).protocols@ == old(stack).protocols@.push(
            crate::net::NetProtocol { ty: PROTOCOL_TYPE_IP, handler: crate::net::ProtocolHandler::Ip },
        ),
        r is Err ==> final(stack).protocols@ == old(stack).protocols@,
        final(stack).devices@ == old(stack).devices@,
        final(stack).queue@ == old(stack).queue@,
        final(stack).ip_protocols@ == old(stack).ip_protocols@,
        final(stack).ifaces@ == old(stack).ifaces@,
        final(stack).routes@ == old(stack).routes@,
        final(stack).next_id == old(stack).next_id,
{
    crate::net::register_protocol(stack, PROTOCOL_TYPE_IP, crate::net::ProtocolHandler::Ip)
}

/// Whether the IP layer would accept this packet although its total length is
/// shorter than its header (such a packet cannot be handled).
pub fn is_malformed(stack: &NetStack, data: &[u8], dev: usize) -> (r: bool)
    requires
        stack.wf(),
        dev < stack.devices@.len(),
    ensures
        r == ip_input_malformed(stack.tables(), data@, dev),
{
    if check_packet(data).is_some() {
        return false;
    }
    if target_iface(stack, data, dev).is_none() {
        return false;
    }
    let (hlen, total) = packet_bounds(data);
    total < hlen
}

/// A packet the stack builds passes every check of the IP input.
pub proof fn lemma_built_packet_passes_checks(
    protocol: u8,
    data: Seq<u8>,
    src: IpAddr,
    dst: IpAddr,
    id: u16,
)
    requires
        20 + data.len() <= 0xffff,
    ensures
        ip_check(ip_packet_spec(protocol, data, src, dst, id)) is None,
{
    let b = ip_packet_spec(protocol, data, src, dst, id);
    lemma_packet_reads_back(protocol, data, src, dst, id);
    assert(hdr_offset(b) == 0);
    assert(0u16 & IP_HDR_FLAG_MF == 0 && 0u16 & IP_HDR_OFFSET_MASK == 0) by (bit_vector);
}

/// The broadcast address of an interface and its unicast address lie in its
/// subnet.
pub proof fn lemma_iface_subnet(unicast: IpAddr, mask: IpAddr)
    ensures
        same_subnet(unicast, unicast, mask),
        same_subnet(broadcast_of(unicast, mask), unicast, mask),
        same_subnet(network_of(unicast, mask), unicast, mask),
{
    let b = broadcast_of(unicast, mask);
    let n = network_of(unicast, mask);
    assert forall|i: int| 0 <= i < 4 implies #[trigger] (b.0[i] & mask.0[i]) == (unicast.0[i]
        & mask.0[i]) by {
        let u = unicast.0[i];
        let m = mask.0[i];
        assert((u | !m) & m == u & m) by (bit_vector);
    }
    assert forall|i: int| 0 <= i < 4 implies #[trigger] (n.0[i] & mask.0[i]) == (unicast.0[i]
        & mask.0[i]) by {
        let u = unicast.0[i];
        let m = mask.0[i];
        assert((u & m) & m == u & m) by (bit_vector);
    }
}


/// The number of bits set in a byte, bit by bit.
pub open spec fn bits_set(b: u8) -> int {
    (b & 1) + ((b >> 1) & 1) + ((b >> 2) & 1) + ((b >> 3) & 1) + ((b >> 4) & 1) + ((b >> 5) & 1)
        + ((b >> 6) & 1) + ((b >> 7) & 1)
}

/// `popcount8` counts the bits set in a byte, one for each bit position.
pub proof fn lemma_popcount8_counts_bits(b: u8)
    ensures
        popcount8(b) == bits_set(b),
    decreases b,
{
    if b == 0 {
        assert(bits_set(0u8) == 0) by (bit_vector);
    } else {
        let h: u8 = b / 2;
        lemma_popcount8_counts_bits(h);
        assert(bits_set(b) == (b % 2) + bits_set(h)) by (bit_vector)
            requires
                h == b / 2,
        ;
    }
}

/// A mask octet that keeps every bit of another and more has the larger
/// count; no bits count 0 and all eight count 8.
pub proof fn lemma_popcount8_order(a: u8, b: u8)
    ensures
        popcount8(0) == 0,
        popcount8(255) == 8,
        a & b == a && a != b ==> popcount8(a) < popcount8(b),
{
    lemma_popcount8_counts_bits(0);
    lemma_popcount8_counts_bits(255);
    lemma_popcount8_counts_bits(a);
    lemma_popcount8_counts_bits(b);
    assert(bits_set(255u8) == 8) by (bit_vector);
    assert(a & b == a && a != b ==> bits_set(a) < bits_set(b)) by (bit_vector);
}

/// A netmask that keeps every bit of another and more has the longer
/// prefix (255.255.240.0, a /20, is longer than 255.255.0.0, a /16), so a
/// route with it wins the lookup over the other when both match.
pub proof fn lemma_prefix_len_order(m1: IpAddr, m2: IpAddr)
    requires
        forall|i: int| 0 <= i < 4 ==> #[trigger] (m1.0[i] & m2.0[i]) == m1.0[i],
        m1 != m2,
    ensures
        prefix_len(m1) < prefix_len(m2),
{
    assert(exists|k: int| 0 <= k < 4 && m1.0[k] != m2.0[k]) by {
        if forall|k: int| 0 <= k < 4 ==> m1.0[k] == m2.0[k] {
            assert(m1.0 =~= m2.0);
        }
    }
    assert(m1.0[0] & m2.0[0] == m1.0[0]);
    assert(m1.0[1] & m2.0[1] == m1.0[1]);
    assert(m1.0[2] & m2.0[2] == m1.0[2]);
    assert(m1.0[3] & m2.0[3] == m1.0[3]);
    lemma_popcount8_order(m1.0[0], m2.0[0]);
    lemma_popcount8_order(m1.0[1], m2.0[1]);
    lemma_popcount8_order(m1.0[2], m2.0[2]);
    lemma_popcount8_order(m1.0[3], m2.0[3]);
}

/// The broadcast address of a subnet has every host bit set and keeps the
/// network bits of the unicast address.
pub proof fn lemma_broadcast_bits(unicast: IpAddr, mask: IpAddr)
    ensures
        forall|i: int|
            0 <= i < 4 ==> (#[trigger] broadcast_of(unicast, mask).0[i] & !mask.0[i]) == !mask.0[i]
                && (broadcast_of(unicast, mask).0[i] & mask.0[i]) == (unicast.0[i] & mask.0[i]),
{
    assert forall|i: int| 0 <= i < 4 implies (#[trigger] broadcast_of(unicast, mask).0[i]
        & !mask.0[i]) == !mask.0[i] && (broadcast_of(unicast, mask).0[i] & mask.0[i]) == (
    unicast.0[i] & mask.0[i]) by {
        let u = unicast.0[i];
        let m = mask.0[i];
        assert(broadcast_of(unicast, mask).0[i] == u | !m);
        assert((u | !m) & !m == !m && (u | !m) & m == u & m) by (bit_vector);
    }
}

/// The destination filter of IP input: on a device with an IP interface, a
/// packet addressed to that interface's unicast address, to its subnet
/// broadcast, or to 255.255.255.255 is taken by that interface; one to any
/// other address is not. A device without an IP interface takes nothing.
pub proof fn lemma_destination_filter(t: Tables, data: Seq<u8>, dev: usize)
    requires
        dev < t.devices.len(),
    ensures
        match crate::device::first_link(t.devices[dev as int].ifaces@, FAMILY_IP) {
            None => ip_target(t, data, dev) is None,
            Some(k) => {
                let idx = t.devices[dev as int].ifaces@[k].iface;
                let iface = t.ifaces[idx as int];
                let d = hdr_dst(data);
                &&& d == ip4(255, 255, 255, 255) ==> ip_target(t, data, dev) == Some(idx)
                &&& d == iface.unicast ==> ip_target(t, data, dev) == Some(idx)
                &&& d == iface.broadcast ==> ip_target(t, data, dev) == Some(idx)
                &&& d != ip4(255, 255, 255, 255) && d != iface.unicast && d != iface.broadcast
                    ==> ip_target(t, data, dev) is None
            },
        },
{
}

/// A packet that passes the checks and is addressed to 255.255.255.255 is
/// accepted by a device with an IP interface: the first thing reported is
/// its acceptance, with its source, destination, protocol and total length.
pub proof fn lemma_limited_broadcast_accepted(t: Tables, data: Seq<u8>, dev: usize, id: u16)
    requires
        dev < t.devices.len(),
        crate::device::first_link(t.devices[dev as int].ifaces@, FAMILY_IP) is Some,
        ip_check(data) is None,
        hdr_dst(data) == ip4(255, 255, 255, 255),
    ensures
        ip_target(t, data, dev) is Some,
        ip_input_spec(t, data, dev, id).0.len() > 0,
        ip_input_spec(t, data, dev, id).0[0] == (EventV::IpAccepted {
            src: hdr_src(data),
            dst: ip4(255, 255, 255, 255),
            protocol: data[9],
            total: hdr_total(data),
        }),
{
    lemma_destination_filter(t, data, dev);
}

/// The source of a packet that is sent: the given source, or for 0.0.0.0
/// the unicast address of the interface the route to `dst` leaves by; the
/// packet goes to that interface's device, to `dst`, with the protocol and
/// data given.
pub proof fn lemma_output_source(
    t: Tables,
    protocol: u8,
    data: Seq<u8>,
    src: IpAddr,
    dst: IpAddr,
    id: u16,
)
    ensures
        ip_output_spec(t, protocol, data, src, dst, id).0 matches Ok((d, p)) ==> {
            &&& best_route(t.routes, dst) is Some
            &&& ({
                let iface = t.ifaces[t.routes[best_route(t.routes, dst)->0].iface as int];
                &&& d == iface.dev
                &&& hdr_src(p) == (if src == ip4(0, 0, 0, 0) {
                    iface.unicast
                } else {
                    src
                })
            })
            &&& hdr_dst(p) == dst
            &&& p[9] == protocol
            &&& p.subrange(20, p.len() as int) == data
        },
{
    let (res, id2) = ip_output_spec(t, protocol, data, src, dst, id);
    if let Ok((d, p)) = res {
        let j = best_route(t.routes, dst)->0;
        let iface = t.ifaces[t.routes[j].iface as int];
        let s = if src == IpAddr::spec_any() {
            iface.unicast
        } else {
            src
        };
        lemma_packet_reads_back(protocol, data, s, dst, id);
    }
}

} // verus!
