use my_tcpip::device::{self, Device, Driver, Ops, FLAG_LOOPBACK, FLAG_UP, TYPE_LOOPBACK};
use my_tcpip::driver::loopback;
use my_tcpip::icmp::{self, IcmpDrop, ICMP_TYPE_DEST_UNREACH, ICMP_TYPE_ECHO, ICMP_TYPE_ECHO_REPLY};
use my_tcpip::ip::{self, IpAddr, IpDrop, IpHdr, TxError, IP_PROTOCOL_ICMP, IP_PROTOCOL_UDP};
use my_tcpip::net::{self, Event, NetStack, ProtocolHandler, PROTOCOL_TYPE_IP};
use my_tcpip::util::cksum16;

fn loopback_stack() -> (NetStack, usize, usize) {
    let mut stack = NetStack::new(0x1000);
    net::init(&mut stack).expect("init failed");
    let lo = loopback::init(&mut stack);
    let iface = ip::iface_register(&mut stack, lo, "127.0.0.1", "255.0.0.0").expect("iface");
    net::run(&mut stack).expect("run failed");
    (stack, lo, iface)
}

fn echo_request(id: u16, seq: u16, payload: &[u8]) -> Vec<u8> {
    let mut buf = vec![0u8; 8 + payload.len()];
    buf[0] = ICMP_TYPE_ECHO;
    buf[4..6].copy_from_slice(&id.to_be_bytes());
    buf[6..8].copy_from_slice(&seq.to_be_bytes());
    buf[8..].copy_from_slice(payload);
    let sum = cksum16(&buf, 0);
    buf[2..4].copy_from_slice(&sum.to_le_bytes());
    buf
}

const LOCALHOST: IpAddr = IpAddr([127, 0, 0, 1]);

#[test]
fn ping_over_loopback_gets_echo_reply() {
    let (mut stack, _lo, iface) = loopback_stack();
    assert_eq!(stack.ifaces[iface].unicast(), LOCALHOST);
    assert_eq!(stack.ifaces[iface].netmask(), IpAddr([255, 0, 0, 0]));
    assert_eq!(stack.ifaces[iface].broadcast(), IpAddr([127, 255, 255, 255]));
    let req = echo_request(0x1234, 1, b"ping!hello");
    let events = ip::output(&mut stack, IP_PROTOCOL_ICMP, &req, LOCALHOST, LOCALHOST).unwrap();
    assert_eq!(events.len(), 4);
    match &events[0] {
        Event::IpAccepted { src, dst, protocol, total } => {
            assert_eq!(*src, LOCALHOST);
            assert_eq!(*dst, LOCALHOST);
            assert_eq!(*protocol, IP_PROTOCOL_ICMP);
            assert_eq!(*total, 38);
        }
        e => panic!("unexpected {:?}", e),
    }
    match &events[1] {
        Event::IcmpReceived { ty, code, values, data, .. } => {
            assert_eq!(*ty, ICMP_TYPE_ECHO);
            assert_eq!(*code, 0);
            assert_eq!(*values, 0x1234_0001);
            assert_eq!(data.as_slice(), b"ping!hello");
        }
        e => panic!("unexpected {:?}", e),
    }
    assert!(matches!(events[2], Event::IpAccepted { protocol: IP_PROTOCOL_ICMP, total: 38, .. }));
    match &events[3] {
        Event::IcmpReceived { src, dst, ty, code, values, data } => {
            assert_eq!(*src, LOCALHOST);
            assert_eq!(*dst, LOCALHOST);
            assert_eq!(*ty, ICMP_TYPE_ECHO_REPLY);
            assert_eq!(*code, 0);
            assert_eq!(*values, 0x1234_0001);
            assert_eq!(data.as_slice(), b"ping!hello");
        }
        e => panic!("unexpected {:?}", e),
    }
    assert!(stack.queue.is_empty());
    // two packets were sent: the request and the reply
    assert_eq!(stack.next_id, 0x1002);
    net::shutdown(&mut stack);
    assert!(!stack.devices[0].is_up());
}

#[test]
fn icmp_output_sends_echo_and_receives_reply() {
    let (mut stack, _lo, _iface) = loopback_stack();
    let events = icmp::output(&mut stack, ICMP_TYPE_ECHO, 0, 0x0007_0009, b"abc", IpAddr([0, 0, 0, 0]), LOCALHOST).unwrap();
    let replies: Vec<_> = events
        .iter()
        .filter(|e| matches!(e, Event::IcmpReceived { ty: ICMP_TYPE_ECHO_REPLY, values: 0x0007_0009, .. }))
        .collect();
    assert_eq!(replies.len(), 1);
}

#[test]
fn unknown_protocol_draws_destination_unreachable() {
    let (mut stack, _lo, _iface) = loopback_stack();
    let payload = [1u8, 2, 3, 4, 5, 6, 7, 8, 9, 10];
    let events = ip::output(&mut stack, IP_PROTOCOL_UDP, &payload, LOCALHOST, LOCALHOST).unwrap();
    assert_eq!(events.len(), 3);
    assert!(matches!(events[0], Event::IpAccepted { protocol: IP_PROTOCOL_UDP, total: 30, .. }));
    assert!(matches!(events[1], Event::IpAccepted { protocol: IP_PROTOCOL_ICMP, .. }));
    match &events[2] {
        Event::IcmpReceived { ty, code, data, .. } => {
            assert_eq!(*ty, ICMP_TYPE_DEST_UNREACH);
            assert_eq!(*code, icmp::ICMP_CODE_PROTO_UNREACH);
            // the quoted IP header and the first 8 bytes of its data
            assert_eq!(data.len(), 28);
            assert_eq!(&data[20..], &payload[..8]);
            assert_eq!(data[9], IP_PROTOCOL_UDP);
        }
        e => panic!("unexpected {:?}", e),
    }
}

#[test]
fn application_ip_handler_gets_the_data() {
    let (mut stack, _lo, iface) = loopback_stack();
    ip::register_protocol(&mut stack, IP_PROTOCOL_UDP, ip::ProtocolHandler::Application(7)).unwrap();
    assert!(ip::register_protocol(&mut stack, IP_PROTOCOL_UDP, ip::ProtocolHandler::Application(8)).is_err());
    let events = ip::output(&mut stack, IP_PROTOCOL_UDP, b"data", LOCALHOST, LOCALHOST).unwrap();
    assert_eq!(events.len(), 2);
    match &events[1] {
        Event::IpDelivered { handler, protocol, iface: i, src, dst, data } => {
            assert_eq!(*handler, 7);
            assert_eq!(*protocol, IP_PROTOCOL_UDP);
            assert_eq!(*i, iface);
            assert_eq!(*src, LOCALHOST);
            assert_eq!(*dst, LOCALHOST);
            assert_eq!(data.as_slice(), b"data");
        }
        e => panic!("unexpected {:?}", e),
    }
}

#[test]
fn application_link_handler_gets_frames() {
    let mut stack = NetStack::new(0);
    let lo = loopback::init(&mut stack);
    net::register_protocol(&mut stack, 0x9999, ProtocolHandler::Application(1)).unwrap();
    assert!(net::register_protocol(&mut stack, 0x9999, ProtocolHandler::Application(2)).is_err());
    let events = net::input_handler(&mut stack, 0x9999, b"frame", lo).unwrap();
    assert_eq!(events.len(), 1);
    match &events[0] {
        Event::NetDelivered { handler, ty, dev, data } => {
            assert_eq!((*handler, *ty, *dev), (1, 0x9999, lo));
            assert_eq!(data.as_slice(), b"frame");
        }
        e => panic!("unexpected {:?}", e),
    }
}

#[test]
fn frame_of_unhandled_type_is_dropped() {
    let mut stack = NetStack::new(0);
    let lo = loopback::init(&mut stack);
    let events = net::input_handler(&mut stack, 0x1111, b"x", lo).unwrap();
    assert!(events.is_empty());
    assert!(stack.queue.is_empty());
}

#[test]
fn frame_from_unregistered_device_is_refused() {
    let mut stack = NetStack::new(0);
    net::register_protocol(&mut stack, 0x9999, ProtocolHandler::Application(1)).unwrap();
    assert!(net::input_handler(&mut stack, 0x9999, b"x", 5).is_err());
}

fn ip_packet(protocol: u8, data: &[u8], src: IpAddr, dst: IpAddr) -> Vec<u8> {
    ip::build_packet(protocol, data, src, dst, 77).unwrap()
}

fn dropped(stack: &mut NetStack, lo: usize, pkt: &[u8]) -> IpDrop {
    let events = net::input_handler(stack, PROTOCOL_TYPE_IP, pkt, lo).unwrap();
    assert_eq!(events.len(), 1);
    match events[0] {
        Event::IpDropped { dev, reason } => {
            assert_eq!(dev, lo);
            reason
        }
        ref e => panic!("unexpected {:?}", e),
    }
}

#[test]
fn ip_input_drops_bad_packets() {
    let (mut stack, lo, _iface) = loopback_stack();
    assert_eq!(dropped(&mut stack, lo, &[0x45; 10]), IpDrop::TooShort);
    let good = ip_packet(IP_PROTOCOL_UDP, b"abcd", LOCALHOST, LOCALHOST);
    let mut v6 = good.clone();
    v6[0] = 0x65;
    assert_eq!(dropped(&mut stack, lo, &v6), IpDrop::NotIpv4);
    let mut long_hdr = good.clone();
    long_hdr[0] = 0x4f;
    assert_eq!(dropped(&mut stack, lo, &long_hdr), IpDrop::HeaderTruncated);
    let mut long_total = good.clone();
    long_total[3] = 0xff;
    assert_eq!(dropped(&mut stack, lo, &long_total), IpDrop::TotalTruncated);
    let mut bad_sum = good.clone();
    bad_sum[10] ^= 1;
    assert_eq!(dropped(&mut stack, lo, &bad_sum), IpDrop::ChecksumError);
    let frag = {
        let mut p = good.clone();
        p[6] = 0x20; // more fragments
        p[10] = 0;
        p[11] = 0;
        let c = cksum16(&p[..20], 0);
        p[10..12].copy_from_slice(&c.to_le_bytes());
        p
    };
    assert_eq!(dropped(&mut stack, lo, &frag), IpDrop::Fragmented);
}

#[test]
fn packet_for_another_host_is_ignored() {
    let (mut stack, lo, _iface) = loopback_stack();
    let pkt = ip_packet(IP_PROTOCOL_UDP, b"abcd", LOCALHOST, IpAddr([10, 0, 0, 1]));
    let events = net::input_handler(&mut stack, PROTOCOL_TYPE_IP, &pkt, lo).unwrap();
    assert!(events.is_empty());
}

#[test]
fn packet_to_subnet_broadcast_is_accepted() {
    let (mut stack, lo, _iface) = loopback_stack();
    ip::register_protocol(&mut stack, IP_PROTOCOL_UDP, ip::ProtocolHandler::Application(3)).unwrap();
    let pkt = ip_packet(IP_PROTOCOL_UDP, b"abcd", LOCALHOST, IpAddr([127, 255, 255, 255]));
    let events = net::input_handler(&mut stack, PROTOCOL_TYPE_IP, &pkt, lo).unwrap();
    assert!(matches!(events[1], Event::IpDelivered { handler: 3, .. }));
}

#[test]
fn icmp_with_bad_checksum_is_dropped() {
    let (mut stack, lo, _iface) = loopback_stack();
    let mut req = echo_request(1, 1, b"zz");
    req[2] ^= 0xff;
    let pkt = ip_packet(IP_PROTOCOL_ICMP, &req, LOCALHOST, LOCALHOST);
    let events = net::input_handler(&mut stack, PROTOCOL_TYPE_IP, &pkt, lo).unwrap();
    assert!(matches!(events[1], Event::IcmpDropped { reason: IcmpDrop::ChecksumError }));
    let short = ip_packet(IP_PROTOCOL_ICMP, &[8, 0, 0], LOCALHOST, LOCALHOST);
    let events = net::input_handler(&mut stack, PROTOCOL_TYPE_IP, &short, lo).unwrap();
    assert!(matches!(events[1], Event::IcmpDropped { reason: IcmpDrop::TooShort }));
}

#[test]
fn reply_without_route_is_reported() {
    let (mut stack, lo, _iface) = loopback_stack();
    let req = echo_request(5, 6, b"q");
    let pkt = ip_packet(IP_PROTOCOL_ICMP, &req, IpAddr([10, 0, 0, 1]), LOCALHOST);
    let events = net::input_handler(&mut stack, PROTOCOL_TYPE_IP, &pkt, lo).unwrap();
    assert_eq!(events.len(), 3);
    assert!(matches!(events[2], Event::OutputFailed { reason: TxError::NoRoute }));
}

#[test]
fn output_errors() {
    let (mut stack, _lo, _iface) = loopback_stack();
    assert!(ip::output(&mut stack, IP_PROTOCOL_UDP, b"x", LOCALHOST, IpAddr([10, 0, 0, 1])).is_err());
    assert!(ip::output(&mut stack, IP_PROTOCOL_UDP, b"x", IpAddr([0, 0, 0, 0]), IpAddr([255, 255, 255, 255])).is_err());
    let big = vec![0u8; 65535 - 19];
    assert!(ip::output(&mut stack, IP_PROTOCOL_UDP, &big, LOCALHOST, LOCALHOST).is_err());
    net::shutdown(&mut stack);
    assert!(ip::output(&mut stack, IP_PROTOCOL_UDP, b"x", LOCALHOST, LOCALHOST).is_err());
}

#[test]
fn longest_prefix_wins() {
    let (mut stack, _lo, iface) = loopback_stack();
    ip::set_default_gateway(&mut stack, iface, IpAddr([192, 168, 1, 1])).unwrap();
    ip::route_add(&mut stack, IpAddr([127, 0, 0, 0]), IpAddr([255, 255, 0, 0]), IpAddr([127, 0, 0, 9]), iface).unwrap();
    let r = ip::route_lookup(&stack, IpAddr([8, 8, 8, 8])).unwrap();
    assert_eq!(r.nexthop, IpAddr([192, 168, 1, 1]));
    let r = ip::route_lookup(&stack, IpAddr([127, 0, 3, 4])).unwrap();
    assert_eq!(r.netmask, IpAddr([255, 255, 0, 0]));
    let r = ip::route_lookup(&stack, IpAddr([127, 1, 3, 4])).unwrap();
    assert_eq!(r.netmask, IpAddr([255, 0, 0, 0]));
}

#[test]
fn no_route_without_match() {
    let (stack, _lo, _iface) = loopback_stack();
    assert!(ip::route_lookup(&stack, IpAddr([10, 0, 0, 1])).is_none());
}

#[test]
fn iface_register_checks() {
    let mut stack = NetStack::new(0);
    let lo = loopback::init(&mut stack);
    assert!(ip::iface_register(&mut stack, lo, "127.0.0.256", "255.0.0.0").is_err());
    assert!(ip::iface_register(&mut stack, lo, "127.0.0.1", "255.0.0").is_err());
    let i = ip::iface_register(&mut stack, lo, "10.1.2.3", "255.255.255.0").unwrap();
    assert_eq!(stack.ifaces[i].broadcast, IpAddr([10, 1, 2, 255]));
    assert_eq!(stack.routes[0].network, IpAddr([10, 1, 2, 0]));
    assert_eq!(stack.routes[0].nexthop, IpAddr([0, 0, 0, 0]));
    assert!(stack.ifaces[i].contains(IpAddr([10, 1, 2, 200])));
    assert!(!stack.ifaces[i].contains(IpAddr([10, 1, 3, 200])));
    assert!(ip::iface_register(&mut stack, lo, "10.1.2.4", "255.255.255.0").is_err());
    assert_eq!(stack.ifaces.len(), 1);
    assert_eq!(ip::iface_select(&stack, IpAddr([10, 1, 2, 3])), Some(i));
    assert_eq!(ip::iface_select(&stack, IpAddr([10, 1, 2, 4])), None);
    let link = stack.devices[lo].get_iface(device::FAMILY_IP).unwrap();
    assert_eq!(link.iface, i);
}

#[test]
fn parses_dotted_decimal() {
    assert_eq!(ip::parse_addr("192.168.0.1"), Some(IpAddr([192, 168, 0, 1])));
    assert_eq!(ip::parse_addr("+1.002.3.255"), Some(IpAddr([1, 2, 3, 255])));
    assert_eq!(ip::parse_addr("1.2.3"), None);
    assert_eq!(ip::parse_addr("1.2.3.4.5"), None);
    assert_eq!(ip::parse_addr("1.2.3.4."), None);
    assert_eq!(ip::parse_addr("1..3.4"), None);
    assert_eq!(ip::parse_addr("256.1.1.1"), None);
    assert_eq!(ip::parse_addr("-1.1.1.1"), None);
    assert_eq!(ip::parse_addr("+.1.1.1"), None);
    assert_eq!(ip::parse_addr(""), None);
    assert_eq!(ip::parse_addr("a.b.c.d"), None);
    assert_eq!("10.0.0.1".parse::<IpAddr>(), Ok(IpAddr([10, 0, 0, 1])));
    assert_eq!("10.0.0".parse::<IpAddr>(), Err(()));
}

const TEST_DATA: &[u8] = &[
    0x45, 0x00, 0x00, 0x30, 0x00, 0x80, 0x00, 0x00,
    0xff, 0x01, 0xbd, 0x4a, 0x7f, 0x00, 0x00, 0x01,
    0x7f, 0x00, 0x00, 0x01, 0x08, 0x00, 0x35, 0x64,
    0x00, 0x80, 0x00, 0x01, 0x31, 0x32, 0x33, 0x34,
    0x35, 0x36, 0x37, 0x38, 0x39, 0x30, 0x21, 0x40,
    0x23, 0x24, 0x25, 0x5e, 0x26, 0x2a, 0x28, 0x29,
];

#[test]
fn reads_ip_header_fields() {
    assert!(IpHdr::new(&TEST_DATA[..19]).is_none());
    let h = IpHdr::new(TEST_DATA).unwrap();
    assert_eq!(h.vhl(), 0x45);
    assert_eq!(h.version(), 4);
    assert_eq!(h.ihl(), 5);
    assert_eq!(h.hlen(), 20);
    assert_eq!(h.tos(), 0);
    assert_eq!(h.total(), 48);
    assert_eq!(h.id(), 0x0080);
    assert_eq!(h.offset(), 0);
    assert_eq!(h.ttl(), 255);
    assert_eq!(h.protocol(), 1);
    assert_eq!(h.sum(), 0xbd4a);
    assert_eq!(h.src(), LOCALHOST);
    assert_eq!(h.dst(), LOCALHOST);
    assert_eq!(h.as_bytes(), &TEST_DATA[..20]);
}

#[test]
fn reads_icmp_echo_fields() {
    let msg = &TEST_DATA[20..];
    let c = icmp::IcmpCommon::new(msg).unwrap();
    assert_eq!(c.ty(), 8);
    assert_eq!(c.code(), 0);
    assert_eq!(c.sum(), 0x3564);
    assert_eq!(c.dep(), 0x0080_0001);
    let e = icmp::IcmpEcho::new(msg).unwrap();
    assert_eq!(e.id(), 0x0080);
    assert_eq!(e.seq(), 1);
    assert!(icmp::IcmpEcho::new(&msg[..7]).is_none());
    assert_eq!(icmp::icmp_type_name(0), "EchoReply");
    assert_eq!(icmp::icmp_type_name(3), "DestinationUnreachable");
    assert_eq!(icmp::icmp_type_name(42), "Unknown");
}

#[test]
fn built_packet_reads_back() {
    let pkt = ip::build_packet(17, b"hello", IpAddr([1, 2, 3, 4]), IpAddr([5, 6, 7, 8]), 0xbeef).unwrap();
    assert_eq!(pkt.len(), 25);
    let h = IpHdr::new(&pkt).unwrap();
    assert_eq!(h.version(), 4);
    assert_eq!(h.hlen(), 20);
    assert_eq!(h.total(), 25);
    assert_eq!(h.id(), 0xbeef);
    assert_eq!(h.ttl(), 255);
    assert_eq!(h.protocol(), 17);
    assert_eq!(h.src(), IpAddr([1, 2, 3, 4]));
    assert_eq!(h.dst(), IpAddr([5, 6, 7, 8]));
    assert_eq!(cksum16(&pkt[..20], 0), 0);
    assert_eq!(&pkt[20..], b"hello");
    assert!(ip::build_packet(17, &vec![0u8; 65516], IpAddr([0; 4]), IpAddr([0; 4]), 0).is_err());
}

#[test]
fn built_message_verifies() {
    let m = icmp::build_message(8, 0, 0x01020304, b"xyz");
    assert_eq!(&m[..2], &[8, 0]);
    assert_eq!(&m[4..8], &[1, 2, 3, 4]);
    assert_eq!(&m[8..], b"xyz");
    assert_eq!(cksum16(&m, 0), 0);
}

#[test]
fn device_state() {
    let mut d = Device::new(TYPE_LOOPBACK, 100, FLAG_LOOPBACK, Driver::Loopback);
    assert!(!d.is_up());
    assert_eq!(d.state_str(), "DOWN");
    assert!(d.check_output(0x0800, b"x", &[]).is_err());
    assert!(d.close().is_err());
    d.open().unwrap();
    assert!(d.is_up());
    assert_eq!(d.flags(), FLAG_LOOPBACK | FLAG_UP);
    assert_eq!(d.state_str(), "UP");
    assert!(d.open().is_err());
    assert!(d.check_output(0x0800, &[0u8; 100], &[]).is_ok());
    assert!(d.check_output(0x0800, &[0u8; 101], &[]).is_err());
    d.close().unwrap();
    assert_eq!(d.flags(), FLAG_LOOPBACK);
}

#[test]
fn device_registration_names_devices() {
    let mut devs = Vec::new();
    for _ in 0..12 {
        device::register(&mut devs, Device::new(TYPE_LOOPBACK, 1500, 0, Driver::Loopback));
    }
    assert_eq!(devs[0].name, "net0");
    assert_eq!(devs[11].name, "net11");
    assert_eq!(devs[11].index, 11);
    assert_eq!(device::by_index(&devs, 3).unwrap().name, "net3");
    assert!(device::by_index(&devs, 12).is_none());
    let mtus = device::foreach(&devs, |d| d.mtu);
    assert_eq!(mtus, vec![1500; 12]);
    assert!(device::try_foreach(&devs, |d| if d.index < 20 { Ok(()) } else { Err(()) }).is_ok());
    assert!(device::try_foreach(&devs, |d| if d.index < 5 { Ok(()) } else { Err(()) }).is_err());
}

#[test]
fn iface_per_family_once() {
    let mut d = Device::new(TYPE_LOOPBACK, 100, 0, Driver::Loopback);
    d.add_iface(device::IfaceLink { family: device::FAMILY_IP, iface: 0 }).unwrap();
    d.add_iface(device::IfaceLink { family: device::FAMILY_IPV6, iface: 0 }).unwrap();
    assert!(d.add_iface(device::IfaceLink { family: device::FAMILY_IP, iface: 1 }).is_err());
    assert_eq!(d.get_iface(device::FAMILY_IP).unwrap().iface, 0);
    assert!(d.get_iface(7).is_none());
}

#[test]
fn run_stops_at_device_already_up() {
    let mut stack = NetStack::new(0);
    let a = loopback::init(&mut stack);
    let b = loopback::init(&mut stack);
    let c = loopback::init(&mut stack);
    stack.devices[b].open().unwrap();
    assert!(net::run(&mut stack).is_err());
    assert!(stack.devices[a].is_up());
    assert!(stack.devices[b].is_up());
    assert!(!stack.devices[c].is_up());
    net::shutdown(&mut stack);
    assert!(stack.devices.iter().all(|d| !d.is_up()));
}

#[test]
fn init_registers_once() {
    let mut stack = NetStack::new(0);
    assert!(net::handling_terminates(&stack));
    net::init(&mut stack).unwrap();
    assert!(net::handling_terminates(&stack));
    assert!(net::init(&mut stack).is_err());
    assert_eq!(stack.protocols.len(), 1);
    assert_eq!(stack.ip_protocols.len(), 1);
}

#[test]
fn ip_without_icmp_leaves_replies_unbounded() {
    let mut stack = NetStack::new(0);
    ip::init(&mut stack).unwrap();
    assert!(!net::handling_terminates(&stack));
    icmp::init(&mut stack).unwrap();
    assert!(net::handling_terminates(&stack));
    assert!(icmp::init(&mut stack).is_err());
}

#[test]
fn short_total_length_is_flagged() {
    let (stack, lo, _iface) = loopback_stack();
    let mut pkt = ip_packet(IP_PROTOCOL_UDP, b"abcd", LOCALHOST, LOCALHOST);
    pkt[2] = 0;
    pkt[3] = 10; // total 10 < header 20
    pkt[10] = 0;
    pkt[11] = 0;
    let c = cksum16(&pkt[..20], 0);
    pkt[10..12].copy_from_slice(&c.to_le_bytes());
    assert!(!net::frame_ok(&stack, PROTOCOL_TYPE_IP, &pkt, lo));
    let good = ip_packet(IP_PROTOCOL_UDP, b"abcd", LOCALHOST, LOCALHOST);
    assert!(net::frame_ok(&stack, PROTOCOL_TYPE_IP, &good, lo));
}

#[test]
fn ip_without_icmp_delivers_to_application() {
    let mut stack = NetStack::new(0x10);
    ip::init(&mut stack).unwrap();
    let lo = loopback::init(&mut stack);
    ip::iface_register(&mut stack, lo, "127.0.0.1", "255.0.0.0").unwrap();
    net::run(&mut stack).unwrap();
    ip::register_protocol(&mut stack, IP_PROTOCOL_UDP, ip::ProtocolHandler::Application(3)).unwrap();
    assert!(!net::handling_terminates(&stack));
    let events = ip::output(&mut stack, IP_PROTOCOL_UDP, b"udp", LOCALHOST, LOCALHOST).unwrap();
    assert_eq!(events.len(), 2);
    assert!(matches!(events[0], Event::IpAccepted { protocol: IP_PROTOCOL_UDP, total: 23, .. }));
    match &events[1] {
        Event::IpDelivered { handler, data, .. } => {
            assert_eq!(*handler, 3);
            assert_eq!(data.as_slice(), b"udp");
        }
        e => panic!("unexpected {:?}", e),
    }
    assert!(stack.queue.is_empty());
    assert_eq!(stack.next_id, 0x11);
}

#[test]
fn output_hands_frame_to_driver() {
    let mut stack = NetStack::new(0);
    let lo = loopback::init(&mut stack);
    net::register_protocol(&mut stack, 0x9999, ProtocolHandler::Application(4)).unwrap();
    // down: the driver is not called
    assert!(Device::output(&mut stack, lo, 0x9999, b"frame", &[]).is_err());
    net::run(&mut stack).unwrap();
    let events = Device::output(&mut stack, lo, 0x9999, b"frame", &[]).unwrap();
    assert_eq!(events.len(), 1);
    match &events[0] {
        Event::NetDelivered { handler, ty, dev, data } => {
            assert_eq!((*handler, *ty, *dev), (4, 0x9999, lo));
            assert_eq!(data.as_slice(), b"frame");
        }
        e => panic!("unexpected {:?}", e),
    }
    // a frame of a type nobody handles is taken and dropped
    assert!(Device::output(&mut stack, lo, 0x1111, b"x", &[]).unwrap().is_empty());
}

#[test]
fn output_refuses_frame_over_mtu() {
    let mut stack = NetStack::new(0);
    let lo = loopback::init(&mut stack);
    net::register_protocol(&mut stack, 0x9999, ProtocolHandler::Application(4)).unwrap();
    net::run(&mut stack).unwrap();
    let big = vec![0u8; 65536];
    assert!(Device::output(&mut stack, lo, 0x9999, &big, &[]).is_err());
    let most = vec![0u8; 65535];
    let events = Device::output(&mut stack, lo, 0x9999, &most, &[]).unwrap();
    assert_eq!(events.len(), 1);
}

#[test]
fn loopback_transmit_receives_the_frame() {
    let mut stack = NetStack::new(0);
    let lo = loopback::init(&mut stack);
    net::register_protocol(&mut stack, 0x9999, ProtocolHandler::Application(6)).unwrap();
    let events = loopback::LoopbackOps.transmit(&mut stack, lo, 0x9999, b"back", &[1, 2]).unwrap();
    match &events[..] {
        [Event::NetDelivered { handler: 6, ty: 0x9999, dev, data }] => {
            assert_eq!(*dev, lo);
            assert_eq!(data.as_slice(), b"back");
        }
        e => panic!("unexpected {:?}", e),
    }
}

#[test]
fn address_text_reads_back() {
    for a in [IpAddr([127, 0, 0, 1]), IpAddr([0, 0, 0, 0]), IpAddr([255, 255, 255, 255]), IpAddr([10, 20, 100, 9])] {
        let t = a.to_text();
        assert_eq!(t.parse::<IpAddr>(), Ok(a));
    }
    assert_eq!(IpAddr([192, 168, 0, 10]).to_text(), "192.168.0.10");
    assert_eq!(IpAddr([0, 0, 0, 0]).to_text(), "0.0.0.0");
}

#[test]
fn endpoint_text() {
    assert_eq!(ip::IpEndp::new(LOCALHOST, 7).to_text(), "127.0.0.1:7");
    assert_eq!(ip::IpEndp::new(IpAddr([10, 0, 0, 255]), 65535).to_text(), "10.0.0.255:65535");
}
