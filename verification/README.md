# my_tcpip

A small TCP/IP protocol stack written in Verus: network devices with a
loopback driver, link-level protocol dispatch through an input queue, IPv4
(address parsing, header parsing, interfaces, longest-prefix routing, packet
building) and ICMP (Echo Reply, Destination Unreachable), with the RFC 1071
checksum and a hex dump.

All state lives in a `net::NetStack` value: the device table, the protocol
registries, the input queue, the IP interfaces and routes, and the
identification of the next IP packet. Handling received frames is specified
as a function of that state: `net::drain_spec` gives, for a queue of frames,
the events the stack reports (`net::Event`) and the identification numbers it
uses, for every queue whose handling comes to an end (`net::handling_ends`);
that is proved of every queue once ICMP is registered. Sending goes through
`device::Device::output`: the device's checks, then its driver's transmit
(`device::Ops`, implemented by the loopback driver's `LoopbackOps`).

Layout:

- `src/util.rs` — checksum (`cksum16`) and its laws, decimal and hex text, hex dump
- `src/device.rs` — devices, their interfaces, the driver trait `Ops`, registration
- `src/driver/loopback.rs` — the loopback driver (`LoopbackOps`) and device
- `src/net.rs` — the stack state, link-level dispatch, the input queue, lifecycle
- `src/ip.rs` — IPv4, with the dotted-decimal text of addresses
- `src/icmp.rs` — ICMP
- `tests/` — tests of the library
- `app/main.rs` — sends a ping over the loopback device and logs what happens
