use my_tcpip::util::{cksum16, cksum16_fits, HexDump};

// IP header (20 bytes) followed by an ICMP Echo Request (28 bytes).
const TEST_DATA: &[u8] = &[
    0x45, 0x00, 0x00, 0x30, 0x00, 0x80, 0x00, 0x00,
    0xff, 0x01, 0xbd, 0x4a, 0x7f, 0x00, 0x00, 0x01,
    0x7f, 0x00, 0x00, 0x01, 0x08, 0x00, 0x35, 0x64,
    0x00, 0x80, 0x00, 0x01, 0x31, 0x32, 0x33, 0x34,
    0x35, 0x36, 0x37, 0x38, 0x39, 0x30, 0x21, 0x40,
    0x23, 0x24, 0x25, 0x5e, 0x26, 0x2a, 0x28, 0x29,
];

#[test]
fn verify_ip_header_checksum() {
    assert_eq!(cksum16(&TEST_DATA[..20], 0), 0);
}

#[test]
fn verify_icmp_checksum() {
    assert_eq!(cksum16(&TEST_DATA[20..], 0), 0);
}

#[test]
fn compute_checksum() {
    let mut hdr = [0u8; 20];
    hdr.copy_from_slice(&TEST_DATA[..20]);
    hdr[10] = 0;
    hdr[11] = 0;
    let computed = cksum16(&hdr, 0);
    let original = u16::from_ne_bytes([TEST_DATA[10], TEST_DATA[11]]);
    assert_eq!(computed, original);
}

#[test]
fn checksum_empty() {
    assert_eq!(cksum16(&[], 0), 0xffff);
}

#[test]
fn checksum_split() {
    let part1 = &TEST_DATA[..10];
    let part2 = &TEST_DATA[10..20];
    let partial = cksum16(part1, 0);
    let combined = cksum16(part2, !partial as u32);
    let whole = cksum16(&TEST_DATA[..20], 0);
    assert_eq!(combined, whole);
}

#[test]
fn checksum_odd_length_counts_last_byte_low() {
    // one word 0x0201 plus a trailing byte 0x03: sum 0x0204, complement 0xfdfb
    assert_eq!(cksum16(&[0x01, 0x02, 0x03], 0), 0xfdfb);
}

#[test]
fn checksum_folds_carries() {
    // 0xffff + 0x0001 = 0x10000, folded to 0x0001, complement 0xfffe
    assert_eq!(cksum16(&[0xff, 0xff, 0x01, 0x00], 0), 0xfffe);
}

#[test]
fn checksum_start_value_is_added() {
    assert_eq!(cksum16(&[], 0x1234), !0x1234u16);
}

#[test]
fn checksum_written_into_field_verifies() {
    let mut msg = TEST_DATA[20..].to_vec();
    msg[2] = 0;
    msg[3] = 0;
    let c = cksum16(&msg, 0);
    msg[2..4].copy_from_slice(&c.to_le_bytes());
    assert_eq!(cksum16(&msg, 0), 0);
}

#[test]
fn hex_dump_of_short_data() {
    let text = HexDump(b"Hello, TCP/IP stack!").render();
    let expected = "+------+-------------------------------------------------+------------------+\n\
| 0000 | 48 65 6c 6c 6f 2c 20 54 43 50 2f 49 50 20 73 74 | Hello, TCP/IP st |\n\
| 0010 | 61 63 6b 21                                     | ack!             |\n\
+------+-------------------------------------------------+------------------+";
    assert_eq!(text, expected);
}

#[test]
fn hex_dump_shows_dots_for_control_bytes() {
    let text = HexDump(&[0x00, 0x41, 0x7f, 0x20]).render();
    assert!(text.contains("| 0000 | 00 41 7f 20 "));
    assert!(text.contains("| .A.              |"));
}

#[test]
fn hex_dump_of_nothing_is_two_borders() {
    let text = HexDump(&[]).render();
    assert_eq!(
        text,
        "+------+-------------------------------------------------+------------------+\n+------+-------------------------------------------------+------------------+"
    );
}

#[test]
fn checksum_sum_bound() {
    assert!(cksum16_fits(TEST_DATA, 0));
    assert!(cksum16_fits(&[], u32::MAX));
    assert!(!cksum16_fits(&[1], u32::MAX));
    assert!(!cksum16_fits(&[0xff, 0xff], u32::MAX - 0xfffe));
    assert!(cksum16_fits(&[0xff, 0xff], u32::MAX - 0xffff));
}
