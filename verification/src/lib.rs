//! A small TCP/IP protocol stack: devices, protocol dispatch, IPv4 and ICMP.
pub mod device;
pub mod driver;
pub mod icmp;
pub mod ip;
pub mod net;
pub mod util;
