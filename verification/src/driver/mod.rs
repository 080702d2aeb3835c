//! Device drivers.
pub mod loopback;
