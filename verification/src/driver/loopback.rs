//! The loopback driver: what a loopback device transmits comes straight back
//! as received input (while the stack handles its queue, see
//! `net::loopback_frame`).
use vstd::prelude::*;

use crate::device::{register, Device, Driver, Ops, FLAG_LOOPBACK, TYPE_LOOPBACK};
use crate::net::{input_handler, received_as, Event, NetStack};

verus! {

pub const LOOPBACK_MTU: u16 = 0xffff;

/// Creates and registers a loopback device (MTU 65535, down); returns its
/// position in the device table.
pub fn init(stack: &mut NetStack) -> (r: usize)
    requires
        old(stack).wf(),
        old(stack).devices@.len() < usize::MAX,
    ensures
        final(stack).wf(),
        r == old(stack).devices@.len(),
        final(stack).devices@.len() == old(stack).devices@.len() + 1,
        forall|i: int| 0 <= i < r ==> final(stack).devices@[i] == old(stack).devices@[i],
        final(stack).devices@[r as int].index == r,
        final(stack).devices@[r as int].name@ == crate::device::device_name(r as nat),
        final(stack).devices@[r as int].ty == TYPE_LOOPBACK,
        final(stack).devices@[r as int].mtu == LOOPBACK_MTU,
        final(stack).devices@[r as int].flags == FLAG_LOOPBACK,
        final(stack).devices@[r as int].ifaces@.len() == 0,
        final(stack).devices@[r as int].ops == Driver::Loopback,
        final(stack).protocols@ == old(stack).protocols@,
        final(stack).queue@ == old(stack).queue@,
        final(stack).ip_protocols@ == old(stack).ip_protocols@,
        final(stack).ifaces@ == old(stack).ifaces@,
        final(stack).routes@ == old(stack).routes@,
        final(stack).next_id == old(stack).next_id,
{
    let dev = Device::new(TYPE_LOOPBACK, LOOPBACK_MTU, FLAG_LOOPBACK, Driver::Loopback);
    let r = register(&mut stack.devices, dev);
    proof {
        let s = *stack;
        assert forall|d: int, k: int|
            0 <= d < s.devices@.len() && 0 <= k < s.devices@[d].ifaces@.len()
                && #[trigger] s.devices@[d].ifaces@[k].family == crate::device::FAMILY_IP implies s.devices@[d].ifaces@[k].iface
            < s.ifaces@.len() by {
            assert(d < r);
            assert(s.devices@[d] == old(stack).devices@[d]);
        }
    }
    r
}

/// The loopback driver: opening and closing always succeed, and a frame it
/// transmits comes straight back as received on the same device
/// (`net::input_handler`); there is no link-level destination to use.
pub struct LoopbackOps;

impl Ops for LoopbackOps {
    fn open(&self, dev: &Device) -> (r: Result<(), ()>)
        ensures
            r is Ok,
    {
        let _ = dev;
        Ok(())
    }

    fn close(&self, dev: &Device) -> (r: Result<(), ()>)
        ensures
            r is Ok,
    {
        let _ = dev;
        Ok(())
    }

    fn transmit(&self, stack: &mut NetStack, dev: usize, ty: u16, data: &[u8], dst: &[u8]) -> (r:
        Result<Vec<Event>, ()>)
        ensures
            received_as(*old(stack), *final(stack), r, ty, data@, dev),
    {
        let _ = dst;
        input_handler(stack, ty, data, dev)
    }
}

} // verus!
