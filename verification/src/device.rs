//! Network devices: their state (up or down), their logical interfaces and
//! the table of registered devices.
use vstd::prelude::*;

use crate::driver::loopback::LoopbackOps;
use crate::net::{queue_ok, queue_view, receive_ok, received_as, Event, NetStack};
use crate::util::{decimal, push_char, push_decimal};

verus! {

pub const ADDR_LEN: usize = 16;

pub const TYPE_DUMMY: u16 = 0x0000;

pub const TYPE_LOOPBACK: u16 = 0x0001;

pub const TYPE_ETHERNET: u16 = 0x0002;

pub const FLAG_UP: u16 = 0x0001;

pub const FLAG_LOOPBACK: u16 = 0x0010;

pub const FLAG_BROADCAST: u16 = 0x0020;

pub const FLAG_P2P: u16 = 0x0040;

pub const FLAG_NEED_ARP: u16 = 0x0100;

pub const FAMILY_IP: u16 = 1;

pub const FAMILY_IPV6: u16 = 2;

/// What a device driver does: bring a device up and down (either may be
/// refused) and transmit a frame. `transmit` gets the whole stack, since a
/// driver may hand the frame straight back as received (the loopback driver
/// does); so a frame comes with what receiving it would need. Whatever a
/// driver does, the stack stays well formed and its tables unchanged.
pub trait Ops {
    fn open(&self, dev: &Device) -> (r: Result<(), ()>);

    fn close(&self, dev: &Device) -> (r: Result<(), ()>);

    fn transmit(&self, stack: &mut NetStack, dev: usize, ty: u16, data: &[u8], dst: &[u8]) -> (r:
        Result<Vec<Event>, ()>)
        requires
            old(stack).wf(),
            dev < old(stack).devices@.len(),
            queue_ok(old(stack).tables(), queue_view(old(stack).queue@)),
            receive_ok(
                old(stack).tables(),
                queue_view(old(stack).queue@),
                ty,
                data@,
                dev,
                old(stack).next_id,
            ),
        ensures
            final(stack).wf(),
            final(stack).tables() == old(stack).tables(),
    ;
}

/// The driver a device carries. The table of devices holds this tag rather
/// than a driver object, so that a driver's `transmit` can be handed the
/// stack that holds the device; each tag goes to its driver's `Ops`.
#[derive(Clone, Copy, Debug, PartialEq, Eq, Structural)]
pub enum Driver {
    /// The loopback driver (`LoopbackOps`): every transmitted frame comes
    /// straight back as a received frame.
    Loopback,
}

impl Ops for Driver {
    fn open(&self, dev: &Device) -> (r: Result<(), ()>)
        ensures
            r is Ok,
    {
        match self {
            Driver::Loopback => LoopbackOps.open(dev),
        }
    }

    fn close(&self, dev: &Device) -> (r: Result<(), ()>)
        ensures
            r is Ok,
    {
        match self {
            Driver::Loopback => LoopbackOps.close(dev),
        }
    }

    fn transmit(&self, stack: &mut NetStack, dev: usize, ty: u16, data: &[u8], dst: &[u8]) -> (r:
        Result<Vec<Event>, ()>)
        ensures
            received_as(*old(stack), *final(stack), r, ty, data@, dev),
    {
        match self {
            Driver::Loopback => LoopbackOps.transmit(stack, dev, ty, data, dst),
        }
    }
}

/// A logical interface attached to a device: its address family and its
/// position in the stack's table of interfaces of that family.
#[derive(Clone, Copy, Debug, PartialEq, Eq, Structural)]
pub struct IfaceLink {
    pub family: u16,
    pub iface: usize,
}

pub struct Device {
    pub index: usize,
    pub name: String,
    pub ty: u16,
    pub mtu: u16,
    pub hlen: u16,
    pub alen: u16,
    pub addr: [u8; ADDR_LEN],
    pub peer: [u8; ADDR_LEN],
    pub broadcast: [u8; ADDR_LEN],
    pub flags: u16,
    pub ifaces: Vec<IfaceLink>,
    pub ops: Driver,
}

/// Position of the first interface of `family` in `links`, if there is one.
pub open spec fn first_link(links: Seq<IfaceLink>, family: u16) -> Option<int>
    decreases links.len(),
{
    if links.len() == 0 {
        None
    } else if links.last().family == family {
        match first_link(links.drop_last(), family) {
            Some(j) => Some(j),
            None => Some(links.len() - 1),
        }
    } else {
        first_link(links.drop_last(), family)
    }
}

/// `first_link` finds the first interface of the family, and only misses when
/// there is none.
pub proof fn lemma_first_link(links: Seq<IfaceLink>, family: u16)
    ensures
        match first_link(links, family) {
            Some(j) => 0 <= j < links.len() && links[j].family == family && forall|k: int|
                0 <= k < j ==> links[k].family != family,
            None => forall|k: int| 0 <= k < links.len() ==> links[k].family != family,
        },
    decreases links.len(),
{
    if links.len() > 0 {
        let init = links.drop_last();
        lemma_first_link(init, family);
        assert(forall|k: int| 0 <= k < init.len() ==> init[k] == links[k]);
    }
}

impl Device {
    /// Whether the device is up.
    pub open spec fn spec_is_up(&self) -> bool {
        self.flags & FLAG_UP != 0
    }

    /// `self` and `other` are the same device apart from flags and interfaces.
    pub open spec fn same_identity(&self, other: &Device) -> bool {
        &&& self.index == other.index
        &&& self.name@ == other.name@
        &&& self.ty == other.ty
        &&& self.mtu == other.mtu
        &&& self.hlen == other.hlen
        &&& self.alen == other.alen
        &&& self.addr == other.addr
        &&& self.peer == other.peer
        &&& self.broadcast == other.broadcast
        &&& self.ops == other.ops
    }

    /// A device that is not yet registered: index 0, empty name, zero
    /// addresses and no interfaces.
    pub fn new(ty: u16, mtu: u16, flags: u16, ops: Driver) -> (d: Device)
        ensures
            d.index == 0,
            d.name@ == Seq::<char>::empty(),
            d.ty == ty,
            d.mtu == mtu,
            d.hlen == 0,
            d.alen == 0,
            forall|i: int| 0 <= i < ADDR_LEN ==> d.addr[i] == 0 && d.peer[i] == 0
                && d.broadcast[i] == 0,
            d.flags == flags,
            d.ifaces@ == Seq::<IfaceLink>::empty(),
            d.ops == ops,
    {
        Device {
            index: 0,
            name: String::new(),
            ty,
            mtu,
            hlen: 0,
            alen: 0,
            addr: [0u8; 16],
            peer: [0u8; 16],
            broadcast: [0u8; 16],
            flags,
            ifaces: Vec::new(),
            ops,
        }
    }

    /// Attaches a logical interface; a second one of the same family is
    /// refused.
    pub fn add_iface(&mut self, iface: IfaceLink) -> (r: Result<(), ()>)
        ensures
            final(self).same_identity(old(self)),
            final(self).flags == old(self).flags,
            r is Err <==> exists|k: int|
                0 <= k < old(self).ifaces@.len() && old(self).ifaces@[k].family == iface.family,
            r is Ok ==> final(self).ifaces@ == old(self).ifaces@.push(iface),
            r is Err ==> *final(self) == *old(self),
    {
        let n = self.ifaces.len();
        for i in 0..n
            invariant
                n == self.ifaces@.len(),
                forall|k: int| 0 <= k < i ==> self.ifaces@[k].family != iface.family,
        {
            if self.ifaces[i].family == iface.family {
                return Err(());
            }
        }
        self.ifaces.push(iface);
        Ok(())
    }

    /// The first attached interface of `family`.
    pub fn get_iface(&self, family: u16) -> (r: Option<IfaceLink>)
        ensures
            r == (match first_link(self.ifaces@, family) {
                Some(j) => Some(self.ifaces@[j]),
                None => None,
            }),
    {
        proof {
            lemma_first_link(self.ifaces@, family);
        }
        let n = self.ifaces.len();
        for i in 0..n
            invariant
                n == self.ifaces@.len(),
                forall|k: int| 0 <= k < i ==> self.ifaces@[k].family != family,
                match first_link(self.ifaces@, family) {
                    Some(j) => 0 <= j < self.ifaces@.len() && self.ifaces@[j].family == family
                        && forall|k: int| 0 <= k < j ==> self.ifaces@[k].family != family,
                    None => forall|k: int|
                        0 <= k < self.ifaces@.len() ==> self.ifaces@[k].family != family,
                },
        {
            if self.ifaces[i].family == family {
                return Some(self.ifaces[i]);
            }
        }
        None
    }

    pub fn flags(&self) -> (r: u16)
        ensures
            r == self.flags,
    {
        self.flags
    }

    pub fn is_up(&self) -> (r: bool)
        ensures
            r == self.spec_is_up(),
    {
        self.flags & FLAG_UP != 0
    }

    /// "UP" or "DOWN".
    pub fn state_str(&self) -> (r: &'static str)
        ensures
            r@ == (if self.spec_is_up() {
                "UP"@
            } else {
                "DOWN"@
            }),
    {
        if self.is_up() {
            "UP"
        } else {
            "DOWN"
        }
    }

    /// Brings the device up; fails if it is already up.
    pub fn open(&mut self) -> (r: Result<(), ()>)
        ensures
            final(self).same_identity(old(self)),
            final(self).ifaces@ == old(self).ifaces@,
            r is Err <==> old(self).spec_is_up(),
            r is Ok ==> final(self).flags == old(self).flags | FLAG_UP,
            r is Err ==> final(self).flags == old(self).flags,
    {
        if self.is_up() {
            return Err(());
        }
        let ops = self.ops;
        if ops.open(&*self).is_err() {
            return Err(());
        }
        self.flags = self.flags | FLAG_UP;
        Ok(())
    }

    /// Takes the device down; fails if it is not up.
    pub fn close(&mut self) -> (r: Result<(), ()>)
        ensures
            final(self).same_identity(old(self)),
            final(self).ifaces@ == old(self).ifaces@,
            r is Err <==> !old(self).spec_is_up(),
            r is Ok ==> final(self).flags == old(self).flags & !FLAG_UP,
            r is Err ==> final(self).flags == old(self).flags,
    {
        if !self.is_up() {
            return Err(());
        }
        let ops = self.ops;
        if ops.close(&*self).is_err() {
            return Err(());
        }
        self.flags = self.flags & !FLAG_UP;
        Ok(())
    }

    /// Whether the device takes a frame of `len` bytes to send: it is up and
    /// the frame fits its MTU.
    pub open spec fn takes_frame(&self, len: nat) -> bool {
        self.spec_is_up() && len <= self.mtu
    }

    /// The device's own checks before it hands a frame to its driver: the
    /// device must be up and the frame must fit the MTU. `Device::output`
    /// makes them, then transmits.
    pub fn check_output(&self, ty: u16, data: &[u8], dst: &[u8]) -> (r: Result<(), ()>)
        ensures
            r is Ok <==> self.takes_frame(data@.len() as nat),
    {
        // the type and the link-level destination are for the driver
        let _ = (ty, dst);
        if !self.is_up() {
            return Err(());
        }
        if data.len() > self.mtu as usize {
            return Err(());
        }
        Ok(())
    }

    /// Sends a frame of type `ty` through device `dev` of the stack: the
    /// device's own checks (`check_output`); if they pass, its driver's
    /// `transmit`, once, with the same type, data and link-level destination,
    /// whose result is returned. The loopback driver hands the frame straight
    /// back as received on the same device, so the result is that of receiving
    /// it, with the events of handling it.
    pub fn output(stack: &mut NetStack, dev: usize, ty: u16, data: &[u8], dst: &[u8]) -> (r:
        Result<Vec<Event>, ()>)
        requires
            old(stack).wf(),
            dev < old(stack).devices@.len(),
            queue_ok(old(stack).tables(), queue_view(old(stack).queue@)),
            old(stack).devices@[dev as int].takes_frame(data@.len() as nat) ==> receive_ok(
                old(stack).tables(),
                queue_view(old(stack).queue@),
                ty,
                data@,
                dev,
                old(stack).next_id,
            ),
        ensures
            !old(stack).devices@[dev as int].takes_frame(data@.len() as nat) ==> {
                &&& r is Err
                &&& *final(stack) == *old(stack)
            },
            old(stack).devices@[dev as int].takes_frame(data@.len() as nat) ==> received_as(
                *old(stack),
                *final(stack),
                r,
                ty,
                data@,
                dev,
            ),
    {
        if stack.devices[dev].check_output(ty, data, dst).is_err() {
            return Err(());
        }
        let ops = stack.devices[dev].ops;
        ops.transmit(stack, dev, ty, data, dst)
    }
}

/// Opening and then closing a device that was down gives back its flags.
pub proof fn lemma_open_close_restores(flags: u16)
    requires
        flags & FLAG_UP == 0,
    ensures
        (flags | FLAG_UP) & FLAG_UP != 0,
        ((flags | FLAG_UP) & !FLAG_UP) == flags,
{
    assert((flags | 1u16) & 1u16 != 0) by (bit_vector);
    assert(flags & 1u16 == 0 ==> ((flags | 1u16) & !1u16) == flags) by (bit_vector);
}

/// The name a device gets at position `index`: "net" and the index.
pub open spec fn device_name(index: nat) -> Seq<char> {
    seq!['n', 'e', 't'] + decimal(index)
}

/// Registers a device: it gets the next index and the name "net<index>".
pub fn register(devices: &mut Vec<Device>, dev: Device) -> (r: usize)
    requires
        old(devices)@.len() < usize::MAX,
    ensures
        r == old(devices)@.len(),
        final(devices)@.len() == old(devices)@.len() + 1,
        forall|i: int| 0 <= i < r ==> final(devices)@[i] == old(devices)@[i],
        final(devices)@[r as int].index == r,
        final(devices)@[r as int].name@ == device_name(r as nat),
        final(devices)@[r as int].ty == dev.ty,
        final(devices)@[r as int].mtu == dev.mtu,
        final(devices)@[r as int].hlen == dev.hlen,
        final(devices)@[r as int].alen == dev.alen,
        final(devices)@[r as int].addr == dev.addr,
        final(devices)@[r as int].peer == dev.peer,
        final(devices)@[r as int].broadcast == dev.broadcast,
        final(devices)@[r as int].flags == dev.flags,
        final(devices)@[r as int].ifaces@ == dev.ifaces@,
        final(devices)@[r as int].ops == dev.ops,
{
    let mut dev = dev;
    let index = devices.len();
    dev.index = index;
    let mut name = String::new();
    push_char(&mut name, 'n');
    push_char(&mut name, 'e');
    push_char(&mut name, 't');
    push_decimal(&mut name, index);
    assert(name@ =~= device_name(index as nat));
    dev.name = name;
    devices.push(dev);
    index
}

/// The device registered at `index`.
pub fn by_index(devices: &Vec<Device>, index: usize) -> (r: Option<&Device>)
    ensures
        r == (if index < devices@.len() {
            Some(&devices@[index as int])
        } else {
            None
        }),
{
    if index < devices.len() {
        Some(&devices[index])
    } else {
        None
    }
}

/// Applies `f` to every device in order and collects what it returns.
pub fn foreach<T, F: Fn(&Device) -> T>(devices: &Vec<Device>, f: F) -> (r: Vec<T>)
    requires
        forall|i: int| 0 <= i < devices@.len() ==> f.requires((&devices@[i],)),
    ensures
        r@.len() == devices@.len(),
        forall|i: int| 0 <= i < devices@.len() ==> f.ensures((&devices@[i],), #[trigger] r@[i]),
{
    let mut out: Vec<T> = Vec::new();
    let n = devices.len();
    for i in 0..n
        invariant
            n == devices@.len(),
            out@.len() == i,
            forall|k: int| 0 <= k < devices@.len() ==> f.requires((&devices@[k],)),
            forall|k: int| 0 <= k < i ==> f.ensures((&devices@[k],), #[trigger] out@[k]),
    {
        let v = f(&devices[i]);
        out.push(v);
    }
    out
}

/// Applies `f` to the devices in order and stops at the first failure.
pub fn try_foreach<F: Fn(&Device) -> Result<(), ()>>(devices: &Vec<Device>, f: F) -> (r: Result<
    (),
    (),
>)
    requires
        forall|i: int| 0 <= i < devices@.len() ==> f.requires((&devices@[i],)),
    ensures
        r is Ok ==> forall|i: int|
            0 <= i < devices@.len() ==> f.ensures((&devices@[i],), Ok(())),
        r is Err ==> exists|i: int|
            0 <= i < devices@.len() && f.ensures((&devices@[i],), Err(())) && forall|k: int|
                0 <= k < i ==> f.ensures((&devices@[k],), Ok(())),
{
    let n = devices.len();
    for i in 0..n
        invariant
            n == devices@.len(),
            forall|k: int| 0 <= k < devices@.len() ==> f.requires((&devices@[k],)),
            forall|k: int| 0 <= k < i ==> f.ensures((&devices@[k],), Ok(())),
    {
        let res = f(&devices[i]);
        proof {
            assert(f.ensures((&devices@[i as int],), res));
        }
        match res {
            Ok(u) => {
                let ghost unit: () = u;
                assert(res == Ok::<(), ()>(unit));
            },
            Err(e) => {
                let ghost unit: () = e;
                assert(res == Err::<(), ()>(unit));
                return Err(());
            },
        }
    }
    Ok(())
}

} // verus!
