pub mod pl;
pub mod virtio;

use vstd::prelude::*;
use crate::bytes::be_u64;
use crate::dtb::parser::{find_child_spec, find_prop_spec, prop_string, FdtNode};
use crate::dtb::{chosen_name, stdout_path_name, stdout_target};

verus! {

/// The drivers the kernel has.
#[derive(Debug, Clone, Copy, PartialEq, Eq, Structural)]
pub enum DriverKind {
    Pl,
    VirtioBlk,
}

/// A driver for devices that a device tree node describes.
pub trait Driver: Sized {
    /// The `compatible` value of the nodes it drives.
    spec fn compatible_spec() -> Seq<u8>;

    fn compatible_string() -> (r: Vec<u8>)
        ensures
            r@ == Self::compatible_spec(),
    ;

    /// The driver for `node`, if it can drive it.
    fn new(node: &FdtNode) -> Result<Self, ()>;
}

/// `arm,pl011`
pub open spec fn pl011_compatible() -> Seq<u8> {
    seq![0x61u8, 0x72, 0x6d, 0x2c, 0x70, 0x6c, 0x30, 0x31, 0x31]
}

/// `virtio,mmio`
pub open spec fn virtio_mmio_compatible() -> Seq<u8> {
    seq![0x76u8, 0x69, 0x72, 0x74, 0x69, 0x6f, 0x2c, 0x6d, 0x6d, 0x69, 0x6f]
}

/// The driver for devices whose `compatible` value is `c`.
pub open spec fn driver_spec(c: Seq<u8>) -> Option<DriverKind> {
    if c == pl011_compatible() {
        Some(DriverKind::Pl)
    } else if c == virtio_mmio_compatible() {
        Some(DriverKind::VirtioBlk)
    } else {
        None
    }
}

/// The driver for a node whose `compatible` property is `compatible`, tried in order.
pub fn driver_for(compatible: &[u8]) -> (r: Option<DriverKind>)
    ensures
        r == driver_spec(compatible@),
{
    let pl = crate::driver::pl::Pl::compatible_string();
    if crate::utils::string::bytes_equal(compatible, pl.as_slice()) {
        return Some(DriverKind::Pl);
    }
    let virtio = crate::driver::virtio::VirtioBlkDriver::compatible_string();
    if crate::utils::string::bytes_equal(compatible, virtio.as_slice()) {
        return Some(DriverKind::VirtioBlk);
    }
    None
}

/// `reg`
pub open spec fn reg_name() -> Seq<u8> {
    seq![0x72u8, 0x65, 0x67]
}

/// Address and size of the register window that the first two double words of the `reg`
/// property of `node` give, where it has them.
pub open spec fn reg_window(node: FdtNode) -> Option<(int, int)> {
    match find_prop_spec(node.properties@, reg_name()) {
        None => None,
        Some(i) => match node.properties@[i].value {
            None => None,
            Some(v) => if v@.len() < 16 {
                None
            } else {
                Some((be_u64(v@, 0), be_u64(v@, 8)))
            },
        },
    }
}

/// A device with a driver, and the `compatible` value it was found by.
pub struct Device {
    pub driver: DriverKind,
    pub tag: Vec<u8>,
}

/// The devices that have drivers.
pub struct DeviceBus {
    pub devices: Vec<Device>,
}

/// `compatible`
pub open spec fn compatible_name() -> Seq<u8> {
    seq![0x63u8, 0x6f, 0x6d, 0x70, 0x61, 0x74, 0x69, 0x62, 0x6c, 0x65]
}

impl DeviceBus {
    pub fn new() -> (r: Self)
        ensures
            r.devices@.len() == 0,
    {
        DeviceBus { devices: Vec::new() }
    }

    /// Records a device that its driver took.
    pub fn add_device(&mut self, driver: DriverKind, tag: Vec<u8>)
        ensures
            final(self).devices@.len() == old(self).devices@.len() + 1,
            final(self).devices@.last().driver == driver,
            final(self).devices@.last().tag@ == tag@,
    {
        self.devices.push(Device { driver, tag });
    }

    /// The driver to try for `node`: none when it was already probed or names no driver the
    /// kernel has.
    pub fn try_probe_node(&self, node: &FdtNode, probed: bool) -> (r: Option<DriverKind>)
        ensures
            r == (if probed {
                None
            } else {
                match find_prop_spec(node.properties@, compatible_name()) {
                    None => None,
                    Some(i) => match node.properties@[i].value {
                        None => None,
                        Some(v) => driver_spec(prop_string(v@)),
                    },
                }
            }),
    {
        if probed {
            return None;
        }
        let name: [u8; 10] = [0x63, 0x6f, 0x6d, 0x70, 0x61, 0x74, 0x69, 0x62, 0x6c, 0x65];
        assert(name@ =~= compatible_name());
        let prop = match node.find_prop_by_name(&name) {
            Some(p) => p,
            None => return None,
        };
        let compatible = match prop.read_prop_string() {
            Some(c) => c,
            None => return None,
        };
        driver_for(compatible.as_slice())
    }

    /// The order in which the children of `root` are probed: first the node that the
    /// `stdout-path` of `/chosen` names, so the console comes up early, then every child.
    /// `None` where the tree lacks `/chosen` or its `stdout-path`.
    pub fn walk_fdt_root(&self, root: &FdtNode) -> (r: Option<Vec<usize>>)
        ensures
            match stdout_target(*root) {
                None => r is None,
                Some(name) => r matches Some(order) && order@ == (match find_child_spec(root.children@, name) {
                    Some(i) => seq![i as usize],
                    None => Seq::empty(),
                }) + Seq::new(root.children@.len(), |j: int| j as usize),
            },
    {
        let chosen_key: [u8; 6] = [0x63, 0x68, 0x6f, 0x73, 0x65, 0x6e];
        assert(chosen_key@ =~= chosen_name());
        let chosen = match root.find_child_by_name(&chosen_key) {
            Some(c) => c,
            None => return None,
        };
        let stdout_key: [u8; 11] = [0x73, 0x74, 0x64, 0x6f, 0x75, 0x74, 0x2d, 0x70, 0x61, 0x74, 0x68];
        assert(stdout_key@ =~= stdout_path_name());
        let path = match chosen.read_prop_string(&stdout_key) {
            Some(p) => p,
            None => return None,
        };
        let node_name = crate::dtb::trim_start_slashes(path.as_slice());
        let mut order: Vec<usize> = Vec::new();
        match root.find_child_index(node_name.as_slice()) {
            Some(i) => order.push(i),
            None => {},
        }
        let ghost head = order@;
        let mut j: usize = 0;
        while j < root.children.len()
            invariant
                j <= root.children@.len(),
                order@ == head + Seq::new(j as nat, |k: int| k as usize),
            decreases root.children@.len() - j,
        {
            order.push(j);
            j += 1;
            assert(order@ =~= head + Seq::new(j as nat, |k: int| k as usize));
        }
        assert(head =~= (match find_child_spec(root.children@, node_name@) {
            Some(i) => seq![i as usize],
            None => Seq::<usize>::empty(),
        }));
        Some(order)
    }
}

} // verus!
