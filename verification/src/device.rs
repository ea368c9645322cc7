//! The device record stored in the index: the plain attributes that the
//! library reads and renders.  Producing such a record from the
//! operating system's enumeration interface is an external concern.

use vstd::prelude::*;
use vstd::string::StringExecFns;

use crate::digits::dec_digits_pad3;
use crate::digits::hex_digits4;
use crate::digits::push_u16_hex4;
use crate::digits::push_u8_decimal_pad3;
use crate::path::spec_key;
use crate::path::DevicePath;
use crate::path::PathView;

verus! {

/// Connection speed of a device, as reported by enumeration.
#[derive(Debug, Clone, Copy, PartialEq, Eq)]
pub enum DeviceSpeed {
    Low,
    Full,
    High,
    Super,
    SuperPlus,
}

/// A USB device record with plain-valued attributes.
#[derive(Debug, Clone)]
pub struct UsbDevice {
    /// Vendor ID.
    pub vid: u16,
    /// Product ID.
    pub pid: u16,
    /// Bus number.
    pub bus: u8,
    /// Device address on the bus.
    pub address: u8,
    /// Device name/description.
    pub name: String,
    /// Manufacturer string.
    pub manufacturer: Option<String>,
    /// Product string.
    pub product: Option<String>,
    /// Serial number.
    pub serial: Option<String>,
    /// Device class.
    pub class: u8,
    /// Device subclass.
    pub subclass: u8,
    /// Device protocol.
    pub protocol: u8,
    /// Connection speed, if known.
    pub speed: Option<DeviceSpeed>,
    /// Port chain, for building the hierarchy.
    pub port_path: Vec<u8>,
}

/// The `vvvv:pppp` form of the vendor and product identifiers, in
/// lowercase four-digit hexadecimal.
pub open spec fn spec_vid_pid(d: UsbDevice) -> Seq<char> {
    hex_digits4(d.vid as nat) + seq![':'] + hex_digits4(d.pid as nat)
}

/// The one-line label of a device: address, identifiers, and name, with
/// an empty name shown as `Unknown Device`.
pub open spec fn spec_device_label(d: UsbDevice) -> Seq<char> {
    "Device "@ + dec_digits_pad3(d.address as nat) + ": ID "@ + spec_vid_pid(d) + seq![' '] + (
    if d.name@.len() == 0 {
        "Unknown Device"@
    } else {
        d.name@
    })
}

impl UsbDevice {
    /// The `vvvv:pppp` identifier string.
    pub fn vid_pid(&self) -> (r: String)
        ensures
            r@ == spec_vid_pid(*self),
    {
        let mut s = String::new();
        push_u16_hex4(&mut s, self.vid);
        s.append(":");
        push_u16_hex4(&mut s, self.pid);
        proof {
            reveal_strlit(":");
            assert(s@ =~= spec_vid_pid(*self));
        }
        s
    }

    /// Whether this device is a hub (device class 9).
    pub fn is_hub(&self) -> (r: bool)
        ensures
            r == (self.class == 9),
    {
        self.class == 9
    }

    /// The path of this device: its bus and port chain.
    pub fn path(&self) -> (r: DevicePath)
        ensures
            r@ == (PathView { bus: self.bus, ports: self.port_path@ }),
    {
        let ports = self.port_path.clone();
        proof {
            assert(ports@ =~= self.port_path@);
        }
        DevicePath::new(self.bus, ports)
    }

    /// The canonical string key of this device's path.
    pub fn path_key(&self) -> (r: String)
        ensures
            r@ == spec_key(self.bus, self.port_path@),
    {
        self.path().to_key()
    }

    /// The one-line label used when rendering the device tree.
    pub fn to_display_string(&self) -> (r: String)
        ensures
            r@ == spec_device_label(*self),
    {
        let mut s = String::from_str("Device ");
        push_u8_decimal_pad3(&mut s, self.address);
        s.append(": ID ");
        push_u16_hex4(&mut s, self.vid);
        s.append(":");
        push_u16_hex4(&mut s, self.pid);
        s.append(" ");
        if self.name.as_str().is_empty() {
            s.append("Unknown Device");
        } else {
            s.append(self.name.as_str());
        }
        proof {
            reveal_strlit("Device ");
            reveal_strlit(": ID ");
            reveal_strlit(":");
            reveal_strlit(" ");
            reveal_strlit("Unknown Device");
            assert(" "@ =~= seq![' ']);
            assert(s@ =~= spec_device_label(*self));
        }
        s
    }
}

/// Whether a device passes a vendor/product filter list; an empty list
/// admits every device.
pub open spec fn spec_matches_vid_pid(d: UsbDevice, filters: Seq<(u16, u16)>) -> bool {
    filters.len() == 0 || exists|i: int|
        0 <= i < filters.len() && (#[trigger] filters[i]).0 == d.vid && filters[i].1 == d.pid
}

/// Filter predicate for vendor/product pairs.
pub fn matches_vid_pid(device: &UsbDevice, filters: &[(u16, u16)]) -> (r: bool)
    ensures
        r == spec_matches_vid_pid(*device, filters@),
{
    let n = filters.len();
    if n == 0 {
        return true;
    }
    let mut i: usize = 0;
    while i < n
        invariant
            i <= n == filters@.len(),
            forall|j: int|
                0 <= j < i ==> !((#[trigger] filters@[j]).0 == device.vid && filters@[j].1
                    == device.pid),
        decreases n - i,
    {
        if filters[i].0 == device.vid && filters[i].1 == device.pid {
            return true;
        }
        i += 1;
    }
    false
}

} // verus!
