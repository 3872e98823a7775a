//! Construction of the hypervisor device descriptor.
//!
//! The descriptor is an XML blob naming the device's vendor id,
//! product id, bus number and device number. Detaching is keyed off
//! the literal descriptor stored at attach time, so the exact
//! character sequence matters; [`usb_xml_spec`] pins it down.

use vstd::prelude::*;
use vstd::string::StringExecFns;

verus! {

/// The exact descriptor text for a device with the given trimmed
/// attribute values.
pub open spec fn usb_xml_spec(vid: Seq<char>, pid: Seq<char>, bus: Seq<char>, dev: Seq<char>) -> Seq<
    char,
> {
    "\n<hostdev mode='subsystem' type='usb'>\n  <source>\n    <vendor id='0x"@ + vid
        + "'/>\n    <product id='0x"@ + pid + "'/>\n    <address bus='"@ + bus + "' device='"@ + dev
        + "'/>\n  </source>\n</hostdev>\n"@
}

/// Build the descriptor for a device with the given vendor id, product
/// id, bus number and device number.
pub fn usb_xml(vid: &str, pid: &str, bus: &str, dev: &str) -> (r: String)
    ensures
        r@ == usb_xml_spec(vid@, pid@, bus@, dev@),
{
    let mut r = String::from_str(
        "\n<hostdev mode='subsystem' type='usb'>\n  <source>\n    <vendor id='0x",
    );
    r.append(vid);
    r.append("'/>\n    <product id='0x");
    r.append(pid);
    r.append("'/>\n    <address bus='");
    r.append(bus);
    r.append("' device='");
    r.append(dev);
    r.append("'/>\n  </source>\n</hostdev>\n");
    r
}

} // verus!
