use stormcrow::filter::UsbFilter;
use stormcrow::identity::{trim_ws, DeviceIdentity};
use stormcrow::xml::usb_xml;

#[test]
fn trim_removes_surrounding_whitespace() {
    assert_eq!(trim_ws("1d6b\n"), "1d6b");
    assert_eq!(trim_ws("  0002"), "0002");
    assert_eq!(trim_ws("\t001\r\n"), "001");
    assert_eq!(trim_ws("004"), "004");
    assert_eq!(trim_ws(""), "");
    assert_eq!(trim_ws(" \n\t\r "), "");
}

#[test]
fn trim_keeps_inner_whitespace() {
    assert_eq!(trim_ws(" a b "), "a b");
}

#[test]
fn resolve_trims_every_attribute() {
    let id = DeviceIdentity::resolve("1d6b\n", " 0002 ", "001\n", "4\n");
    assert_eq!(id.vid, "1d6b");
    assert_eq!(id.pid, "0002");
    assert_eq!(id.bus, "001");
    assert_eq!(id.devnum, "4");
}

#[test]
fn filter_keeps_four_hex_digit_ids() {
    let f = UsbFilter::from_ids("1d6b", "0002");
    assert_eq!(f.vid().as_deref(), Some("1d6b"));
    assert_eq!(f.pid().as_deref(), Some("0002"));
}

#[test]
fn filter_accepts_uppercase_hex() {
    let f = UsbFilter::from_ids("1D6B", "ABCD");
    assert_eq!(f.vid().as_deref(), Some("1D6B"));
    assert_eq!(f.pid().as_deref(), Some("ABCD"));
}

#[test]
fn filter_drops_wrong_length_ids() {
    let f = UsbFilter::from_ids("1d6", "00021");
    assert_eq!(f.vid().as_deref(), None);
    assert_eq!(f.pid().as_deref(), None);
}

#[test]
fn filter_drops_non_hex_ids() {
    let f = UsbFilter::from_ids("1g6b", "000-");
    assert_eq!(f.vid().as_deref(), None);
    assert_eq!(f.pid().as_deref(), None);
}

#[test]
fn filter_drops_empty_ids() {
    let f = UsbFilter::from_ids("", "");
    assert_eq!(f.vid().as_deref(), None);
    assert_eq!(f.pid().as_deref(), None);
}

#[test]
fn filter_equality_is_field_equality() {
    let a = UsbFilter::from_ids("1d6b", "0002");
    let b = UsbFilter::from_ids("1d6b", "0002");
    let c = UsbFilter::from_ids("1d6b", "0003");
    let d = UsbFilter::from_ids("xx", "yy");
    let e = UsbFilter::from_ids("zz", "ww");
    assert!(a.same_rule(&b));
    assert!(!a.same_rule(&c));
    // both-absent fields compare equal
    assert!(d.same_rule(&e));
    assert!(!a.same_rule(&d));
}

#[test]
fn descriptor_encodes_all_four_values() {
    let xml = usb_xml("1d6b", "0002", "001", "004");
    let expected = "\n<hostdev mode='subsystem' type='usb'>\n  <source>\n    <vendor id='0x1d6b'/>\n    <product id='0x0002'/>\n    <address bus='001' device='004'/>\n  </source>\n</hostdev>\n";
    assert_eq!(xml, expected);
}
