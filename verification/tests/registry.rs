use stormcrow::filter::UsbFilter;
use stormcrow::identity::DeviceIdentity;
use stormcrow::registry::FilterRegistry;

fn ident(vid: &str, pid: &str) -> DeviceIdentity {
    DeviceIdentity::resolve(vid, pid, "001", "004")
}

#[test]
fn add_is_idempotent() {
    let mut reg = FilterRegistry::new();
    let vm = "vmA".to_string();
    reg.add(vm.clone(), UsbFilter::from_ids("1d6b", "0002"));
    reg.add(vm.clone(), UsbFilter::from_ids("1d6b", "0002"));
    assert_eq!(reg.filter_count(&vm), 1);
    // one remove of the rule leaves nothing behind
    reg.remove(&vm, &UsbFilter::from_ids("1d6b", "0002"));
    assert_eq!(reg.filter_count(&vm), 0);
    assert!(reg.matching_vms(&ident("1d6b", "0002")).is_empty());
}

#[test]
fn removing_absent_rule_is_a_noop() {
    let mut reg = FilterRegistry::new();
    let vm = "vmA".to_string();
    reg.add(vm.clone(), UsbFilter::from_ids("1d6b", "0002"));
    // a rule never added, and a VM never seen
    reg.remove(&vm, &UsbFilter::from_ids("dead", "beef"));
    reg.remove(&"vmB".to_string(), &UsbFilter::from_ids("1d6b", "0002"));
    assert_eq!(reg.filter_count(&vm), 1);
    let vms = reg.matching_vms(&ident("1d6b", "0002"));
    assert_eq!(vms, vec!["vmA".to_string()]);
}

#[test]
fn absent_field_matches_nothing() {
    // "1g6b" is not hex, so the vendor field becomes absent
    let f = UsbFilter::from_ids("1g6b", "0002");
    assert!(!f.matches_identity(&ident("1g6b", "0002")));
    assert!(!f.matches_identity(&ident("0002", "0002")));

    let mut reg = FilterRegistry::new();
    reg.add("vmA".to_string(), UsbFilter::from_ids("1g6b", "0002"));
    assert!(reg.matching_vms(&ident("1g6b", "0002")).is_empty());
    assert!(reg.matching_vms(&ident("0000", "0002")).is_empty());
}

#[test]
fn matching_is_exact_on_both_fields() {
    let f = UsbFilter::from_ids("1d6b", "0002");
    assert!(f.matches_identity(&ident("1d6b", "0002")));
    assert!(!f.matches_identity(&ident("1d6b", "0003")));
    assert!(!f.matches_identity(&ident("1d6c", "0002")));
}

#[test]
fn matching_vms_come_in_first_appearance_order() {
    let mut reg = FilterRegistry::new();
    reg.add("vmB".to_string(), UsbFilter::from_ids("1d6b", "0002"));
    reg.add("vmA".to_string(), UsbFilter::from_ids("1d6b", "0002"));
    reg.add("vmC".to_string(), UsbFilter::from_ids("ffff", "ffff"));
    let vms = reg.matching_vms(&ident("1d6b", "0002"));
    assert_eq!(vms, vec!["vmB".to_string(), "vmA".to_string()]);
}

#[test]
fn a_vm_can_hold_several_rules() {
    let mut reg = FilterRegistry::new();
    let vm = "vmA".to_string();
    reg.add(vm.clone(), UsbFilter::from_ids("1d6b", "0002"));
    reg.add(vm.clone(), UsbFilter::from_ids("046d", "c077"));
    assert_eq!(reg.filter_count(&vm), 2);
    assert_eq!(reg.matching_vms(&ident("046d", "c077")), vec![vm.clone()]);
    reg.remove(&vm, &UsbFilter::from_ids("1d6b", "0002"));
    assert_eq!(reg.filter_count(&vm), 1);
    assert!(reg.matching_vms(&ident("1d6b", "0002")).is_empty());
    assert_eq!(reg.matching_vms(&ident("046d", "c077")), vec![vm.clone()]);
}
