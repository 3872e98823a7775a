use stormcrow::filter::UsbFilter;
use stormcrow::identity::DeviceIdentity;
use stormcrow::reactor::{DbusCommand, Reactor};

fn add_cmd(vm: &str, vid: &str, pid: &str) -> (DbusCommand, String, UsbFilter) {
    (DbusCommand::Add, vm.to_string(), UsbFilter::from_ids(vid, pid))
}

fn remove_cmd(vm: &str, vid: &str, pid: &str) -> (DbusCommand, String, UsbFilter) {
    (DbusCommand::Remove, vm.to_string(), UsbFilter::from_ids(vid, pid))
}

fn shutdown_cmd() -> (DbusCommand, String, UsbFilter) {
    (DbusCommand::Shutdown, String::new(), UsbFilter::from_ids("", ""))
}

fn linux_hub() -> DeviceIdentity {
    DeviceIdentity::resolve("1d6b\n", "0002\n", "001\n", "004\n")
}

const HUB_XML: &str = "\n<hostdev mode='subsystem' type='usb'>\n  <source>\n    <vendor id='0x1d6b'/>\n    <product id='0x0002'/>\n    <address bus='001' device='004'/>\n  </source>\n</hostdev>\n";

#[test]
fn attach_detach_round_trip() {
    let mut r = Reactor::new();
    r.drain_commands(&vec![add_cmd("vmA", "1d6b", "0002")]);
    assert!(r.is_running());

    let id = linux_hub();
    let acts = r.handle_device_add(&id);
    assert_eq!(acts.len(), 1);
    assert_eq!(acts[0].vm, "vmA");
    assert_eq!(acts[0].xml, HUB_XML);

    let syspath = "/sys/devices/pci0000:00/usb1".to_string();
    r.confirm_attach(&acts[0].vm, &syspath, &id, &acts[0].xml);
    assert!(r.device_attached(&syspath));
    assert_eq!(r.attachment_count(&"vmA".to_string()), 1);

    let dets = r.handle_device_remove(&syspath);
    assert_eq!(dets.len(), 1);
    assert_eq!(dets[0].vm, "vmA");
    // detach uses the identical stored descriptor
    assert_eq!(dets[0].xml, HUB_XML);
    assert!(!r.device_attached(&syspath));
    assert_eq!(r.attachment_count(&"vmA".to_string()), 0);
}

#[test]
fn command_queued_before_event_applies_same_tick() {
    let mut r = Reactor::new();
    // the batch drained at the top of the tick is visible to the
    // tick's own hardware events
    r.drain_commands(&vec![add_cmd("vmA", "1d6b", "0002")]);
    let acts = r.handle_device_add(&linux_hub());
    assert_eq!(acts.len(), 1);
    assert_eq!(acts[0].vm, "vmA");
}

#[test]
fn command_queued_after_event_does_not_attach_retroactively() {
    let mut r = Reactor::new();
    let id = linux_hub();
    // event processed first: no rule matches, nothing is attached
    let acts = r.handle_device_add(&id);
    assert!(acts.is_empty());
    // the filter arrives afterwards: no retroactive attachment
    r.drain_commands(&vec![add_cmd("vmA", "1d6b", "0002")]);
    assert!(!r.device_attached(&"/sys/devices/pci0000:00/usb1".to_string()));
    assert_eq!(r.attachment_count(&"vmA".to_string()), 0);
    // only the next event attaches
    let acts = r.handle_device_add(&id);
    assert_eq!(acts.len(), 1);
}

#[test]
fn shutdown_terminates_and_discards_the_rest_of_the_batch() {
    let mut r = Reactor::new();
    r.drain_commands(&vec![
        add_cmd("vmA", "1d6b", "0002"),
        shutdown_cmd(),
        add_cmd("vmB", "1d6b", "0002"),
    ]);
    assert!(!r.is_running());
    // commands before the shutdown were applied, later ones were not
    assert_eq!(r.filter_count(&"vmA".to_string()), 1);
    assert_eq!(r.filter_count(&"vmB".to_string()), 0);
}

#[test]
fn shutdown_alone_terminates() {
    let mut r = Reactor::new();
    assert!(r.is_running());
    r.drain_commands(&vec![shutdown_cmd()]);
    assert!(!r.is_running());
}

#[test]
fn multi_vm_match_attaches_to_both_in_order() {
    let mut r = Reactor::new();
    r.drain_commands(&vec![
        add_cmd("vmB", "1d6b", "0002"),
        add_cmd("vmA", "1d6b", "0002"),
    ]);
    let id = linux_hub();
    let acts = r.handle_device_add(&id);
    assert_eq!(acts.len(), 2);
    assert_eq!(acts[0].vm, "vmB");
    assert_eq!(acts[1].vm, "vmA");
    assert_eq!(acts[0].xml, acts[1].xml);

    let syspath = "/sys/devices/pci0000:00/usb1".to_string();
    for a in &acts {
        r.confirm_attach(&a.vm, &syspath, &id, &a.xml);
    }
    assert_eq!(r.attachment_count(&"vmB".to_string()), 1);
    assert_eq!(r.attachment_count(&"vmA".to_string()), 1);

    // one remove event detaches from both, in VM order
    let dets = r.handle_device_remove(&syspath);
    assert_eq!(dets.len(), 2);
    assert_eq!(dets[0].vm, "vmB");
    assert_eq!(dets[1].vm, "vmA");
    assert_eq!(r.attachment_count(&"vmB".to_string()), 0);
    assert_eq!(r.attachment_count(&"vmA".to_string()), 0);
}

#[test]
fn remove_event_for_unknown_syspath_is_a_noop() {
    let mut r = Reactor::new();
    r.drain_commands(&vec![add_cmd("vmA", "1d6b", "0002")]);
    let dets = r.handle_device_remove(&"/sys/devices/nowhere".to_string());
    assert!(dets.is_empty());
    assert!(r.is_running());
    assert_eq!(r.filter_count(&"vmA".to_string()), 1);
}

#[test]
fn attach_is_not_recorded_twice_for_one_vm_and_syspath() {
    let mut r = Reactor::new();
    r.drain_commands(&vec![add_cmd("vmA", "1d6b", "0002")]);
    let id = linux_hub();
    let acts = r.handle_device_add(&id);
    let syspath = "/sys/devices/pci0000:00/usb1".to_string();
    r.confirm_attach(&acts[0].vm, &syspath, &id, &acts[0].xml);
    r.confirm_attach(&acts[0].vm, &syspath, &id, &acts[0].xml);
    assert_eq!(r.attachment_count(&"vmA".to_string()), 1);
}

#[test]
fn filter_changes_never_touch_attachments() {
    let mut r = Reactor::new();
    r.drain_commands(&vec![add_cmd("vmA", "1d6b", "0002")]);
    let id = linux_hub();
    let acts = r.handle_device_add(&id);
    let syspath = "/sys/devices/pci0000:00/usb1".to_string();
    r.confirm_attach(&acts[0].vm, &syspath, &id, &acts[0].xml);
    // removing the filter does not retroactively detach
    r.drain_commands(&vec![remove_cmd("vmA", "1d6b", "0002")]);
    assert!(r.device_attached(&syspath));
    assert_eq!(r.attachment_count(&"vmA".to_string()), 1);
}

#[test]
fn unmatched_device_plans_nothing() {
    let mut r = Reactor::new();
    r.drain_commands(&vec![add_cmd("vmA", "046d", "c077")]);
    let acts = r.handle_device_add(&linux_hub());
    assert!(acts.is_empty());
}
