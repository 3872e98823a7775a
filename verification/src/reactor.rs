//! The core loop's state machine.
//!
//! Each tick, the surrounding loop drains every queued IPC command and
//! hands the batch to [`Reactor::drain_commands`] before it looks at
//! any hardware event: commands queued before a tick's wake are fully
//! applied before that tick evaluates hotplug notifications. A
//! `Shutdown` command terminates the reactor on the spot; the rest of
//! the batch, and every later event, goes unprocessed, and the loop
//! then closes its hypervisor connection once.
//!
//! Hardware events are handed in as resolved plain values:
//! [`Reactor::handle_device_add`] plans the attach calls for a new
//! device, [`Reactor::confirm_attach`] records each attach that the
//! hypervisor accepted, and [`Reactor::handle_device_remove`] clears
//! the bookkeeping for an unplugged device and returns the detach
//! calls owed. Attach failures are recoverable: a VM that is not
//! running, or refuses the device, is simply never confirmed, and no
//! other VM is affected.

use crate::filter::{filter_matches, identity_filter, FilterSpec, UsbFilter};
use crate::identity::{DeviceIdentity, IdentitySpec};
use crate::registry::{
    matching_names, reg_add, reg_empty, reg_remove, reg_set, reg_wf, vm_match_pred, FilterRegistry,
    RegModel,
};
use crate::tracker::{
    detach_actions, detach_pairs, track_attach, track_empty, track_remove, AttachmentTracker,
    DetachAction, TrackModel,
};
use crate::views::str_views;
use crate::xml::{usb_xml, usb_xml_spec};
use vstd::prelude::*;

verus! {

/// The kind of an IPC command: register a filter, deregister a
/// filter, or terminate the daemon.
#[derive(Debug)]
pub enum DbusCommand {
    Add,
    Remove,
    Shutdown,
}

/// Spec-level value of a queued command: its kind, the VM name, and
/// the filter it carries.
#[verifier::ext_equal]
pub ghost struct CmdSpec {
    pub kind: DbusCommand,
    pub vm: Seq<char>,
    pub filter: FilterSpec,
}

/// The spec-level value of one queued command tuple.
pub open spec fn cmd_spec(c: (DbusCommand, String, UsbFilter)) -> CmdSpec {
    CmdSpec { kind: c.0, vm: c.1@, filter: c.2@ }
}

/// The spec-level values of a drained command batch, in queue order.
pub open spec fn cmd_specs(s: Seq<(DbusCommand, String, UsbFilter)>) -> Seq<CmdSpec> {
    s.map_values(|c: (DbusCommand, String, UsbFilter)| cmd_spec(c))
}

/// Effect of one command on the registry. `Shutdown` leaves the
/// registry as it is; it stops the loop instead.
pub open spec fn apply_command(m: RegModel, c: CmdSpec) -> RegModel {
    match c.kind {
        DbusCommand::Add => reg_add(m, c.vm, c.filter),
        DbusCommand::Remove => reg_remove(m, c.vm, c.filter),
        DbusCommand::Shutdown => m,
    }
}

/// Effect of a command sequence on the registry, applied in order.
pub open spec fn apply_commands(m: RegModel, cs: Seq<CmdSpec>) -> RegModel
    decreases cs.len(),
{
    if cs.len() == 0 {
        m
    } else {
        apply_command(apply_commands(m, cs.drop_last()), cs.last())
    }
}

/// Whether a batch holds a `Shutdown` command.
pub open spec fn has_shutdown(cs: Seq<CmdSpec>) -> bool {
    exists|i: int| 0 <= i < cs.len() && (#[trigger] cs[i]).kind is Shutdown
}

/// The prefix of a batch before its first `Shutdown`: the commands
/// that a drain actually applies.
pub open spec fn before_shutdown(cs: Seq<CmdSpec>) -> Seq<CmdSpec>
    decreases cs.len(),
{
    if cs.len() == 0 {
        Seq::empty()
    } else if cs[0].kind is Shutdown {
        Seq::empty()
    } else {
        seq![cs[0]] + before_shutdown(cs.drop_first())
    }
}

proof fn lemma_before_shutdown_prefix(cs: Seq<CmdSpec>, i: int)
    requires
        0 <= i <= cs.len(),
        forall|j: int| 0 <= j < i ==> !((#[trigger] cs[j]).kind is Shutdown),
    ensures
        before_shutdown(cs) == cs.take(i) + before_shutdown(cs.skip(i)),
    decreases i,
{
    if i == 0 {
        assert(cs.skip(0) =~= cs);
        assert(cs.take(0) + before_shutdown(cs) =~= before_shutdown(cs));
    } else {
        lemma_before_shutdown_prefix(cs, i - 1);
        let s1 = cs.skip(i - 1);
        assert(s1[0] == cs[i - 1]);
        assert(s1.len() > 0);
        assert(before_shutdown(s1) == seq![s1[0]] + before_shutdown(s1.drop_first()));
        assert(s1.drop_first() =~= cs.skip(i));
        assert(cs.take(i - 1) + (seq![cs[i - 1]] + before_shutdown(cs.skip(i))) =~= cs.take(i)
            + before_shutdown(cs.skip(i)));
    }
}

/// A `Shutdown` discards the rest of its batch: only the commands
/// before the first `Shutdown` are ever applied.
pub proof fn lemma_shutdown_discards_rest(cs: Seq<CmdSpec>, i: int)
    requires
        0 <= i < cs.len(),
        cs[i].kind is Shutdown,
        forall|j: int| 0 <= j < i ==> !((#[trigger] cs[j]).kind is Shutdown),
    ensures
        before_shutdown(cs) == cs.take(i),
        has_shutdown(cs),
{
    lemma_before_shutdown_prefix(cs, i);
    let s = cs.skip(i);
    assert(s[0] == cs[i]);
    assert(before_shutdown(s) =~= Seq::<CmdSpec>::empty());
    assert(cs.take(i) + Seq::<CmdSpec>::empty() =~= cs.take(i));
}

proof fn lemma_before_shutdown_all(cs: Seq<CmdSpec>)
    requires
        forall|j: int| 0 <= j < cs.len() ==> !((#[trigger] cs[j]).kind is Shutdown),
    ensures
        before_shutdown(cs) == cs,
        !has_shutdown(cs),
{
    lemma_before_shutdown_prefix(cs, cs.len() as int);
    assert(cs.skip(cs.len() as int) =~= Seq::<CmdSpec>::empty());
    assert(cs.take(cs.len() as int) + before_shutdown(Seq::empty()) =~= cs);
}

/// The applied prefix of a batch is the batch itself, element for
/// element, up to its first `Shutdown`.
proof fn lemma_before_shutdown_elems(cs: Seq<CmdSpec>)
    ensures
        before_shutdown(cs).len() <= cs.len(),
        forall|k: int|
            0 <= k < before_shutdown(cs).len() ==> #[trigger] before_shutdown(cs)[k] == cs[k],
    decreases cs.len(),
{
    if cs.len() > 0 && !(cs[0].kind is Shutdown) {
        lemma_before_shutdown_elems(cs.drop_first());
        let bs = before_shutdown(cs);
        assert forall|k: int| 0 <= k < bs.len() implies #[trigger] bs[k] == cs[k] by {
            if k > 0 {
                assert(bs[k] == before_shutdown(cs.drop_first())[k - 1]);
                assert(cs.drop_first()[k - 1] == cs[k]);
            }
        }
    }
}

proof fn lemma_apply_command_keeps(m: RegModel, c: CmdSpec, vm: Seq<char>, f: FilterSpec)
    requires
        reg_set(m, vm).contains(f),
        !(c.kind is Remove && c.vm == vm && c.filter == f),
    ensures
        reg_set(apply_command(m, c), vm).contains(f),
{
    assert(m.sets.dom().contains(vm));
    match c.kind {
        DbusCommand::Add => {
            if c.vm == vm {
                assert(reg_set(apply_command(m, c), vm) == reg_set(m, vm).insert(c.filter));
            } else {
                assert(reg_set(apply_command(m, c), vm) == reg_set(m, vm));
            }
        },
        DbusCommand::Remove => {
            if c.vm == vm {
                assert(reg_set(apply_command(m, c), vm) == reg_set(m, vm).remove(c.filter));
                assert(c.filter != f);
            } else {
                assert(reg_set(apply_command(m, c), vm) == reg_set(m, vm));
            }
        },
        DbusCommand::Shutdown => {
        },
    }
}

proof fn lemma_apply_commands_keep(m: RegModel, cs: Seq<CmdSpec>, vm: Seq<char>, f: FilterSpec)
    requires
        reg_set(m, vm).contains(f),
        forall|j: int|
            0 <= j < cs.len() ==> !((#[trigger] cs[j]).kind is Remove && cs[j].vm == vm
                && cs[j].filter == f),
    ensures
        reg_set(apply_commands(m, cs), vm).contains(f),
    decreases cs.len(),
{
    if cs.len() > 0 {
        assert forall|j: int| 0 <= j < cs.drop_last().len() implies !((
        #[trigger] cs.drop_last()[j]).kind is Remove && cs.drop_last()[j].vm == vm
            && cs.drop_last()[j].filter == f) by {
            assert(cs.drop_last()[j] == cs[j]);
        }
        lemma_apply_commands_keep(m, cs.drop_last(), vm, f);
        lemma_apply_command_keeps(apply_commands(m, cs.drop_last()), cs.last(), vm, f);
    }
}

proof fn lemma_apply_commands_concat(m: RegModel, a: Seq<CmdSpec>, b: Seq<CmdSpec>)
    ensures
        apply_commands(m, a + b) == apply_commands(apply_commands(m, a), b),
    decreases b.len(),
{
    if b.len() == 0 {
        assert(a + b =~= a);
    } else {
        assert((a + b).drop_last() =~= a + b.drop_last());
        assert((a + b).last() == b.last());
        lemma_apply_commands_concat(m, a, b.drop_last());
    }
}

proof fn lemma_apply_command_wf(m: RegModel, c: CmdSpec)
    requires
        reg_wf(m),
    ensures
        reg_wf(apply_command(m, c)),
{
    match c.kind {
        DbusCommand::Add => {
            crate::registry::lemma_reg_add_wf(m, c.vm, c.filter);
        },
        DbusCommand::Remove => {
            crate::registry::lemma_reg_remove_wf(m, c.vm, c.filter);
        },
        DbusCommand::Shutdown => {
        },
    }
}

proof fn lemma_apply_commands_wf(m: RegModel, cs: Seq<CmdSpec>)
    requires
        reg_wf(m),
    ensures
        reg_wf(apply_commands(m, cs)),
    decreases cs.len(),
{
    if cs.len() > 0 {
        lemma_apply_commands_wf(m, cs.drop_last());
        lemma_apply_command_wf(apply_commands(m, cs.drop_last()), cs.last());
    }
}

/// A VM whose set holds a rule matching `id` is selected by a
/// hardware add event for `id`.
pub proof fn lemma_matching_member(m: RegModel, id: IdentitySpec, vm: Seq<char>)
    requires
        reg_wf(m),
        reg_set(m, vm).contains(identity_filter(id)),
    ensures
        matching_names(m, id).contains(vm),
{
    assert(m.sets.dom().contains(vm));
    assert(m.order.contains(vm));
    let k = choose|k: int| 0 <= k < m.order.len() && m.order[k] == vm;
    assert(vm_match_pred(m.sets, id)(m.order[k]));
    m.order.lemma_filter_contains(vm_match_pred(m.sets, id), k);
}

/// Two VMs that both hold a rule matching the same identity are both
/// selected by one hardware add event for it, each getting its own
/// attach call; their relative order is the registry's deterministic
/// VM order.
pub proof fn lemma_multi_vm_match(m: RegModel, id: IdentitySpec, vm1: Seq<char>, vm2: Seq<char>)
    requires
        reg_wf(m),
        vm1 != vm2,
        reg_set(m, vm1).contains(identity_filter(id)),
        reg_set(m, vm2).contains(identity_filter(id)),
    ensures
        matching_names(m, id).contains(vm1),
        matching_names(m, id).contains(vm2),
{
    lemma_matching_member(m, id, vm1);
    lemma_matching_member(m, id, vm2);
}

/// A filter added by a command of a tick's batch is seen by that same
/// tick's hardware events: if no later command of the applied batch
/// removes the rule again, and no `Shutdown` precedes the add, a
/// matching device identity selects that VM once the batch is drained.
pub proof fn lemma_command_before_event(m: RegModel, cs: Seq<CmdSpec>, i: int, id: IdentitySpec)
    requires
        reg_wf(m),
        0 <= i < cs.len(),
        cs[i].kind is Add,
        filter_matches(cs[i].filter, id),
        forall|j: int|
            i < j < cs.len() ==> !((#[trigger] cs[j]).kind is Remove && cs[j].vm == cs[i].vm
                && cs[j].filter == cs[i].filter),
        forall|j: int| 0 <= j <= i ==> !((#[trigger] cs[j]).kind is Shutdown),
    ensures
        reg_set(apply_commands(m, before_shutdown(cs)), cs[i].vm).contains(identity_filter(id)),
        matching_names(apply_commands(m, before_shutdown(cs)), id).contains(cs[i].vm),
{
    let vm = cs[i].vm;
    let f = cs[i].filter;
    lemma_before_shutdown_prefix(cs, i + 1);
    let a = cs.take(i + 1);
    let b = before_shutdown(cs.skip(i + 1));
    lemma_apply_commands_concat(m, a, b);
    let m1 = apply_commands(m, a);
    assert(a.drop_last() =~= cs.take(i));
    assert(a.last() == cs[i]);
    assert(m1 == apply_command(apply_commands(m, cs.take(i)), cs[i]));
    assert(f == identity_filter(id));
    assert(reg_set(m1, vm).contains(f)) by {
        let mp = apply_commands(m, cs.take(i));
        assert(m1 == reg_add(mp, vm, f));
        assert(m1.sets[vm] == reg_set(mp, vm).insert(f));
    }
    lemma_before_shutdown_elems(cs.skip(i + 1));
    assert forall|j: int| 0 <= j < b.len() implies !((#[trigger] b[j]).kind is Remove && b[j].vm
        == vm && b[j].filter == f) by {
        assert(b[j] == cs.skip(i + 1)[j]);
        assert(cs.skip(i + 1)[j] == cs[i + 1 + j]);
    }
    lemma_apply_commands_keep(m1, b, vm, f);
    let mf = apply_commands(m, before_shutdown(cs));
    assert(mf == apply_commands(m1, b));
    lemma_apply_commands_wf(m, before_shutdown(cs));
    lemma_matching_member(mf, id, vm);
}

/// An attach call to make: the domain to address and the descriptor
/// to hand the hypervisor.
pub struct AttachAction {
    pub vm: String,
    pub xml: String,
}

/// The `(vm, descriptor)` views of a sequence of attach actions.
pub open spec fn attach_pairs(s: Seq<AttachAction>) -> Seq<(Seq<char>, Seq<char>)> {
    s.map_values(|a: AttachAction| (a.vm@, a.xml@))
}

/// The attach calls owed when a device with identity `id` appears:
/// one per VM holding a matching rule, in registry order, each with
/// the descriptor built from the identity.
pub open spec fn attach_plan(m: RegModel, id: IdentitySpec) -> Seq<(Seq<char>, Seq<char>)> {
    matching_names(m, id).map_values(
        |vm: Seq<char>| (vm, usb_xml_spec(id.vid, id.pid, id.bus, id.devnum)),
    )
}

enum RunState {
    Running,
    Terminated,
}

/// The reactor: the loop's run state, the filter registry and the
/// attachment tracker, all owned by the single loop thread.
pub struct Reactor {
    state: RunState,
    registry: FilterRegistry,
    tracker: AttachmentTracker,
}

impl Reactor {
    /// Whether the loop keeps running: `Shutdown` has not been seen.
    pub closed spec fn running(&self) -> bool {
        self.state is Running
    }

    /// Structural invariant of the owned state.
    pub closed spec fn wf(&self) -> bool {
        self.registry.wf() && self.tracker.wf()
    }

    /// The registry's mathematical model.
    pub closed spec fn registry_model(&self) -> RegModel {
        self.registry.model()
    }

    /// The tracker's mathematical model.
    pub closed spec fn tracker_model(&self) -> TrackModel {
        self.tracker.model()
    }

    /// A well-formed reactor's registry model is well formed, so the
    /// laws stated over registry models apply to it.
    pub proof fn lemma_registry_model_wf(&self)
        requires
            self.wf(),
        ensures
            reg_wf(self.registry_model()),
    {
        self.registry.lemma_model_wf();
    }

    /// A running reactor with no rules and nothing attached.
    pub fn new() -> (r: Reactor)
        ensures
            r.wf(),
            r.running(),
            r.registry_model() == reg_empty(),
            r.tracker_model() == track_empty(),
    {
        Reactor {
            state: RunState::Running,
            registry: FilterRegistry::new(),
            tracker: AttachmentTracker::new(),
        }
    }

    /// Whether the loop should take another tick.
    pub fn is_running(&self) -> (b: bool)
        ensures
            b == self.running(),
    {
        match self.state {
            RunState::Running => true,
            RunState::Terminated => false,
        }
    }

    /// Apply a tick's drained command batch, in queue order, to the
    /// registry — stopping at the first `Shutdown`, which terminates
    /// the reactor and discards the rest of the batch. Commands never
    /// touch the attachment bookkeeping: a filter change does not
    /// retroactively attach or detach anything.
    pub fn drain_commands(&mut self, cmds: &Vec<(DbusCommand, String, UsbFilter)>)
        requires
            old(self).wf(),
            old(self).running(),
        ensures
            final(self).wf(),
            final(self).registry_model() == apply_commands(
                old(self).registry_model(),
                before_shutdown(cmd_specs(cmds@)),
            ),
            final(self).running() == !has_shutdown(cmd_specs(cmds@)),
            final(self).tracker_model() == old(self).tracker_model(),
    {
        let ghost m0 = old(self).registry_model();
        let ghost cspecs = cmd_specs(cmds@);
        let n = cmds.len();
        let mut i: usize = 0;
        proof {
            assert(cspecs.take(0) =~= Seq::<CmdSpec>::empty());
        }
        while i < n
            invariant
                n == cmds@.len(),
                cspecs == cmd_specs(cmds@),
                m0 == old(self).registry_model(),
                i <= n,
                self.wf(),
                self.running(),
                self.tracker.model() == old(self).tracker_model(),
                forall|j: int| 0 <= j < i ==> !((#[trigger] cspecs[j]).kind is Shutdown),
                self.registry.model() == apply_commands(m0, cspecs.take(i as int)),
            decreases n - i,
        {
            let c = &cmds[i];
            match &c.0 {
                DbusCommand::Shutdown => {
                    self.state = RunState::Terminated;
                    proof {
                        assert(cspecs[i as int].kind is Shutdown);
                        lemma_shutdown_discards_rest(cspecs, i as int);
                    }
                    return ;
                },
                DbusCommand::Add => {
                    self.registry.add(c.1.clone(), c.2.clone());
                },
                DbusCommand::Remove => {
                    self.registry.remove(&c.1, &c.2);
                },
            }
            proof {
                let t1 = cspecs.take(i + 1);
                assert(t1.drop_last() =~= cspecs.take(i as int));
                assert(t1.last() == cspecs[i as int]);
                assert(apply_commands(m0, t1) == apply_command(
                    apply_commands(m0, cspecs.take(i as int)),
                    cspecs[i as int],
                ));
            }
            i = i + 1;
        }
        proof {
            assert(cspecs.take(n as int) =~= cspecs);
            lemma_before_shutdown_all(cspecs);
        }
    }

    /// Plan the attach calls for a resolved hardware add event: one
    /// call per VM holding a matching rule, in registry order, each
    /// with the descriptor built from the identity. Nothing is
    /// recorded yet; each call the hypervisor accepts is handed back
    /// through [`Reactor::confirm_attach`], so a VM that is not
    /// running, or whose attach fails, affects no other VM.
    pub fn handle_device_add(&self, identity: &DeviceIdentity) -> (acts: Vec<AttachAction>)
        requires
            self.wf(),
            self.running(),
        ensures
            attach_pairs(acts@) == attach_plan(self.registry_model(), identity@),
    {
        let vms = self.registry.matching_vms(identity);
        let xml = usb_xml(
            identity.vid.as_str(),
            identity.pid.as_str(),
            identity.bus.as_str(),
            identity.devnum.as_str(),
        );
        let ghost mn = matching_names(self.registry.model(), identity@);
        let mut acts: Vec<AttachAction> = Vec::new();
        let n = vms.len();
        let mut i: usize = 0;
        while i < n
            invariant
                n == vms@.len(),
                i <= n,
                str_views(vms@) == mn,
                mn == matching_names(self.registry.model(), identity@),
                xml@ == usb_xml_spec(identity@.vid, identity@.pid, identity@.bus, identity@.devnum),
                acts@.len() == i,
                forall|k: int|
                    0 <= k < i ==> (#[trigger] acts@[k]).vm@ == mn[k] && acts@[k].xml@ == xml@,
            decreases n - i,
        {
            acts.push(AttachAction { vm: vms[i].clone(), xml: xml.clone() });
            proof {
                assert(str_views(vms@)[i as int] == vms@[i as int]@);
            }
            i = i + 1;
        }
        proof {
            assert(attach_pairs(acts@) =~= attach_plan(self.registry.model(), identity@));
        }
        acts
    }

    /// Record one attach call that the hypervisor accepted, with the
    /// exact descriptor that was used: the syspath maps to the
    /// identity, and the `(syspath, descriptor)` pair joins the VM's
    /// attachment list. The registry is untouched.
    pub fn confirm_attach(
        &mut self,
        vm: &String,
        syspath: &String,
        identity: &DeviceIdentity,
        xml: &String,
    )
        requires
            old(self).wf(),
            old(self).running(),
        ensures
            final(self).wf(),
            final(self).running(),
            final(self).registry_model() == old(self).registry_model(),
            final(self).tracker_model() == track_attach(
                old(self).tracker_model(),
                vm@,
                syspath@,
                identity@,
                xml@,
            ),
    {
        self.tracker.record_attach(vm, syspath, identity, xml);
    }

    /// Process a resolved hardware remove event: forget the device if
    /// it was recorded, clear every VM's entries for its syspath, and
    /// return the detach calls to make, in VM order, each with the
    /// literal descriptor stored at attach time. The bookkeeping is
    /// cleared whether or not the detach calls later succeed — the
    /// device is already gone. A syspath never recorded is a no-op.
    /// The registry is untouched.
    pub fn handle_device_remove(&mut self, syspath: &String) -> (acts: Vec<DetachAction>)
        requires
            old(self).wf(),
            old(self).running(),
        ensures
            final(self).wf(),
            final(self).running(),
            final(self).registry_model() == old(self).registry_model(),
            final(self).tracker_model() == track_remove(old(self).tracker_model(), syspath@),
            detach_pairs(acts@) == (if old(self).tracker_model().devs.dom().contains(syspath@) {
                detach_actions(old(self).tracker_model(), syspath@)
            } else {
                Seq::<(Seq<char>, Seq<char>)>::empty()
            }),
    {
        self.tracker.remove_syspath(syspath)
    }

    /// Whether the device at `syspath` is currently recorded as
    /// attached to at least one domain.
    pub fn device_attached(&self, syspath: &String) -> (r: bool)
        ensures
            r == self.tracker_model().devs.dom().contains(syspath@),
    {
        self.tracker.contains_syspath(syspath)
    }

    /// How many rules are registered for `vm`.
    pub fn filter_count(&self, vm: &String) -> (n: usize)
        requires
            self.wf(),
        ensures
            n == reg_set(self.registry_model(), vm@).len(),
    {
        self.registry.filter_count(vm)
    }

    /// How many `(syspath, descriptor)` pairs are recorded for `vm`.
    pub fn attachment_count(&self, vm: &String) -> (n: usize)
        requires
            self.wf(),
        ensures
            n == crate::tracker::list_of(self.tracker_model().lists, vm@).len(),
    {
        self.tracker.attachment_count(vm)
    }
}

} // verus!
