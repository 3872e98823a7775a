//! Bookkeeping of attached devices.
//!
//! The tracker records, per syspath, the identity of the device that
//! was attached, and per VM the ordered list of `(syspath, descriptor)`
//! pairs handed to the hypervisor. The descriptor is stored literally:
//! detaching is keyed off the exact blob used at attach time.
//!
//! A hardware remove event hands back, in deterministic VM order, the
//! `(vm, descriptor)` detach calls to make, and clears the bookkeeping
//! whether or not those calls succeed — the device is already gone.
//!
//! Contracts are stated over [`TrackModel`], the tracker's mathematical
//! model.

use crate::identity::{DeviceIdentity, IdentitySpec};
use vstd::prelude::*;

verus! {

/// Mathematical model of the tracker: the attached devices by syspath,
/// the VM names in first-attachment order, and each VM's ordered
/// `(syspath, descriptor)` list.
#[verifier::ext_equal]
pub ghost struct TrackModel {
    pub devs: Map<Seq<char>, IdentitySpec>,
    pub order: Seq<Seq<char>>,
    pub lists: Map<Seq<char>, Seq<(Seq<char>, Seq<char>)>>,
}

/// The model of a tracker with nothing attached.
pub open spec fn track_empty() -> TrackModel {
    TrackModel { devs: Map::empty(), order: Seq::empty(), lists: Map::empty() }
}

/// The attachment list of `vm`: empty when `vm` is unknown.
pub open spec fn list_of(lists: Map<Seq<char>, Seq<(Seq<char>, Seq<char>)>>, vm: Seq<char>) -> Seq<
    (Seq<char>, Seq<char>),
> {
    if lists.dom().contains(vm) {
        lists[vm]
    } else {
        Seq::empty()
    }
}

/// Whether an attachment list holds an entry for syspath `p`.
pub open spec fn list_has_syspath(l: Seq<(Seq<char>, Seq<char>)>, p: Seq<char>) -> bool {
    exists|k: int| 0 <= k < l.len() && (#[trigger] l[k]).0 == p
}

/// Effect of recording a successful attach: the syspath maps to the
/// identity, and `(syspath, descriptor)` joins the end of the VM's
/// list unless that VM already holds the syspath.
pub open spec fn track_attach(
    m: TrackModel,
    vm: Seq<char>,
    p: Seq<char>,
    id: IdentitySpec,
    xml: Seq<char>,
) -> TrackModel {
    TrackModel {
        devs: m.devs.insert(p, id),
        order: if m.lists.dom().contains(vm) {
            m.order
        } else {
            m.order.push(vm)
        },
        lists: m.lists.insert(
            vm,
            if list_has_syspath(list_of(m.lists, vm), p) {
                list_of(m.lists, vm)
            } else {
                list_of(m.lists, vm).push((p, xml))
            },
        ),
    }
}

/// Whether an attachment entry survives the removal of syspath `p`.
pub open spec fn keep_pred(p: Seq<char>) -> spec_fn((Seq<char>, Seq<char>)) -> bool {
    |e: (Seq<char>, Seq<char>)| e.0 != p
}

/// Whether an attachment entry is for syspath `p`.
pub open spec fn match_pred(p: Seq<char>) -> spec_fn((Seq<char>, Seq<char>)) -> bool {
    |e: (Seq<char>, Seq<char>)| e.0 == p
}

/// Effect of a hardware remove for syspath `p`: the syspath leaves the
/// device map and every VM's list drops its entries for it. An unknown
/// syspath changes nothing.
pub open spec fn track_remove(m: TrackModel, p: Seq<char>) -> TrackModel {
    if m.devs.dom().contains(p) {
        TrackModel {
            devs: m.devs.remove(p),
            order: m.order,
            lists: Map::new(
                |vm: Seq<char>| m.lists.dom().contains(vm),
                |vm: Seq<char>| m.lists[vm].filter(keep_pred(p)),
            ),
        }
    } else {
        m
    }
}

/// The `(vm, descriptor)` detach calls owed for syspath `p` by one
/// VM's list: one per stored entry for `p`, in list order, each with
/// the literal stored descriptor.
pub open spec fn vm_detach_actions(
    l: Seq<(Seq<char>, Seq<char>)>,
    vm: Seq<char>,
    p: Seq<char>,
) -> Seq<(Seq<char>, Seq<char>)> {
    l.filter(match_pred(p)).map_values(|e: (Seq<char>, Seq<char>)| (vm, e.1))
}

/// The detach calls owed for syspath `p` by the VMs named in `order`,
/// in that order.
pub open spec fn detach_actions_from(
    m: TrackModel,
    order: Seq<Seq<char>>,
    p: Seq<char>,
) -> Seq<(Seq<char>, Seq<char>)>
    decreases order.len(),
{
    if order.len() == 0 {
        Seq::empty()
    } else {
        detach_actions_from(m, order.drop_last(), p) + vm_detach_actions(
            list_of(m.lists, order.last()),
            order.last(),
            p,
        )
    }
}

/// All detach calls owed for syspath `p`, in the tracker's VM order.
pub open spec fn detach_actions(m: TrackModel, p: Seq<char>) -> Seq<(Seq<char>, Seq<char>)> {
    detach_actions_from(m, m.order, p)
}

/// Each VM's list holds at most one entry per syspath: attach is not
/// re-issued for a device already attached to that VM.
pub open spec fn lists_unique(m: TrackModel) -> bool {
    forall|vm: Seq<char>, a: int, b: int|
        #![trigger m.lists[vm][a], m.lists[vm][b]]
        m.lists.dom().contains(vm) && 0 <= a < b < m.lists[vm].len() ==> m.lists[vm][a].0
            != m.lists[vm][b].0
}

/// A syspath is in the device map exactly when some VM's list holds an
/// entry for it: a device is recorded iff it is attached to at least
/// one domain.
pub open spec fn devs_lists_agree(m: TrackModel) -> bool {
    forall|p: Seq<char>| #[trigger]
        m.devs.dom().contains(p) <==> exists|vm: Seq<char>|
            #[trigger] m.lists.dom().contains(vm) && list_has_syspath(m.lists[vm], p)
}

proof fn lemma_filter_members<A>(s: Seq<A>, pred: spec_fn(A) -> bool)
    ensures
        forall|x: A| #[trigger] s.filter(pred).contains(x) ==> s.contains(x),
    decreases s.len(),
{
    reveal(Seq::filter);
    if s.len() > 0 {
        lemma_filter_members(s.drop_last(), pred);
        assert forall|x: A| #[trigger] s.filter(pred).contains(x) implies s.contains(x) by {
            let fs = s.filter(pred);
            let k = choose|k: int| 0 <= k < fs.len() && fs[k] == x;
            if pred(s.last()) && k == fs.len() - 1 {
                assert(s[s.len() - 1] == x);
            } else {
                assert(fs[k] == s.drop_last().filter(pred)[k]);
                assert(s.drop_last().filter(pred).contains(x));
                assert(s.drop_last().contains(x));
                let j = choose|j: int|
                    0 <= j < s.drop_last().len() && s.drop_last()[j] == x;
                assert(s[j] == x);
            }
        }
    }
}

proof fn lemma_filter_unique_pairs(l: Seq<(Seq<char>, Seq<char>)>, pred: spec_fn(
    (Seq<char>, Seq<char>),
) -> bool)
    requires
        forall|a: int, b: int|
            #![trigger l[a], l[b]]
            0 <= a < b < l.len() ==> l[a].0 != l[b].0,
    ensures
        forall|a: int, b: int|
            #![trigger l.filter(pred)[a], l.filter(pred)[b]]
            0 <= a < b < l.filter(pred).len() ==> l.filter(pred)[a].0 != l.filter(pred)[b].0,
    decreases l.len(),
{
    reveal(Seq::filter);
    if l.len() > 0 {
        assert forall|a: int, b: int|
            #![trigger l.drop_last()[a], l.drop_last()[b]]
            0 <= a < b < l.drop_last().len() implies l.drop_last()[a].0 != l.drop_last()[b].0 by {
            assert(l.drop_last()[a] == l[a]);
            assert(l.drop_last()[b] == l[b]);
        }
        lemma_filter_unique_pairs(l.drop_last(), pred);
        lemma_filter_members(l.drop_last(), pred);
        let fl = l.filter(pred);
        assert forall|a: int, b: int|
            #![trigger fl[a], fl[b]]
            0 <= a < b < fl.len() implies fl[a].0 != fl[b].0 by {
            let fd = l.drop_last().filter(pred);
            if pred(l.last()) && b == fl.len() - 1 {
                assert(fl[b] == l.last());
                assert(fl[a] == fd[a]);
                assert(fd.contains(fd[a]));
                assert(l.drop_last().contains(fd[a]));
                let j = choose|j: int|
                    0 <= j < l.drop_last().len() && l.drop_last()[j] == fd[a];
                assert(l[j] == fd[a]);
                assert(l[j].0 != l[l.len() - 1].0);
            } else {
                assert(fl[a] == fd[a]);
                assert(fl[b] == fd[b]);
            }
        }
    }
}

/// Recording an attach keeps every VM's list free of duplicate
/// syspaths: the entry is only appended when the VM does not already
/// hold the syspath.
pub proof fn lemma_attach_preserves_unique(
    m: TrackModel,
    vm: Seq<char>,
    p: Seq<char>,
    id: IdentitySpec,
    xml: Seq<char>,
)
    requires
        lists_unique(m),
    ensures
        lists_unique(track_attach(m, vm, p, id, xml)),
{
    let m1 = track_attach(m, vm, p, id, xml);
    let l0 = list_of(m.lists, vm);
    assert forall|w: Seq<char>, a: int, b: int|
        #![trigger m1.lists[w][a], m1.lists[w][b]]
        m1.lists.dom().contains(w) && 0 <= a < b < m1.lists[w].len() implies m1.lists[w][a].0
        != m1.lists[w][b].0 by {
        if w == vm {
            if list_has_syspath(l0, p) {
                assert(m1.lists[w] == l0);
            } else {
                assert(m1.lists[w] == l0.push((p, xml)));
                if b < l0.len() {
                    assert(m1.lists[w][a] == l0[a]);
                    assert(m1.lists[w][b] == l0[b]);
                } else {
                    assert(m1.lists[w][a] == l0[a]);
                    assert(m1.lists[w][b].0 == p);
                }
            }
        } else {
            assert(m1.lists[w] == m.lists[w]);
        }
    }
}

/// Processing a hardware remove keeps every VM's list free of
/// duplicate syspaths: each list only loses entries.
pub proof fn lemma_remove_preserves_unique(m: TrackModel, p: Seq<char>)
    requires
        lists_unique(m),
    ensures
        lists_unique(track_remove(m, p)),
{
    if m.devs.dom().contains(p) {
        let m1 = track_remove(m, p);
        assert forall|w: Seq<char>, a: int, b: int|
            #![trigger m1.lists[w][a], m1.lists[w][b]]
            m1.lists.dom().contains(w) && 0 <= a < b < m1.lists[w].len() implies m1.lists[w][a].0
            != m1.lists[w][b].0 by {
            assert(m1.lists[w] == m.lists[w].filter(keep_pred(p)));
            assert forall|x: int, y: int|
                #![trigger m.lists[w][x], m.lists[w][y]]
                0 <= x < y < m.lists[w].len() implies m.lists[w][x].0 != m.lists[w][y].0 by {}
            lemma_filter_unique_pairs(m.lists[w], keep_pred(p));
        }
    }
}

/// Recording an attach keeps the device map and the lists in
/// agreement: the syspath joins the device map, and the VM's list
/// holds (or already held) an entry for it.
pub proof fn lemma_attach_preserves_agreement(
    m: TrackModel,
    vm: Seq<char>,
    p: Seq<char>,
    id: IdentitySpec,
    xml: Seq<char>,
)
    requires
        devs_lists_agree(m),
    ensures
        devs_lists_agree(track_attach(m, vm, p, id, xml)),
{
    let m1 = track_attach(m, vm, p, id, xml);
    let l0 = list_of(m.lists, vm);
    assert forall|q: Seq<char>| #[trigger]
        m1.devs.dom().contains(q) implies exists|w: Seq<char>|
        #[trigger] m1.lists.dom().contains(w) && list_has_syspath(m1.lists[w], q) by {
        if q == p {
            assert(m1.lists.dom().contains(vm));
            if list_has_syspath(l0, p) {
                assert(m1.lists[vm] == l0);
            } else {
                assert(m1.lists[vm] == l0.push((p, xml)));
                assert(m1.lists[vm][l0.len() as int].0 == p);
            }
            assert(list_has_syspath(m1.lists[vm], q));
        } else {
            assert(m.devs.dom().contains(q));
            let w = choose|w: Seq<char>|
                #[trigger] m.lists.dom().contains(w) && list_has_syspath(m.lists[w], q);
            assert(m1.lists.dom().contains(w));
            if w == vm {
                let k = choose|k: int| 0 <= k < m.lists[w].len() && (#[trigger] m.lists[w][k]).0 == q;
                assert(m.lists[w] == l0);
                if !list_has_syspath(l0, p) {
                    assert(m1.lists[w][k] == l0[k]);
                }
                assert(list_has_syspath(m1.lists[w], q));
            } else {
                assert(m1.lists[w] == m.lists[w]);
            }
        }
    }
    assert forall|q: Seq<char>|
        (exists|w: Seq<char>|
            #[trigger] m1.lists.dom().contains(w) && list_has_syspath(
                m1.lists[w],
                q,
            )) implies #[trigger] m1.devs.dom().contains(q) by {
        let w = choose|w: Seq<char>|
            #[trigger] m1.lists.dom().contains(w) && list_has_syspath(m1.lists[w], q);
        if q != p {
            if w == vm {
                let k = choose|k: int|
                    0 <= k < m1.lists[w].len() && (#[trigger] m1.lists[w][k]).0 == q;
                if list_has_syspath(l0, p) {
                    assert(m1.lists[w] == l0);
                } else {
                    assert(m1.lists[w] == l0.push((p, xml)));
                    assert(k < l0.len());
                    assert(l0[k].0 == q);
                }
                assert(list_has_syspath(l0, q));
                assert(m.lists.dom().contains(vm));
                assert(m.devs.dom().contains(q));
            } else {
                assert(m1.lists[w] == m.lists[w]);
                assert(m.devs.dom().contains(q));
            }
        }
    }
}

/// Processing a hardware remove keeps the device map and the lists in
/// agreement: the syspath leaves the device map and every list at
/// once.
pub proof fn lemma_remove_preserves_agreement(m: TrackModel, p: Seq<char>)
    requires
        devs_lists_agree(m),
    ensures
        devs_lists_agree(track_remove(m, p)),
{
    if m.devs.dom().contains(p) {
        let m1 = track_remove(m, p);
        assert forall|q: Seq<char>| #[trigger]
            m1.devs.dom().contains(q) implies exists|w: Seq<char>|
            #[trigger] m1.lists.dom().contains(w) && list_has_syspath(m1.lists[w], q) by {
            assert(m.devs.dom().contains(q) && q != p);
            let w = choose|w: Seq<char>|
                #[trigger] m.lists.dom().contains(w) && list_has_syspath(m.lists[w], q);
            let k = choose|k: int| 0 <= k < m.lists[w].len() && (#[trigger] m.lists[w][k]).0 == q;
            assert(keep_pred(p)(m.lists[w][k]));
            m.lists[w].lemma_filter_contains(keep_pred(p), k);
            assert(m1.lists.dom().contains(w));
            assert(m1.lists[w] == m.lists[w].filter(keep_pred(p)));
            let fk = choose|fk: int|
                0 <= fk < m1.lists[w].len() && m1.lists[w][fk] == m.lists[w][k];
            assert((#[trigger] m1.lists[w][fk]).0 == q);
            assert(list_has_syspath(m1.lists[w], q));
        }
        assert forall|q: Seq<char>|
            (exists|w: Seq<char>|
                #[trigger] m1.lists.dom().contains(w) && list_has_syspath(
                    m1.lists[w],
                    q,
                )) implies #[trigger] m1.devs.dom().contains(q) by {
            let w = choose|w: Seq<char>|
                #[trigger] m1.lists.dom().contains(w) && list_has_syspath(m1.lists[w], q);
            let k = choose|k: int|
                0 <= k < m1.lists[w].len() && (#[trigger] m1.lists[w][k]).0 == q;
            assert(m1.lists[w] == m.lists[w].filter(keep_pred(p)));
            lemma_filter_members(m.lists[w], keep_pred(p));
            assert(m1.lists[w].contains(m1.lists[w][k]));
            assert(m.lists[w].contains(m1.lists[w][k]));
            let j = choose|j: int|
                0 <= j < m.lists[w].len() && m.lists[w][j] == m1.lists[w][k];
            assert((#[trigger] m.lists[w][j]).0 == q);
            assert(list_has_syspath(m.lists[w], q));
            assert(m.devs.dom().contains(q));
            m.lists[w].lemma_filter_pred(keep_pred(p), k);
            assert(keep_pred(p)(m1.lists[w][k]));
            assert(q != p);
        }
    }
}

/// A detach call to make: the domain to address and the literal
/// descriptor stored when the device was attached.
pub struct DetachAction {
    pub vm: String,
    pub xml: String,
}

/// The `(vm, descriptor)` views of a sequence of detach actions.
pub open spec fn detach_pairs(s: Seq<DetachAction>) -> Seq<(Seq<char>, Seq<char>)> {
    s.map_values(|a: DetachAction| (a.vm@, a.xml@))
}

struct SysDev {
    syspath: String,
    identity: DeviceIdentity,
}

struct AttachEntry {
    syspath: String,
    xml: String,
}

struct VmAttachments {
    vm: String,
    entries: Vec<AttachEntry>,
}

spec fn entry_pairs(s: Seq<AttachEntry>) -> Seq<(Seq<char>, Seq<char>)> {
    s.map_values(|a: AttachEntry| (a.syspath@, a.xml@))
}

spec fn devs_wf(s: Seq<SysDev>) -> bool {
    forall|i: int, j: int|
        0 <= i < j < s.len() ==> (#[trigger] s[i]).syspath@ != (#[trigger] s[j]).syspath@
}

spec fn devs_has(s: Seq<SysDev>, p: Seq<char>) -> bool {
    exists|i: int| 0 <= i < s.len() && (#[trigger] s[i]).syspath@ == p
}

spec fn devs_idx(s: Seq<SysDev>, p: Seq<char>) -> int {
    choose|i: int| 0 <= i < s.len() && (#[trigger] s[i]).syspath@ == p
}

spec fn dev_map(s: Seq<SysDev>) -> Map<Seq<char>, IdentitySpec> {
    Map::new(|p: Seq<char>| devs_has(s, p), |p: Seq<char>| s[devs_idx(s, p)].identity@)
}

spec fn vms_wf(s: Seq<VmAttachments>) -> bool {
    forall|i: int, j: int|
        0 <= i < j < s.len() ==> (#[trigger] s[i]).vm@ != (#[trigger] s[j]).vm@
}

spec fn vm_names(s: Seq<VmAttachments>) -> Seq<Seq<char>> {
    s.map_values(|v: VmAttachments| v.vm@)
}

spec fn vms_has(s: Seq<VmAttachments>, vm: Seq<char>) -> bool {
    exists|i: int| 0 <= i < s.len() && (#[trigger] s[i]).vm@ == vm
}

spec fn vms_idx(s: Seq<VmAttachments>, vm: Seq<char>) -> int {
    choose|i: int| 0 <= i < s.len() && (#[trigger] s[i]).vm@ == vm
}

spec fn list_map(s: Seq<VmAttachments>) -> Map<Seq<char>, Seq<(Seq<char>, Seq<char>)>> {
    Map::new(
        |vm: Seq<char>| vms_has(s, vm),
        |vm: Seq<char>| entry_pairs(s[vms_idx(s, vm)].entries@),
    )
}

proof fn lemma_dev_at(s: Seq<SysDev>, i: int)
    requires
        devs_wf(s),
        0 <= i < s.len(),
    ensures
        devs_has(s, s[i].syspath@),
        devs_idx(s, s[i].syspath@) == i,
        dev_map(s).dom().contains(s[i].syspath@),
        dev_map(s)[s[i].syspath@] == s[i].identity@,
{
    let p = s[i].syspath@;
    assert(devs_has(s, p));
    let j = devs_idx(s, p);
    assert(0 <= j < s.len() && s[j].syspath@ == p);
    if j != i {
        assert(s[i].syspath@ != s[j].syspath@);
    }
}

proof fn lemma_vm_at(s: Seq<VmAttachments>, i: int)
    requires
        vms_wf(s),
        0 <= i < s.len(),
    ensures
        vms_has(s, s[i].vm@),
        vms_idx(s, s[i].vm@) == i,
        list_map(s).dom().contains(s[i].vm@),
        list_map(s)[s[i].vm@] == entry_pairs(s[i].entries@),
        vm_names(s)[i] == s[i].vm@,
{
    let vm = s[i].vm@;
    assert(vms_has(s, vm));
    let j = vms_idx(s, vm);
    assert(0 <= j < s.len() && s[j].vm@ == vm);
    if j != i {
        assert(s[i].vm@ != s[j].vm@);
    }
}

/// The attachment tracker: attached devices by syspath and per-VM
/// `(syspath, descriptor)` lists.
pub struct AttachmentTracker {
    sysdevs: Vec<SysDev>,
    vms: Vec<VmAttachments>,
}

impl AttachmentTracker {
    /// Structural invariant: syspaths and VM names are pairwise
    /// distinct.
    pub closed spec fn wf(&self) -> bool {
        devs_wf(self.sysdevs@) && vms_wf(self.vms@)
    }

    /// The tracker's mathematical model.
    pub closed spec fn model(&self) -> TrackModel {
        TrackModel {
            devs: dev_map(self.sysdevs@),
            order: vm_names(self.vms@),
            lists: list_map(self.vms@),
        }
    }

    /// A tracker with nothing attached.
    pub fn new() -> (r: AttachmentTracker)
        ensures
            r.wf(),
            r.model() == track_empty(),
    {
        let r = AttachmentTracker { sysdevs: Vec::new(), vms: Vec::new() };
        proof {
            assert(r.model().devs =~= Map::<Seq<char>, IdentitySpec>::empty());
            assert(r.model().order =~= Seq::<Seq<char>>::empty());
            assert(r.model().lists =~= Map::<Seq<char>, Seq<(Seq<char>, Seq<char>)>>::empty());
            assert(r.model() =~= track_empty());
        }
        r
    }

    fn find_dev(devs: &Vec<SysDev>, p: &String) -> (r: Option<usize>)
        ensures
            r matches Some(i) ==> (i < devs@.len() && devs@[i as int].syspath@ == p@),
            r is None ==> !devs_has(devs@, p@),
    {
        let n = devs.len();
        let mut i: usize = 0;
        while i < n
            invariant
                n == devs@.len(),
                i <= n,
                forall|j: int| 0 <= j < i ==> (#[trigger] devs@[j]).syspath@ != p@,
            decreases n - i,
        {
            if devs[i].syspath == *p {
                return Some(i);
            }
            i = i + 1;
        }
        None
    }

    fn find_vm(vms: &Vec<VmAttachments>, vm: &String) -> (r: Option<usize>)
        ensures
            r matches Some(i) ==> (i < vms@.len() && vms@[i as int].vm@ == vm@),
            r is None ==> !vms_has(vms@, vm@),
    {
        let n = vms.len();
        let mut i: usize = 0;
        while i < n
            invariant
                n == vms@.len(),
                i <= n,
                forall|j: int| 0 <= j < i ==> (#[trigger] vms@[j]).vm@ != vm@,
            decreases n - i,
        {
            if vms[i].vm == *vm {
                return Some(i);
            }
            i = i + 1;
        }
        None
    }

    fn find_entry(entries: &Vec<AttachEntry>, p: &String) -> (r: Option<usize>)
        ensures
            r matches Some(i) ==> (i < entries@.len() && entries@[i as int].syspath@ == p@),
            r is None ==> forall|j: int|
                0 <= j < entries@.len() ==> (#[trigger] entries@[j]).syspath@ != p@,
    {
        let n = entries.len();
        let mut i: usize = 0;
        while i < n
            invariant
                n == entries@.len(),
                i <= n,
                forall|j: int| 0 <= j < i ==> (#[trigger] entries@[j]).syspath@ != p@,
            decreases n - i,
        {
            if entries[i].syspath == *p {
                return Some(i);
            }
            i = i + 1;
        }
        None
    }

    /// Whether the device at `syspath` is currently recorded as
    /// attached.
    pub fn contains_syspath(&self, syspath: &String) -> (r: bool)
        ensures
            r == self.model().devs.dom().contains(syspath@),
    {
        match Self::find_dev(&self.sysdevs, syspath) {
            Some(i) => {
                proof {
                    assert(devs_has(self.sysdevs@, syspath@));
                }
                true
            },
            None => false,
        }
    }

    /// How many `(syspath, descriptor)` pairs are recorded for `vm`.
    pub fn attachment_count(&self, vm: &String) -> (n: usize)
        requires
            self.wf(),
        ensures
            n == list_of(self.model().lists, vm@).len(),
    {
        match Self::find_vm(&self.vms, vm) {
            Some(i) => {
                proof {
                    lemma_vm_at(self.vms@, i as int);
                }
                self.vms[i].entries.len()
            },
            None => {
                proof {
                    assert(!vms_has(self.vms@, vm@));
                }
                0
            },
        }
    }

    /// Record a successful attach of the device at `syspath`, with the
    /// resolved `identity`, to domain `vm`, using descriptor `xml`.
    /// A `(vm, syspath)` pair already present is not recorded twice.
    pub fn record_attach(
        &mut self,
        vm: &String,
        syspath: &String,
        identity: &DeviceIdentity,
        xml: &String,
    )
        requires
            old(self).wf(),
        ensures
            final(self).wf(),
            final(self).model() == track_attach(
                old(self).model(),
                vm@,
                syspath@,
                identity@,
                xml@,
            ),
    {
        let ghost m0 = old(self).model();
        let ghost ma = track_attach(old(self).model(), vm@, syspath@, identity@, xml@);
        let ghost sd0 = self.sysdevs@;
        match Self::find_dev(&self.sysdevs, syspath) {
            Some(i) => {
                self.sysdevs[i] = SysDev { syspath: syspath.clone(), identity: identity.clone() };
                proof {
                    let sd1 = self.sysdevs@;
                    assert(devs_wf(sd1)) by {
                        assert forall|a: int, b: int| 0 <= a < b < sd1.len() implies (
                        #[trigger] sd1[a]).syspath@ != (#[trigger] sd1[b]).syspath@ by {
                            assert(sd1[a].syspath@ == sd0[a].syspath@);
                            assert(sd1[b].syspath@ == sd0[b].syspath@);
                        }
                    }
                    assert forall|q: Seq<char>| true implies devs_has(sd1, q) == devs_has(
                        sd0,
                        q,
                    ) by {
                        if devs_has(sd0, q) {
                            let k = devs_idx(sd0, q);
                            assert(sd1[k].syspath@ == q);
                        }
                        if devs_has(sd1, q) {
                            let k = devs_idx(sd1, q);
                            assert(sd0[k].syspath@ == q);
                        }
                    }
                    assert(dev_map(sd1) =~= ma.devs) by {
                        assert forall|q: Seq<char>| #[trigger] devs_has(sd1, q) implies dev_map(
                            sd1,
                        )[q] == ma.devs[q] by {
                            if q == syspath@ {
                                lemma_dev_at(sd1, i as int);
                            } else {
                                let k = devs_idx(sd1, q);
                                assert(sd1[k].syspath@ == q);
                                assert(k != i);
                                lemma_dev_at(sd0, k);
                                lemma_dev_at(sd1, k);
                            }
                        }
                    }
                }
            },
            None => {
                self.sysdevs.push(SysDev { syspath: syspath.clone(), identity: identity.clone() });
                proof {
                    let sd1 = self.sysdevs@;
                    let n0 = sd0.len() as int;
                    assert(sd1[n0].syspath@ == syspath@);
                    assert(devs_wf(sd1)) by {
                        assert forall|a: int, b: int| 0 <= a < b < sd1.len() implies (
                        #[trigger] sd1[a]).syspath@ != (#[trigger] sd1[b]).syspath@ by {
                            if b < n0 {
                                assert(sd1[a].syspath@ == sd0[a].syspath@);
                                assert(sd1[b].syspath@ == sd0[b].syspath@);
                            } else {
                                assert(sd1[a].syspath@ == sd0[a].syspath@);
                                assert(!devs_has(sd0, syspath@));
                            }
                        }
                    }
                    assert forall|q: Seq<char>| true implies devs_has(sd1, q) == (devs_has(sd0, q)
                        || q == syspath@) by {
                        if devs_has(sd0, q) {
                            let k = devs_idx(sd0, q);
                            assert(sd1[k].syspath@ == q);
                        }
                        if devs_has(sd1, q) {
                            let k = devs_idx(sd1, q);
                            if k < n0 {
                                assert(sd0[k].syspath@ == q);
                            }
                        }
                    }
                    assert(dev_map(sd1) =~= ma.devs) by {
                        assert forall|q: Seq<char>| #[trigger] devs_has(sd1, q) implies dev_map(
                            sd1,
                        )[q] == ma.devs[q] by {
                            if q == syspath@ {
                                lemma_dev_at(sd1, n0);
                            } else {
                                let k = devs_idx(sd1, q);
                                assert(sd1[k].syspath@ == q);
                                assert(k != n0);
                                lemma_dev_at(sd0, k);
                                lemma_dev_at(sd1, k);
                            }
                        }
                    }
                }
            },
        }
        let ghost sd1 = self.sysdevs@;
        let ghost vs0 = self.vms@;
        let vi: usize = match Self::find_vm(&self.vms, vm) {
            Some(i) => i,
            None => {
                let n = self.vms.len();
                self.vms.push(VmAttachments { vm: vm.clone(), entries: Vec::new() });
                n
            },
        };
        let ghost vs1 = self.vms@;
        proof {
            assert(vs1[vi as int].vm@ == vm@);
            assert(vms_wf(vs1)) by {
                assert forall|a: int, b: int| 0 <= a < b < vs1.len() implies (
                #[trigger] vs1[a]).vm@ != (#[trigger] vs1[b]).vm@ by {
                    if b < vs0.len() {
                        assert(vs1[a].vm == vs0[a].vm);
                        assert(vs1[b].vm == vs0[b].vm);
                    } else {
                        assert(vs1[a].vm == vs0[a].vm);
                        assert(!vms_has(vs0, vs1[b].vm@));
                    }
                }
            }
        }
        match Self::find_entry(&self.vms[vi].entries, syspath) {
            Some(_) => {
            },
            None => {
                self.vms[vi].entries.push(
                    AttachEntry { syspath: syspath.clone(), xml: xml.clone() },
                );
            },
        }
        proof {
            let vs2 = self.vms@;
            let had_vm = vms_has(vs0, vm@);
            assert(m0.lists.dom().contains(vm@) == had_vm);
            if had_vm {
                assert(vs1 == vs0);
                assert(vi as int == vms_idx(vs0, vm@)) by {
                    let k = vms_idx(vs0, vm@);
                    assert(vs0[k].vm@ == vm@);
                    if k != vi as int {
                        assert(vs0[k].vm@ != vs0[vi as int].vm@);
                    }
                }
                lemma_vm_at(vs0, vi as int);
            } else {
                assert(vi as int == vs0.len());
            }
            // names and well-formedness after the conditional entry push
            assert forall|w: int| 0 <= w < vs2.len() implies (#[trigger] vs2[w]).vm == vs1[w].vm by {}
            assert(vms_wf(vs2)) by {
                assert forall|a: int, b: int| 0 <= a < b < vs2.len() implies (
                #[trigger] vs2[a]).vm@ != (#[trigger] vs2[b]).vm@ by {
                    assert(vs2[a].vm == vs1[a].vm);
                    assert(vs2[b].vm == vs1[b].vm);
                }
            }
            if had_vm {
                assert(vm_names(vs2) =~= m0.order);
            } else {
                assert(vm_names(vs2) =~= m0.order.push(vm@));
            }
            assert forall|w: Seq<char>| true implies vms_has(vs2, w) == (vms_has(vs0, w) || w
                == vm@) by {
                if vms_has(vs0, w) {
                    let k = vms_idx(vs0, w);
                    assert(vs2[k].vm@ == w);
                }
                if vms_has(vs2, w) {
                    let k = vms_idx(vs2, w);
                    if k < vs0.len() {
                        assert(vs0[k].vm@ == w);
                    } else {
                        assert(vs2[k].vm@ == vm@);
                    }
                }
            }
            // the list of vm@ before and after the conditional push
            let l0 = list_of(m0.lists, vm@);
            let e1 = vs1[vi as int].entries@;
            assert(entry_pairs(e1) =~= l0);
            let e2 = vs2[vi as int].entries@;
            assert(list_has_syspath(l0, syspath@) == (exists|k: int|
                0 <= k < e1.len() && (#[trigger] e1[k]).syspath@ == syspath@)) by {
                if list_has_syspath(l0, syspath@) {
                    let k = choose|k: int| 0 <= k < l0.len() && (#[trigger] l0[k]).0 == syspath@;
                    assert(entry_pairs(e1)[k].0 == e1[k].syspath@);
                }
                if exists|k: int| 0 <= k < e1.len() && (#[trigger] e1[k]).syspath@ == syspath@ {
                    let k = choose|k: int|
                        0 <= k < e1.len() && (#[trigger] e1[k]).syspath@ == syspath@;
                    assert(entry_pairs(e1)[k].0 == syspath@);
                }
            }
            if list_has_syspath(l0, syspath@) {
                assert(e2 == e1);
                assert(entry_pairs(e2) =~= l0);
            } else {
                assert(e2.len() == e1.len() + 1);
                assert(e2.last().syspath@ == syspath@ && e2.last().xml@ == xml@);
                assert(entry_pairs(e2) =~= l0.push((syspath@, xml@)));
            }
            assert(list_map(vs2) =~= ma.lists) by {
                assert forall|w: Seq<char>| #[trigger] vms_has(vs2, w) implies list_map(vs2)[w]
                    == ma.lists[w] by {
                    let k = vms_idx(vs2, w);
                    assert(vs2[k].vm@ == w);
                    lemma_vm_at(vs2, k);
                    if w == vm@ {
                        assert(k == vi as int) by {
                            if k != vi as int {
                                assert(vs2[k].vm@ != vs2[vi as int].vm@);
                            }
                        }
                    } else {
                        assert(k != vi as int);
                        assert(k < vs0.len());
                        assert(vs2[k] == vs0[k]);
                        lemma_vm_at(vs0, k);
                        assert(ma.lists[w] == m0.lists[w]);
                    }
                }
            }
            assert(self.sysdevs@ == sd1);
            assert(self.model() =~= ma);
        }
    }

    /// Process a hardware remove for `syspath`: forget the device,
    /// drop every VM's entries for it, and return the detach calls to
    /// make, in VM order, each with the literal stored descriptor. A
    /// syspath never recorded is a no-op yielding no calls.
    pub fn remove_syspath(&mut self, syspath: &String) -> (acts: Vec<DetachAction>)
        requires
            old(self).wf(),
        ensures
            final(self).wf(),
            final(self).model() == track_remove(old(self).model(), syspath@),
            detach_pairs(acts@) == (if old(self).model().devs.dom().contains(syspath@) {
                detach_actions(old(self).model(), syspath@)
            } else {
                Seq::<(Seq<char>, Seq<char>)>::empty()
            }),
    {
        let ghost m0 = old(self).model();
        let ghost sd0 = self.sysdevs@;
        let di: usize = match Self::find_dev(&self.sysdevs, syspath) {
            Some(i) => i,
            None => {
                let acts: Vec<DetachAction> = Vec::new();
                proof {
                    assert(!m0.devs.dom().contains(syspath@));
                    assert(detach_pairs(acts@) =~= Seq::<(Seq<char>, Seq<char>)>::empty());
                }
                return acts;
            },
        };
        proof {
            lemma_dev_at(sd0, di as int);
            assert(m0.devs.dom().contains(syspath@));
        }
        let _ = self.sysdevs.remove(di);
        proof {
            let sd1 = self.sysdevs@;
            assert(devs_wf(sd1)) by {
                assert forall|a: int, b: int| 0 <= a < b < sd1.len() implies (
                #[trigger] sd1[a]).syspath@ != (#[trigger] sd1[b]).syspath@ by {
                    let a0 = if a < di as int {
                        a
                    } else {
                        a + 1
                    };
                    let b0 = if b < di as int {
                        b
                    } else {
                        b + 1
                    };
                    assert(sd1[a] == sd0[a0]);
                    assert(sd1[b] == sd0[b0]);
                }
            }
            assert forall|q: Seq<char>| true implies devs_has(sd1, q) == (devs_has(sd0, q) && q
                != syspath@) by {
                if devs_has(sd1, q) {
                    let k = devs_idx(sd1, q);
                    let k0 = if k < di as int {
                        k
                    } else {
                        k + 1
                    };
                    assert(sd1[k] == sd0[k0]);
                    assert(sd0[k0].syspath@ == q);
                    assert(k0 != di as int);
                    if k0 < di as int {
                        assert(sd0[k0].syspath@ != sd0[di as int].syspath@);
                    } else {
                        assert(sd0[di as int].syspath@ != sd0[k0].syspath@);
                    }
                }
                if devs_has(sd0, q) && q != syspath@ {
                    let k0 = devs_idx(sd0, q);
                    assert(sd0[k0].syspath@ == q);
                    assert(k0 != di as int);
                    let k = if k0 < di as int {
                        k0
                    } else {
                        k0 - 1
                    };
                    assert(sd1[k] == sd0[k0]);
                }
            }
            assert(dev_map(sd1) =~= m0.devs.remove(syspath@)) by {
                assert forall|q: Seq<char>| #[trigger] devs_has(sd1, q) implies dev_map(sd1)[q]
                    == m0.devs.remove(syspath@)[q] by {
                    let k = devs_idx(sd1, q);
                    assert(sd1[k].syspath@ == q);
                    let k0 = if k < di as int {
                        k
                    } else {
                        k + 1
                    };
                    assert(sd1[k] == sd0[k0]);
                    lemma_dev_at(sd1, k);
                    lemma_dev_at(sd0, k0);
                }
            }
        }
        let ghost sd1 = self.sysdevs@;
        let ghost vs0 = self.vms@;
        let mut acts: Vec<DetachAction> = Vec::new();
        let nv = self.vms.len();
        let mut v: usize = 0;
        proof {
            assert(detach_pairs(acts@) =~= Seq::<(Seq<char>, Seq<char>)>::empty());
            assert(detach_actions_from(m0, m0.order.take(0), syspath@) == Seq::<(
                Seq<char>,
                Seq<char>,
            )>::empty());
        }
        while v < nv
            invariant
                old(self).wf(),
                nv == self.vms@.len(),
                v <= nv,
                vs0 == old(self).vms@,
                m0 == old(self).model(),
                nv == vs0.len(),
                self.sysdevs@ == sd1,
                forall|w: int| 0 <= w < nv ==> (#[trigger] self.vms@[w]).vm == vs0[w].vm,
                forall|w: int|
                    0 <= w < v ==> (#[trigger] self.vms@[w]).entries@ == vs0[w].entries@.filter(
                        entry_keep_pred(syspath@),
                    ),
                forall|w: int| v <= w < nv ==> (#[trigger] self.vms@[w]) == vs0[w],
                detach_pairs(acts@) == detach_actions_from(m0, m0.order.take(v as int), syspath@),
            decreases nv - v,
        {
            let name = self.vms[v].vm.clone();
            let ghost old_entries = self.vms@[v as int].entries@;
            let ghost acts_base = acts@;
            let kept = split_entries(&self.vms[v].entries, &name, syspath, &mut acts);
            self.vms[v] = VmAttachments { vm: name, entries: kept };
            proof {
                lemma_vm_at(vs0, v as int);
                assert(m0.order[v as int] == vs0[v as int].vm@);
                assert(list_of(m0.lists, m0.order[v as int]) == entry_pairs(old_entries));
                let t1 = m0.order.take(v + 1);
                assert(t1.drop_last() =~= m0.order.take(v as int));
                assert(t1.last() == m0.order[v as int]);
                assert(detach_actions_from(m0, t1, syspath@) == detach_actions_from(
                    m0,
                    m0.order.take(v as int),
                    syspath@,
                ) + vm_detach_actions(entry_pairs(old_entries), vs0[v as int].vm@, syspath@));
                assert(detach_pairs(acts@) =~= detach_pairs(acts_base) + vm_detach_actions(
                    entry_pairs(old_entries),
                    vs0[v as int].vm@,
                    syspath@,
                ));
            }
            v = v + 1;
        }
        proof {
            let vs2 = self.vms@;
            assert(m0.order.take(nv as int) =~= m0.order);
            assert(vms_wf(vs2)) by {
                assert forall|a: int, b: int| 0 <= a < b < vs2.len() implies (
                #[trigger] vs2[a]).vm@ != (#[trigger] vs2[b]).vm@ by {
                    assert(vs2[a].vm == vs0[a].vm);
                    assert(vs2[b].vm == vs0[b].vm);
                }
            }
            assert(vm_names(vs2) =~= m0.order);
            assert forall|w: Seq<char>| true implies vms_has(vs2, w) == vms_has(vs0, w) by {
                if vms_has(vs0, w) {
                    let k = vms_idx(vs0, w);
                    assert(vs2[k].vm@ == w);
                }
                if vms_has(vs2, w) {
                    let k = vms_idx(vs2, w);
                    assert(vs0[k].vm@ == w);
                }
            }
            let mr = track_remove(m0, syspath@);
            assert(list_map(vs2) =~= mr.lists) by {
                assert forall|w: Seq<char>| #[trigger] vms_has(vs2, w) implies list_map(vs2)[w]
                    == mr.lists[w] by {
                    let k = vms_idx(vs2, w);
                    assert(vs2[k].vm@ == w);
                    lemma_vm_at(vs2, k);
                    lemma_vm_at(vs0, k);
                    assert(vs2[k].entries@ == vs0[k].entries@.filter(entry_keep_pred(syspath@)));
                    lemma_entry_filter_pairs(vs0[k].entries@, syspath@);
                    assert(mr.lists[w] == m0.lists[w].filter(keep_pred(syspath@)));
                }
            }
            assert(self.model() =~= mr);
        }
        acts
    }
}

/// Whether an attachment entry survives the removal of syspath `p`.
spec fn entry_keep_pred(p: Seq<char>) -> spec_fn(AttachEntry) -> bool {
    |a: AttachEntry| a.syspath@ != p
}

/// Filtering entries by syspath commutes with taking their
/// `(syspath, descriptor)` views.
proof fn lemma_entry_filter_pairs(s: Seq<AttachEntry>, p: Seq<char>)
    ensures
        entry_pairs(s.filter(entry_keep_pred(p))) == entry_pairs(s).filter(keep_pred(p)),
    decreases s.len(),
{
    reveal(Seq::filter);
    if s.len() == 0 {
        assert(entry_pairs(s.filter(entry_keep_pred(p))) =~= entry_pairs(s).filter(keep_pred(p)));
    } else {
        lemma_entry_filter_pairs(s.drop_last(), p);
        assert(entry_pairs(s).drop_last() =~= entry_pairs(s.drop_last()));
        assert(entry_pairs(s).last() == (s.last().syspath@, s.last().xml@));
        if s.last().syspath@ != p {
            assert(entry_pairs(s.filter(entry_keep_pred(p))) =~= entry_pairs(
                s.drop_last().filter(entry_keep_pred(p)),
            ).push((s.last().syspath@, s.last().xml@)));
            assert(entry_pairs(s).filter(keep_pred(p)) == entry_pairs(s).drop_last().filter(
                keep_pred(p),
            ).push(entry_pairs(s).last()));
        } else {
            assert(entry_pairs(s.filter(entry_keep_pred(p))) == entry_pairs(
                s.drop_last().filter(entry_keep_pred(p)),
            ));
            assert(entry_pairs(s).filter(keep_pred(p)) == entry_pairs(s).drop_last().filter(
                keep_pred(p),
            ));
        }
    }
}

/// Walk one VM's entries: keep those for other syspaths, and append a
/// detach action, in list order, for each entry for `p`.
fn split_entries(entries: &Vec<AttachEntry>, vm: &String, p: &String, acts: &mut Vec<
    DetachAction,
>) -> (kept: Vec<AttachEntry>)
    ensures
        kept@ == entries@.filter(entry_keep_pred(p@)),
        detach_pairs(final(acts)@) == detach_pairs(old(acts)@) + vm_detach_actions(
            entry_pairs(entries@),
            vm@,
            p@,
        ),
{
    let ghost base = acts@;
    let mut kept: Vec<AttachEntry> = Vec::new();
    let n = entries.len();
    let mut i: usize = 0;
    proof {
        reveal(Seq::filter);
        assert(kept@ =~= entries@.take(0).filter(entry_keep_pred(p@)));
        assert(entry_pairs(entries@.take(0)) =~= Seq::<(Seq<char>, Seq<char>)>::empty());
        assert(detach_pairs(acts@) =~= detach_pairs(base) + vm_detach_actions(
            entry_pairs(entries@.take(0)),
            vm@,
            p@,
        ));
    }
    while i < n
        invariant
            n == entries@.len(),
            i <= n,
            kept@ == entries@.take(i as int).filter(entry_keep_pred(p@)),
            detach_pairs(acts@) == detach_pairs(base) + vm_detach_actions(
                entry_pairs(entries@.take(i as int)),
                vm@,
                p@,
            ),
        decreases n - i,
    {
        let ghost prev_kept = kept@;
        let ghost prev_acts = acts@;
        let matched = entries[i].syspath == *p;
        if matched {
            acts.push(DetachAction { vm: vm.clone(), xml: entries[i].xml.clone() });
        } else {
            kept.push(
                AttachEntry { syspath: entries[i].syspath.clone(), xml: entries[i].xml.clone() },
            );
        }
        proof {
            reveal(Seq::filter);
            let t0 = entries@.take(i as int);
            let t1 = entries@.take(i + 1);
            assert(t1.drop_last() =~= t0);
            assert(t1.last() == entries@[i as int]);
            let q0 = entry_pairs(t0);
            let q1 = entry_pairs(t1);
            assert(q1.drop_last() =~= q0);
            assert(q1.last() == (entries@[i as int].syspath@, entries@[i as int].xml@));
            assert(q1.filter(keep_pred(p@)) == if q1.last().0 != p@ {
                q0.filter(keep_pred(p@)).push(q1.last())
            } else {
                q0.filter(keep_pred(p@))
            });
            assert(q1.filter(match_pred(p@)) == if q1.last().0 == p@ {
                q0.filter(match_pred(p@)).push(q1.last())
            } else {
                q0.filter(match_pred(p@))
            });
            if matched {
                assert(kept@ == t1.filter(entry_keep_pred(p@)));
                assert(detach_pairs(acts@) =~= detach_pairs(prev_acts).push((vm@, q1.last().1)));
                assert(vm_detach_actions(q1, vm@, p@) =~= vm_detach_actions(q0, vm@, p@).push(
                    (vm@, q1.last().1),
                ));
                assert(detach_pairs(acts@) =~= detach_pairs(base) + vm_detach_actions(
                    q1,
                    vm@,
                    p@,
                ));
            } else {
                assert(kept@ =~= prev_kept.push(kept@.last()));
                assert(kept@.last().syspath@ == entries@[i as int].syspath@);
                assert(kept@.last().xml@ == entries@[i as int].xml@);
                assert(kept@ == t1.filter(entry_keep_pred(p@))) by {
                    assert(t1.filter(entry_keep_pred(p@)) == t0.filter(entry_keep_pred(p@)).push(
                        t1.last(),
                    ));
                    assert(kept@.last() == t1.last());
                    assert(kept@ =~= t0.filter(entry_keep_pred(p@)).push(t1.last()));
                }
                assert(vm_detach_actions(q1, vm@, p@) == vm_detach_actions(q0, vm@, p@));
                assert(detach_pairs(acts@) == detach_pairs(prev_acts));
            }
        }
        i = i + 1;
    }
    proof {
        assert(entries@.take(n as int) =~= entries@);
    }
    kept
}

} // verus!
