//! The per-VM filter registry.
//!
//! The registry maps each VM name to the set of [`UsbFilter`] rules
//! registered for it, and remembers the order in which VM names first
//! appeared, so that matching a device identity against all VMs yields
//! a deterministic sequence. Adding a rule twice is a no-op, as is
//! removing a rule that is not present.
//!
//! Contracts are stated over [`RegModel`], the registry's mathematical
//! model: the VM name order and the per-VM filter sets.

use crate::filter::{filter_matches, identity_filter, FilterSpec, UsbFilter};
use crate::identity::{DeviceIdentity, IdentitySpec};
use crate::views::str_views;
use vstd::prelude::*;

verus! {

/// Mathematical model of the registry: VM names in first-appearance
/// order, and the set of rules of each known VM.
#[verifier::ext_equal]
pub ghost struct RegModel {
    pub order: Seq<Seq<char>>,
    pub sets: Map<Seq<char>, Set<FilterSpec>>,
}

/// The model of a registry with no rules.
pub open spec fn reg_empty() -> RegModel {
    RegModel { order: Seq::empty(), sets: Map::empty() }
}

/// The rule set of `vm` in `sets`: empty when `vm` is unknown.
pub open spec fn set_of(sets: Map<Seq<char>, Set<FilterSpec>>, vm: Seq<char>) -> Set<FilterSpec> {
    if sets.dom().contains(vm) {
        sets[vm]
    } else {
        Set::empty()
    }
}

/// The rule set of `vm` in the registry modelled by `m`.
pub open spec fn reg_set(m: RegModel, vm: Seq<char>) -> Set<FilterSpec> {
    set_of(m.sets, vm)
}

/// Effect of an add command: `f` joins `vm`'s set; a previously unseen
/// VM name is appended to the order.
pub open spec fn reg_add(m: RegModel, vm: Seq<char>, f: FilterSpec) -> RegModel {
    RegModel {
        order: if m.sets.dom().contains(vm) {
            m.order
        } else {
            m.order.push(vm)
        },
        sets: m.sets.insert(vm, reg_set(m, vm).insert(f)),
    }
}

/// Effect of a remove command: `f` leaves `vm`'s set; an unknown VM
/// name leaves the registry unchanged.
pub open spec fn reg_remove(m: RegModel, vm: Seq<char>, f: FilterSpec) -> RegModel {
    if m.sets.dom().contains(vm) {
        RegModel { order: m.order, sets: m.sets.insert(vm, m.sets[vm].remove(f)) }
    } else {
        m
    }
}

/// A registry model is well formed when the known VM names are exactly
/// those in the order, with no name listed twice.
pub open spec fn reg_wf(m: RegModel) -> bool {
    (forall|v: Seq<char>| #[trigger] m.sets.dom().contains(v) <==> m.order.contains(v))
        && m.order.no_duplicates()
}

/// Whether a VM's rule set holds a rule matching identity `id`.
pub open spec fn vm_match_pred(sets: Map<Seq<char>, Set<FilterSpec>>, id: IdentitySpec) -> spec_fn(
    Seq<char>,
) -> bool {
    |vm: Seq<char>| set_of(sets, vm).contains(identity_filter(id))
}

/// The VM names whose sets hold a rule matching `id`, in registry
/// order.
pub open spec fn matching_names(m: RegModel, id: IdentitySpec) -> Seq<Seq<char>> {
    m.order.filter(vm_match_pred(m.sets, id))
}

/// Adding the same rule again changes nothing: the registry's state
/// after two identical adds equals its state after the first.
pub proof fn lemma_add_idempotent(m: RegModel, vm: Seq<char>, f: FilterSpec)
    ensures
        reg_add(reg_add(m, vm, f), vm, f) == reg_add(m, vm, f),
{
    let m1 = reg_add(m, vm, f);
    let m2 = reg_add(m1, vm, f);
    assert(m1.sets.dom().contains(vm));
    assert(reg_set(m1, vm).insert(f) =~= reg_set(m, vm).insert(f));
    assert(m2.sets =~= m1.sets);
    assert(m2 =~= m1);
}

/// Removing a rule that is not in the VM's set leaves the registry
/// unchanged.
pub proof fn lemma_remove_absent_noop(m: RegModel, vm: Seq<char>, f: FilterSpec)
    requires
        !reg_set(m, vm).contains(f),
    ensures
        reg_remove(m, vm, f) == m,
{
    if m.sets.dom().contains(vm) {
        assert(m.sets[vm].remove(f) =~= m.sets[vm]);
        assert(reg_remove(m, vm, f).sets =~= m.sets);
        assert(reg_remove(m, vm, f) =~= m);
    }
}

/// Adds preserve model well-formedness.
pub proof fn lemma_reg_add_wf(m: RegModel, vm: Seq<char>, f: FilterSpec)
    requires
        reg_wf(m),
    ensures
        reg_wf(reg_add(m, vm, f)),
{
    let m1 = reg_add(m, vm, f);
    if m.sets.dom().contains(vm) {
        assert forall|v: Seq<char>| #[trigger] m1.sets.dom().contains(v) implies m1.order.contains(
            v,
        ) by {}
    } else {
        assert forall|v: Seq<char>| #[trigger] m1.sets.dom().contains(v) implies m1.order.contains(
            v,
        ) by {
            if v == vm {
                assert(m1.order[m1.order.len() - 1] == vm);
            } else {
                let k = choose|k: int| 0 <= k < m.order.len() && m.order[k] == v;
                assert(m1.order[k] == v);
            }
        }
        assert forall|v: Seq<char>| #[trigger] m1.order.contains(v) implies m1.sets.dom().contains(
            v,
        ) by {
            let k = choose|k: int| 0 <= k < m1.order.len() && m1.order[k] == v;
            if k < m.order.len() {
                assert(m.order.contains(v));
            }
        }
    }
}

/// Removes preserve model well-formedness.
pub proof fn lemma_reg_remove_wf(m: RegModel, vm: Seq<char>, f: FilterSpec)
    requires
        reg_wf(m),
    ensures
        reg_wf(reg_remove(m, vm, f)),
{
}

struct VmEntry {
    vm: String,
    filters: Vec<UsbFilter>,
}

spec fn filter_views(s: Seq<UsbFilter>) -> Seq<FilterSpec> {
    s.map_values(|f: UsbFilter| f@)
}

spec fn entry_set(e: VmEntry) -> Set<FilterSpec> {
    filter_views(e.filters@).to_set()
}

spec fn entry_wf(e: VmEntry) -> bool {
    forall|i: int, j: int|
        0 <= i < j < e.filters@.len() ==> (#[trigger] e.filters@[i])@ != (#[trigger] e.filters@[j])@
}

/// The filter registry: per-VM rule sets in first-appearance order.
pub struct FilterRegistry {
    entries: Vec<VmEntry>,
}

impl FilterRegistry {
    /// Structural invariant: VM names are pairwise distinct, and so are
    /// the rules within each VM's list.
    pub closed spec fn wf(&self) -> bool {
        (forall|i: int, j: int|
            0 <= i < j < self.entries@.len() ==> (#[trigger] self.entries@[i]).vm@ != (
            #[trigger] self.entries@[j]).vm@) && (forall|i: int|
            0 <= i < self.entries@.len() ==> entry_wf(#[trigger] self.entries@[i]))
    }

    spec fn names(&self) -> Seq<Seq<char>> {
        self.entries@.map_values(|e: VmEntry| e.vm@)
    }

    spec fn has_vm(&self, vm: Seq<char>) -> bool {
        exists|i: int| 0 <= i < self.entries@.len() && (#[trigger] self.entries@[i]).vm@ == vm
    }

    spec fn idx_of(&self, vm: Seq<char>) -> int {
        choose|i: int| 0 <= i < self.entries@.len() && (#[trigger] self.entries@[i]).vm@ == vm
    }

    /// The registry's mathematical model.
    pub closed spec fn model(&self) -> RegModel {
        RegModel {
            order: self.names(),
            sets: Map::new(
                |vm: Seq<char>| self.has_vm(vm),
                |vm: Seq<char>| entry_set(self.entries@[self.idx_of(vm)]),
            ),
        }
    }

    proof fn lemma_model_at(&self, i: int)
        requires
            self.wf(),
            0 <= i < self.entries@.len(),
        ensures
            self.has_vm(self.entries@[i].vm@),
            self.idx_of(self.entries@[i].vm@) == i,
            self.model().sets.dom().contains(self.entries@[i].vm@),
            self.model().sets[self.entries@[i].vm@] == entry_set(self.entries@[i]),
            self.model().order[i] == self.entries@[i].vm@,
    {
        let vm = self.entries@[i].vm@;
        assert(self.has_vm(vm));
        let j = self.idx_of(vm);
        assert(0 <= j < self.entries@.len() && self.entries@[j].vm@ == vm);
        if j != i {
            assert(self.entries@[i].vm@ != self.entries@[j].vm@);
        }
    }

    /// A well-formed registry has a well-formed model.
    pub proof fn lemma_model_wf(&self)
        requires
            self.wf(),
        ensures
            reg_wf(self.model()),
    {
        let m = self.model();
        assert forall|v: Seq<char>| #[trigger] m.sets.dom().contains(v) implies m.order.contains(
            v,
        ) by {
            let i = self.idx_of(v);
            assert(m.order[i] == v);
        }
        assert forall|v: Seq<char>| #[trigger] m.order.contains(v) implies m.sets.dom().contains(
            v,
        ) by {
            let i = choose|i: int| 0 <= i < m.order.len() && m.order[i] == v;
            assert(self.entries@[i].vm@ == v);
        }
        assert forall|i: int, j: int|
            0 <= i < m.order.len() && 0 <= j < m.order.len() && i != j implies m.order[i]
            != m.order[j] by {
            assert(m.order[i] == self.entries@[i].vm@);
            assert(m.order[j] == self.entries@[j].vm@);
        }
    }

    /// A registry with no rules.
    pub fn new() -> (r: FilterRegistry)
        ensures
            r.wf(),
            r.model() == reg_empty(),
    {
        let r = FilterRegistry { entries: Vec::new() };
        proof {
            assert(r.names() =~= Seq::<Seq<char>>::empty());
            assert(r.model().sets =~= Map::<Seq<char>, Set<FilterSpec>>::empty());
            assert(r.model() =~= reg_empty());
        }
        r
    }

    fn find_vm(entries: &Vec<VmEntry>, vm: &String) -> (r: Option<usize>)
        ensures
            r matches Some(i) ==> (i < entries@.len() && entries@[i as int].vm@ == vm@),
            r is None ==> forall|j: int|
                0 <= j < entries@.len() ==> (#[trigger] entries@[j]).vm@ != vm@,
    {
        let n = entries.len();
        let mut i: usize = 0;
        while i < n
            invariant
                n == entries@.len(),
                i <= n,
                forall|j: int| 0 <= j < i ==> (#[trigger] entries@[j]).vm@ != vm@,
            decreases n - i,
        {
            if entries[i].vm == *vm {
                return Some(i);
            }
            i = i + 1;
        }
        None
    }

    /// Register `filter` for `vm`. Re-adding a rule already present is
    /// a no-op; a new VM name joins the end of the registry order.
    pub fn add(&mut self, vm: String, filter: UsbFilter)
        requires
            old(self).wf(),
        ensures
            final(self).wf(),
            final(self).model() == reg_add(old(self).model(), vm@, filter@),
    {
        let ghost m0 = old(self).model();
        let ghost ma = reg_add(old(self).model(), vm@, filter@);
        match Self::find_vm(&self.entries, &vm) {
            Some(i) => {
                proof {
                    self.lemma_model_at(i as int);
                }
                let present = contains_filter(&self.entries[i].filters, &filter);
                let ghost e0 = self.entries@[i as int];
                if !present {
                    self.entries[i].filters.push(filter);
                }
                proof {
                    let e1 = self.entries@[i as int];
                    assert(e1.vm == e0.vm);
                    if !present {
                        lemma_filter_views_push(e0.filters@, e1.filters@.last());
                        assert(entry_set(e1) =~= entry_set(e0).insert(e1.filters@.last()@));
                        assert(entry_wf(e1)) by {
                            assert(entry_wf(e0));
                            assert forall|a: int, b: int|
                                0 <= a < b < e1.filters@.len() implies (#[trigger] e1.filters@[a])@
                                != (#[trigger] e1.filters@[b])@ by {
                                if b < e0.filters@.len() {
                                    assert(e1.filters@[a] == e0.filters@[a]);
                                    assert(e1.filters@[b] == e0.filters@[b]);
                                } else {
                                    assert(e1.filters@[a] == e0.filters@[a]);
                                    assert(e1.filters@[b] == e1.filters@.last());
                                    assert(filter_views(e0.filters@)[a] == e0.filters@[a]@);
                                    assert(e0.filters@[a]@ != filter@);
                                }
                            }
                        }
                    } else {
                        assert(filter_views(e0.filters@).contains(filter@));
                        assert(entry_set(e1).insert(filter@) =~= entry_set(e1));
                    }
                    assert(self.wf());
                    assert(self.names() =~= old(self).names());
                    self.lemma_model_at(i as int);
                    assert forall|v: Seq<char>| true implies self.has_vm(v) == old(
                        self,
                    ).has_vm(v) by {
                        if old(self).has_vm(v) {
                            let k = old(self).idx_of(v);
                            assert(self.entries@[k].vm@ == v);
                        }
                        if self.has_vm(v) {
                            let k = self.idx_of(v);
                            assert(old(self).entries@[k].vm@ == v);
                        }
                    }
                    assert(self.model().sets =~= ma.sets) by {
                        assert forall|v: Seq<char>| #[trigger]
                            self.has_vm(v) implies self.model().sets[v]
                            == ma.sets[v] by {
                            if v == vm@ {
                                assert(self.idx_of(v) == i);
                                assert(self.model().sets[v] == entry_set(
                                    self.entries@[i as int],
                                ));
                                assert(ma.sets[v] == entry_set(e0).insert(filter@));
                                assert(entry_set(self.entries@[i as int]) =~= entry_set(
                                    e0,
                                ).insert(filter@));
                            } else {
                                let k = self.idx_of(v);
                                assert(self.entries@[k].vm@ == v);
                                assert(k != i);
                                old(self).lemma_model_at(k);
                                assert(self.entries@[k] == old(self).entries@[k]);
                            }
                        }
                    }
                    assert(self.model() =~= ma);
                }
            },
            None => {
                let mut fs: Vec<UsbFilter> = Vec::new();
                fs.push(filter);
                self.entries.push(VmEntry { vm, filters: fs });
                proof {
                    let n0 = old(self).entries@.len();
                    let e1 = self.entries@[n0 as int];
                    assert(!old(self).has_vm(e1.vm@));
                    assert(!m0.sets.dom().contains(e1.vm@));
                    assert(self.wf());
                    assert(self.names() =~= old(self).names().push(e1.vm@));
                    assert(entry_set(e1) =~= Set::<FilterSpec>::empty().insert(filter@)) by {
                        assert(filter_views(e1.filters@).len() == 1);
                        assert(filter_views(e1.filters@)[0] == filter@);
                        assert forall|x: FilterSpec| #[trigger]
                            filter_views(e1.filters@).contains(x) implies x == filter@ by {
                            let k = choose|k: int|
                                0 <= k < filter_views(e1.filters@).len() && filter_views(
                                    e1.filters@,
                                )[k] == x;
                            assert(k == 0);
                        }
                        assert(filter_views(e1.filters@).contains(filter@));
                    }
                    assert(reg_set(m0, e1.vm@) =~= Set::<FilterSpec>::empty());
                    assert forall|v: Seq<char>| true implies self.has_vm(v) == (old(
                        self,
                    ).has_vm(v) || v == e1.vm@) by {
                        if old(self).has_vm(v) {
                            let k = old(self).idx_of(v);
                            assert(self.entries@[k].vm@ == v);
                        }
                        if self.has_vm(v) {
                            let k = self.idx_of(v);
                            if k < n0 {
                                assert(old(self).entries@[k].vm@ == v);
                            }
                        }
                    }
                    assert(self.model().sets =~= ma.sets) by {
                        assert forall|v: Seq<char>| #[trigger]
                            self.has_vm(v) implies self.model().sets[v]
                            == ma.sets[v] by {
                            if v == e1.vm@ {
                                self.lemma_model_at(n0 as int);
                                assert(self.model().sets[v] == entry_set(e1));
                                assert(ma.sets[v] == reg_set(m0, v).insert(filter@));
                                assert(entry_set(e1) =~= reg_set(m0, v).insert(filter@));
                            } else {
                                let k = self.idx_of(v);
                                assert(self.entries@[k].vm@ == v);
                                assert(k != n0);
                                old(self).lemma_model_at(k);
                                self.lemma_model_at(k);
                                assert(self.entries@[k] == old(self).entries@[k]);
                            }
                        }
                    }
                    assert(self.model() =~= ma);
                }
            },
        }
    }

    /// Deregister `filter` for `vm`. A rule or VM name that is not
    /// present leaves the registry unchanged.
    pub fn remove(&mut self, vm: &String, filter: &UsbFilter)
        requires
            old(self).wf(),
        ensures
            final(self).wf(),
            final(self).model() == reg_remove(old(self).model(), vm@, filter@),
    {
        let ghost m0 = old(self).model();
        let ghost ma = reg_remove(old(self).model(), vm@, filter@);
        match Self::find_vm(&self.entries, vm) {
            Some(i) => {
                proof {
                    self.lemma_model_at(i as int);
                }
                match find_filter(&self.entries[i].filters, filter) {
                    Some(k) => {
                        let ghost e0 = self.entries@[i as int];
                        let _ = self.entries[i].filters.remove(k);
                        proof {
                            let e1 = self.entries@[i as int];
                            assert(e1.vm == e0.vm);
                            assert(e1.filters@ =~= e0.filters@.remove(k as int));
                            lemma_filter_views_remove(e0.filters@, k as int);
                            assert(entry_set(e1) =~= entry_set(e0).remove(filter@));
                            assert(entry_wf(e1)) by {
                                assert forall|a: int, b: int|
                                    0 <= a < b < e1.filters@.len() implies (
                                #[trigger] e1.filters@[a])@ != (#[trigger] e1.filters@[b])@ by {
                                    let a0 = if a < k {
                                        a
                                    } else {
                                        a + 1
                                    };
                                    let b0 = if b < k {
                                        b
                                    } else {
                                        b + 1
                                    };
                                    assert(e1.filters@[a] == e0.filters@[a0]);
                                    assert(e1.filters@[b] == e0.filters@[b0]);
                                }
                            }
                            assert(self.wf());
                            assert(self.names() =~= old(self).names());
                            self.lemma_model_at(i as int);
                            assert forall|v: Seq<char>| true implies self.has_vm(v) == old(
                                self,
                            ).has_vm(v) by {
                                if old(self).has_vm(v) {
                                    let j = old(self).idx_of(v);
                                    assert(self.entries@[j].vm@ == v);
                                }
                                if self.has_vm(v) {
                                    let j = self.idx_of(v);
                                    assert(old(self).entries@[j].vm@ == v);
                                }
                            }
                            assert(self.model().sets =~= ma.sets) by {
                                assert forall|v: Seq<char>| #[trigger]
                                    self.has_vm(v) implies self.model().sets[v]
                                    == ma.sets[v] by {
                                    if v == vm@ {
                                        assert(self.idx_of(v) == i);
                                        assert(ma.sets[v] == entry_set(e0).remove(filter@));
                                    } else {
                                        let j = self.idx_of(v);
                                        assert(self.entries@[j].vm@ == v);
                                        assert(j != i);
                                        old(self).lemma_model_at(j);
                                        assert(self.entries@[j] == old(self).entries@[j]);
                                    }
                                }
                            }
                            assert(self.model() =~= ma);
                        }
                    },
                    None => {
                        proof {
                            assert(*self == *old(self));
                            assert(forall|x: FilterSpec| #[trigger]
                                filter_views(self.entries@[i as int].filters@).contains(x) ==> x
                                    != filter@) by {
                                assert forall|x: FilterSpec| #[trigger]
                                    filter_views(self.entries@[i as int].filters@).contains(
                                        x,
                                    ) implies x != filter@ by {
                                    let k = choose|k: int|
                                        0 <= k < self.entries@[i as int].filters@.len()
                                            && filter_views(self.entries@[i as int].filters@)[k]
                                            == x;
                                    assert(self.entries@[i as int].filters@[k]@ == x);
                                }
                            }
                            assert(m0.sets[vm@].remove(filter@) =~= m0.sets[vm@]);
                            assert(ma.sets =~= m0.sets);
                            assert(ma =~= m0);
                        }
                    },
                }
            },
            None => {
                proof {
                    assert(!old(self).has_vm(vm@));
                    assert(ma == m0);
                }
            },
        }
    }

    /// How many rules are registered for `vm`.
    pub fn filter_count(&self, vm: &String) -> (n: usize)
        requires
            self.wf(),
        ensures
            n == reg_set(self.model(), vm@).len(),
    {
        match Self::find_vm(&self.entries, vm) {
            Some(i) => {
                proof {
                    self.lemma_model_at(i as int);
                    let fs = self.entries@[i as int].filters@;
                    assert(filter_views(fs).no_duplicates()) by {
                        assert(entry_wf(self.entries@[i as int]));
                        assert forall|a: int, b: int|
                            0 <= a < filter_views(fs).len() && 0 <= b < filter_views(fs).len() && a
                                != b implies filter_views(fs)[a] != filter_views(fs)[b] by {
                            if a < b {
                                assert(fs[a]@ != fs[b]@);
                            } else {
                                assert(fs[b]@ != fs[a]@);
                            }
                        }
                    }
                    filter_views(fs).unique_seq_to_set();
                }
                self.entries[i].filters.len()
            },
            None => {
                proof {
                    assert(!self.has_vm(vm@));
                    assert(reg_set(self.model(), vm@) =~= Set::<FilterSpec>::empty());
                    assert(Set::<FilterSpec>::empty().len() == 0);
                }
                0
            },
        }
    }

    /// The names of every VM holding a rule that matches `identity`,
    /// in registry order.
    pub fn matching_vms(&self, identity: &DeviceIdentity) -> (r: Vec<String>)
        requires
            self.wf(),
        ensures
            str_views(r@) == matching_names(self.model(), identity@),
    {
        let mut r: Vec<String> = Vec::new();
        let n = self.entries.len();
        let mut i: usize = 0;
        proof {
            assert(str_views(r@) =~= Seq::<Seq<char>>::empty());
            reveal(Seq::filter);
            assert(self.names().take(0).filter(vm_match_pred(self.model().sets, identity@))
                =~= Seq::<Seq<char>>::empty());
        }
        while i < n
            invariant
                self.wf(),
                n == self.entries@.len(),
                i <= n,
                str_views(r@) == self.names().take(i as int).filter(
                    vm_match_pred(self.model().sets, identity@),
                ),
            decreases n - i,
        {
            let ghost pred = vm_match_pred(self.model().sets, identity@);
            let ghost prev = r@;
            let matched = entry_matches(&self.entries[i].filters, identity);
            proof {
                self.lemma_model_at(i as int);
                assert(matched == pred(self.names()[i as int])) by {
                    assert(set_of(self.model().sets, self.names()[i as int]) == entry_set(
                        self.entries@[i as int],
                    ));
                    if matched {
                        let k = choose|k: int|
                            0 <= k < self.entries@[i as int].filters@.len() && filter_matches(
                                (#[trigger] self.entries@[i as int].filters@[k])@,
                                identity@,
                            );
                        assert(filter_views(self.entries@[i as int].filters@)[k]
                            == identity_filter(identity@));
                        assert(filter_views(self.entries@[i as int].filters@).contains(
                            identity_filter(identity@),
                        ));
                    }
                    if entry_set(self.entries@[i as int]).contains(identity_filter(identity@)) {
                        let k = choose|k: int|
                            0 <= k < filter_views(self.entries@[i as int].filters@).len()
                                && filter_views(self.entries@[i as int].filters@)[k]
                                == identity_filter(identity@);
                        assert(filter_matches(self.entries@[i as int].filters@[k]@, identity@));
                    }
                }
            }
            if matched {
                r.push(self.entries[i].vm.clone());
            }
            proof {
                let t0 = self.names().take(i as int);
                let t1 = self.names().take(i + 1);
                assert(t1.drop_last() =~= t0);
                assert(t1.last() == self.names()[i as int]);
                reveal(Seq::filter);
                if matched {
                    assert(str_views(r@) =~= str_views(prev).push(self.names()[i as int]));
                    assert(t1.filter(pred) == t0.filter(pred).push(t1.last()));
                } else {
                    assert(str_views(r@) =~= str_views(prev));
                    assert(t1.filter(pred) == t0.filter(pred));
                }
            }
            i = i + 1;
        }
        proof {
            assert(self.names().take(n as int) =~= self.names());
        }
        r
    }
}

fn contains_filter(v: &Vec<UsbFilter>, f: &UsbFilter) -> (r: bool)
    ensures
        r == filter_views(v@).contains(f@),
{
    let n = v.len();
    let mut i: usize = 0;
    while i < n
        invariant
            n == v@.len(),
            i <= n,
            forall|j: int| 0 <= j < i ==> (#[trigger] v@[j])@ != f@,
        decreases n - i,
    {
        if v[i].same_rule(f) {
            proof {
                assert(filter_views(v@)[i as int] == f@);
            }
            return true;
        }
        i = i + 1;
    }
    proof {
        assert forall|k: int| 0 <= k < filter_views(v@).len() implies filter_views(v@)[k]
            != f@ by {
            assert(v@[k]@ != f@);
        }
    }
    false
}

fn find_filter(v: &Vec<UsbFilter>, f: &UsbFilter) -> (r: Option<usize>)
    ensures
        r matches Some(k) ==> (k < v@.len() && v@[k as int]@ == f@),
        r is None ==> forall|j: int| 0 <= j < v@.len() ==> (#[trigger] v@[j])@ != f@,
{
    let n = v.len();
    let mut i: usize = 0;
    while i < n
        invariant
            n == v@.len(),
            i <= n,
            forall|j: int| 0 <= j < i ==> (#[trigger] v@[j])@ != f@,
        decreases n - i,
    {
        if v[i].same_rule(f) {
            return Some(i);
        }
        i = i + 1;
    }
    None
}

fn entry_matches(v: &Vec<UsbFilter>, id: &DeviceIdentity) -> (r: bool)
    ensures
        r == exists|k: int| 0 <= k < v@.len() && filter_matches((#[trigger] v@[k])@, id@),
{
    let n = v.len();
    let mut i: usize = 0;
    while i < n
        invariant
            n == v@.len(),
            i <= n,
            forall|j: int| 0 <= j < i ==> !filter_matches((#[trigger] v@[j])@, id@),
        decreases n - i,
    {
        if v[i].matches_identity(id) {
            return true;
        }
        i = i + 1;
    }
    false
}

proof fn lemma_filter_views_push(s: Seq<UsbFilter>, f: UsbFilter)
    ensures
        filter_views(s.push(f)) =~= filter_views(s).push(f@),
        filter_views(s.push(f)).to_set() =~= filter_views(s).to_set().insert(f@),
{
    assert(filter_views(s.push(f)) =~= filter_views(s).push(f@));
    let l = filter_views(s).push(f@);
    assert forall|x: FilterSpec| #[trigger] l.contains(x) implies filter_views(s).contains(x) || x
        == f@ by {
        let k = choose|k: int| 0 <= k < l.len() && l[k] == x;
        if k < filter_views(s).len() {
            assert(filter_views(s)[k] == x);
        }
    }
    assert forall|x: FilterSpec| filter_views(s).contains(x) implies #[trigger] l.contains(x) by {
        let k = choose|k: int| 0 <= k < filter_views(s).len() && filter_views(s)[k] == x;
        assert(l[k] == x);
    }
    assert(l.contains(f@)) by {
        assert(l[l.len() - 1] == f@);
    }
}

proof fn lemma_filter_views_remove(s: Seq<UsbFilter>, k: int)
    requires
        0 <= k < s.len(),
        forall|i: int, j: int| 0 <= i < j < s.len() ==> (#[trigger] s[i])@ != (#[trigger] s[j])@,
    ensures
        filter_views(s.remove(k)).to_set() =~= filter_views(s).to_set().remove(s[k]@),
{
    let t = s.remove(k);
    assert forall|x: FilterSpec| #[trigger]
        filter_views(t).contains(x) implies filter_views(s).to_set().remove(s[k]@).contains(x) by {
        let a = choose|a: int| 0 <= a < filter_views(t).len() && filter_views(t)[a] == x;
        let a0 = if a < k {
            a
        } else {
            a + 1
        };
        assert(t[a] == s[a0]);
        assert(filter_views(s)[a0] == x);
        assert(filter_views(s).contains(x));
        assert(a0 != k);
        assert(x != s[k]@) by {
            if a0 < k {
                assert(s[a0]@ != s[k]@);
            } else {
                assert(s[k]@ != s[a0]@);
            }
        }
    }
    assert forall|x: FilterSpec|
        filter_views(s).to_set().remove(s[k]@).contains(x) implies #[trigger]
    filter_views(t).contains(x) by {
        let a0 = choose|a0: int| 0 <= a0 < filter_views(s).len() && filter_views(s)[a0] == x;
        assert(s[a0]@ == x);
        assert(a0 != k);
        let a = if a0 < k {
            a0
        } else {
            a0 - 1
        };
        assert(t[a] == s[a0]);
        assert(filter_views(t)[a] == x);
    }
}

} // verus!
