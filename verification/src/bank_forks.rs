//! The set of bank forks: every bank that is still of interest, by slot,
//! and the root slot below which the ledger is settled.

use std::collections::HashMap;
use vstd::prelude::*;

use crate::bank::{Bank, Slot};

verus! {

broadcast use vstd::std_specs::hash::group_hash_axioms;

/// What a fork set holds: its root slot and its banks by slot.
pub struct ForksView {
    pub root: Slot,
    pub banks: Map<Slot, Bank>,
}

/// Each slot is greater than the one before it.
pub open spec fn strictly_ascending(slots: Seq<Slot>) -> bool {
    forall|i: int, j: int| 0 <= i < j < slots.len() ==> slots[i] < slots[j]
}

impl ForksView {
    /// The root bank is present and each bank is filed under its own slot.
    pub open spec fn wf(self) -> bool {
        &&& self.banks.contains_key(self.root)
        &&& forall|s: Slot| #[trigger] self.banks.contains_key(s) ==> self.banks[s].slot == s
    }

    /// The bank at the root slot.
    pub open spec fn root_bank(self) -> Bank {
        self.banks[self.root]
    }

    /// The bank at `slot`, if there is one.
    pub open spec fn get(self, slot: Slot) -> Option<Bank> {
        self.banks.get(slot)
    }

    /// The frozen banks, by slot.
    pub open spec fn frozen_banks(self) -> Map<Slot, Bank> {
        Map::new(
            |s: Slot| self.banks.contains_key(s) && self.banks[s].frozen,
            |s: Slot| self.banks[s],
        )
    }

    /// Whether a bank that is not frozen sits at `slot`.
    pub open spec fn is_active(self, slot: Slot) -> bool {
        self.banks.contains_key(slot) && !self.banks[slot].frozen
    }

    /// The slots of the banks that are not frozen.
    pub open spec fn active_slots(self) -> Set<Slot> {
        Set::new(|s: Slot| self.is_active(s))
    }

    /// The fork set after `bank` is added under its slot; no other bank
    /// changes.
    pub open spec fn insert(self, bank: Bank) -> ForksView {
        ForksView { root: self.root, banks: self.banks.insert(bank.slot, bank) }
    }

    /// The fork set after the bank at `slot`, if there is one, is frozen;
    /// no other bank changes.
    pub open spec fn freeze(self, slot: Slot) -> ForksView {
        if self.banks.contains_key(slot) {
            ForksView { root: self.root, banks: self.banks.insert(slot, self.banks[slot].frozen_copy()) }
        } else {
            self
        }
    }

    /// The child for `slot` of the bank at `parent`, if there is one. The
    /// child is handed out, not added to the set.
    pub open spec fn child_of(self, parent: Slot, slot: Slot) -> Option<Bank> {
        if self.banks.contains_key(parent) {
            Some(Bank { slot, parent_slot: Some(parent), frozen: false })
        } else {
            None
        }
    }
}

/// Adding a bank and then asking for its slot gives the bank back.
pub proof fn lemma_insert_then_get(forks: ForksView, bank: Bank)
    requires
        forks.wf(),
        !forks.banks.contains_key(bank.slot),
    ensures
        forks.insert(bank).get(bank.slot) == Some(bank),
{
}

/// Adding a bank leaves every bank already held as it was.
pub proof fn lemma_insert_keeps_other_slots(forks: ForksView, bank: Bank, slot: Slot)
    requires
        forks.wf(),
        !forks.banks.contains_key(bank.slot),
        slot != bank.slot,
    ensures
        forks.insert(bank).get(slot) == forks.get(slot),
{
}

/// Adding a bank keeps the fork set well formed, keeps the root slot and
/// the root bank, and loses no bank.
pub proof fn lemma_insert_keeps_wf(forks: ForksView, bank: Bank)
    requires
        forks.wf(),
        !forks.banks.contains_key(bank.slot),
    ensures
        forks.insert(bank).wf(),
        forks.insert(bank).root == forks.root,
        forks.insert(bank).root_bank() == forks.root_bank(),
        forall|s: Slot| #[trigger] forks.banks.contains_key(s) ==> forks.insert(bank).banks.contains_key(s),
{
}

/// The root bank is in the fork set, under the root slot.
pub proof fn lemma_root_bank_present(forks: ForksView)
    requires
        forks.wf(),
    ensures
        forks.get(forks.root) == Some(forks.root_bank()),
        forks.root_bank().slot == forks.root,
{
}

/// Each bank of the fork set is either frozen or active, never both, and
/// nothing outside the set is either.
pub proof fn lemma_frozen_active_partition(forks: ForksView, slot: Slot)
    ensures
        forks.banks.contains_key(slot) <==> (forks.frozen_banks().contains_key(slot)
            || forks.active_slots().contains(slot)),
        !(forks.frozen_banks().contains_key(slot) && forks.active_slots().contains(slot)),
{
}

/// After adding a bank, the active slots are those from before, with the
/// new slot where the new bank is not frozen.
pub proof fn lemma_insert_active_slots(forks: ForksView, bank: Bank)
    requires
        forks.wf(),
        !forks.banks.contains_key(bank.slot),
    ensures
        forks.insert(bank).active_slots() == (if bank.frozen {
            forks.active_slots()
        } else {
            forks.active_slots().insert(bank.slot)
        }),
{
    let expected = if bank.frozen {
        forks.active_slots()
    } else {
        forks.active_slots().insert(bank.slot)
    };
    assert(forks.insert(bank).active_slots() =~= expected);
}

/// After adding a bank, the frozen banks are those from before, with the
/// new bank where it is frozen.
pub proof fn lemma_insert_frozen_banks(forks: ForksView, bank: Bank)
    requires
        forks.wf(),
        !forks.banks.contains_key(bank.slot),
    ensures
        forks.insert(bank).frozen_banks() == (if bank.frozen {
            forks.frozen_banks().insert(bank.slot, bank)
        } else {
            forks.frozen_banks()
        }),
{
    let expected = if bank.frozen {
        forks.frozen_banks().insert(bank.slot, bank)
    } else {
        forks.frozen_banks()
    };
    assert(forks.insert(bank).frozen_banks() =~= expected);
}

/// Freezing a slot changes the bank there alone: it keeps its slot and its
/// parent, it is frozen, it leaves the active slots and joins the frozen
/// banks; the fork set stays well formed with the same root.
pub proof fn lemma_freeze(forks: ForksView, slot: Slot)
    requires
        forks.wf(),
    ensures
        forks.freeze(slot).wf(),
        forks.freeze(slot).root == forks.root,
        forall|other: Slot| other != slot ==> #[trigger] forks.freeze(slot).get(other) == forks.get(other),
        forks.freeze(slot).banks.contains_key(slot) == forks.banks.contains_key(slot),
        forks.banks.contains_key(slot) ==> forks.freeze(slot).banks[slot] == forks.banks[slot].frozen_copy(),
        forks.freeze(slot).active_slots() == forks.active_slots().remove(slot),
        forks.freeze(slot).frozen_banks() == (if forks.banks.contains_key(slot) {
            forks.frozen_banks().insert(slot, forks.banks[slot].frozen_copy())
        } else {
            forks.frozen_banks()
        }),
{
    assert(forks.freeze(slot).active_slots() =~= forks.active_slots().remove(slot));
    let expected = if forks.banks.contains_key(slot) {
        forks.frozen_banks().insert(slot, forks.banks[slot].frozen_copy())
    } else {
        forks.frozen_banks()
    };
    assert(forks.freeze(slot).frozen_banks() =~= expected);
}

/// Making a child of a held bank and adding it: the parent is frozen from
/// the moment the child is made, and the active slots lose the parent's
/// slot and gain the child's.
pub proof fn lemma_child_then_insert(forks: ForksView, parent: Slot, slot: Slot)
    requires
        forks.wf(),
        forks.banks.contains_key(parent),
        !forks.banks.contains_key(slot),
    ensures
        forks.child_of(parent, slot) == Some(Bank { slot, parent_slot: Some(parent), frozen: false }),
        forks.freeze(parent).banks[parent].frozen,
        forks.freeze(parent).insert(forks.child_of(parent, slot).unwrap()).active_slots()
            == forks.active_slots().remove(parent).insert(slot),
{
    let after = forks.freeze(parent);
    lemma_freeze(forks, parent);
    lemma_insert_active_slots(after, forks.child_of(parent, slot).unwrap());
}

/// The fork set: the banks, in ascending order of slot, and the root slot.
///
/// The banks are kept in a `Vec` sorted by slot rather than in a map keyed
/// by slot: lookups are a binary search, and the active slots come out in
/// ascending order with one pass.
///
/// The set holds banks by value. What it hands out (`get`, `root_bank`,
/// `frozen_banks`) are copies taken at that moment: a change made to a copy
/// does not reach the held bank, and a later change to the held bank
/// (`freeze`, `new_from_parent`) does not reach the copy.
pub struct BankForks {
    root: Slot,
    banks: Vec<Bank>,
}

spec fn ascending(s: Seq<Bank>) -> bool {
    forall|i: int, j: int| 0 <= i < j < s.len() ==> s[i].slot < s[j].slot
}

spec fn holds_slot(s: Seq<Bank>, k: Slot) -> bool {
    exists|i: int| 0 <= i < s.len() && s[i].slot == k
}

spec fn bank_map(s: Seq<Bank>) -> Map<Slot, Bank> {
    Map::new(
        |k: Slot| holds_slot(s, k),
        |k: Slot| s[choose|i: int| 0 <= i < s.len() && s[i].slot == k],
    )
}

proof fn lemma_bank_map_at(s: Seq<Bank>, i: int)
    requires
        ascending(s),
        0 <= i < s.len(),
    ensures
        bank_map(s).contains_key(s[i].slot),
        bank_map(s)[s[i].slot] == s[i],
{
    let k = s[i].slot;
    assert(0 <= i < s.len() && s[i].slot == k);
    assert(holds_slot(s, k));
    let j = choose|j: int| 0 <= j < s.len() && s[j].slot == k;
    assert(j == i);
}

proof fn lemma_bank_map_wf(s: Seq<Bank>)
    requires
        ascending(s),
    ensures
        forall|k: Slot| #[trigger] bank_map(s).contains_key(k) ==> bank_map(s)[k].slot == k,
{
    assert forall|k: Slot| #[trigger] bank_map(s).contains_key(k) implies bank_map(s)[k].slot == k by {
        let j = choose|j: int| 0 <= j < s.len() && s[j].slot == k;
        lemma_bank_map_at(s, j);
    }
}

impl View for BankForks {
    type V = ForksView;

    closed spec fn view(&self) -> ForksView {
        ForksView { root: self.root, banks: bank_map(self.banks@) }
    }
}

impl BankForks {
    /// The banks ascend by slot and one of them sits at the root slot.
    #[verifier::type_invariant]
    pub closed spec fn inv(self) -> bool {
        &&& ascending(self.banks@)
        &&& holds_slot(self.banks@, self.root)
    }

    /// Every fork set is well formed.
    pub proof fn lemma_view_wf(&self)
        requires
            self.inv(),
        ensures
            self@.wf(),
    {
        lemma_bank_map_wf(self.banks@);
    }

    /// A fork set that holds `root_bank` alone, rooted at its slot.
    pub fn new(root_bank: Bank) -> (forks: BankForks)
        ensures
            forks@.wf(),
            forks@.root == root_bank.slot,
            forks@.banks == Map::<Slot, Bank>::empty().insert(root_bank.slot, root_bank),
    {
        let mut banks: Vec<Bank> = Vec::new();
        banks.push(root_bank);
        proof {
            let s = banks@;
            assert(s[0].slot == root_bank.slot);
            lemma_bank_map_at(s, 0);
            assert(bank_map(s) =~= Map::<Slot, Bank>::empty().insert(root_bank.slot, root_bank));
        }
        let forks = BankForks { root: root_bank.slot, banks };
        proof {
            forks.lemma_view_wf();
        }
        forks
    }

    /// The root slot.
    pub fn root(&self) -> (root: Slot)
        ensures
            root == self@.root,
    {
        self.root
    }

    /// A copy of the bank at the root slot.
    pub fn root_bank(&self) -> (bank: Bank)
        ensures
            bank == self@.root_bank(),
            bank == self@.banks[self@.root],
            bank.slot == self@.root,
    {
        proof {
            use_type_invariant(self);
        }
        match position_in(&self.banks, self.root) {
            Ok(i) => {
                proof {
                    lemma_bank_map_at(self.banks@, i as int);
                }
                self.banks[i]
            },
            Err(_) => {
                proof {
                    let j = choose|j: int| 0 <= j < self.banks@.len() && self.banks@[j].slot == self.root;
                    assert(self.banks@[j].slot == self.root);
                }
                self.banks[0]
            },
        }
    }

    /// A copy of the bank at `slot`, if there is one. Freezing the copy, or
    /// making a child of it with [`Bank::new_from_parent`], leaves the held
    /// bank as it is; to do either to the held bank, use [`Self::freeze`] or
    /// [`Self::new_from_parent`].
    pub fn get(&self, slot: Slot) -> (bank: Option<Bank>)
        ensures
            bank == self@.get(slot),
            bank is Some <==> self@.banks.contains_key(slot),
            bank matches Some(b) ==> b == self@.banks[slot] && b.slot == slot,
    {
        proof {
            use_type_invariant(self);
        }
        match position_in(&self.banks, slot) {
            Ok(i) => {
                proof {
                    lemma_bank_map_at(self.banks@, i as int);
                }
                Some(self.banks[i])
            },
            Err(_) => {
                proof {
                    if holds_slot(self.banks@, slot) {
                        let j = choose|j: int| 0 <= j < self.banks@.len() && self.banks@[j].slot == slot;
                        assert(self.banks@[j].slot == slot);
                    }
                }
                None
            },
        }
    }

    /// Adds `bank` under its slot, which no bank of the set holds yet. Where
    /// the bank's parent is in the set, the parent is frozen from then on.
    pub fn insert(&mut self, bank: Bank)
        requires
            !old(self)@.banks.contains_key(bank.slot),
        ensures
            final(self)@ == old(self)@.insert(bank),
            final(self)@.wf(),
            final(self)@.root == old(self)@.root,
            final(self)@.banks == old(self)@.banks.insert(bank.slot, bank),
    {
        let mut taken = BankForks::new(bank);
        std::mem::swap(self, &mut taken);
        proof {
            use_type_invariant(&taken);
        }
        let BankForks { root, mut banks } = taken;
        let ghost before = banks@;
        assert(bank_map(before) == old(self)@.banks);
        match position_in(&banks, bank.slot) {
            Ok(i) => {
                proof {
                    lemma_bank_map_at(before, i as int);
                }
            },
            Err(i) => {
                proof {
                    lemma_insert_keeps_order(before, i as int, bank);
                    let j = choose|j: int| 0 <= j < before.len() && before[j].slot == root;
                    if j < i {
                        assert(banks@.insert(i as int, bank)[j].slot == root);
                    } else {
                        assert(banks@.insert(i as int, bank)[j + 1].slot == root);
                    }
                }
                banks.insert(i, bank);
            },
        }
        *self = BankForks { root, banks };
        proof {
            self.lemma_view_wf();
        }
    }

    /// Freezes the bank at `slot`, if there is one; no other bank changes.
    pub fn freeze(&mut self, slot: Slot)
        ensures
            final(self)@ == old(self)@.freeze(slot),
            final(self)@.wf(),
            final(self)@.root == old(self)@.root,
            final(self)@.banks.dom() == old(self)@.banks.dom(),
            forall|s: Slot| #[trigger] final(self)@.banks.contains_key(s) && s != slot
                ==> final(self)@.banks[s] == old(self)@.banks[s],
            old(self)@.banks.contains_key(slot) ==> ({
                let held = final(self)@.banks[slot];
                &&& held.slot == old(self)@.banks[slot].slot
                &&& held.parent_slot == old(self)@.banks[slot].parent_slot
                &&& held.frozen
            }),
    {
        proof {
            use_type_invariant(&*self);
        }
        let ghost before = self.banks@;
        match position_in(&self.banks, slot) {
            Ok(i) => {
                let frozen_bank = Bank { frozen: true, ..self.banks[i] };
                let mut taken = BankForks::new(frozen_bank);
                std::mem::swap(self, &mut taken);
                proof {
                    use_type_invariant(&taken);
                }
                let BankForks { root, mut banks } = taken;
                proof {
                    lemma_bank_map_at(before, i as int);
                    lemma_update_keeps_order(before, i as int, frozen_bank);
                }
                banks.set(i, frozen_bank);
                *self = BankForks { root, banks };
            },
            Err(_) => {
                proof {
                    if holds_slot(before, slot) {
                        let j = choose|j: int| 0 <= j < before.len() && before[j].slot == slot;
                        assert(before[j].slot == slot);
                    }
                }
            },
        }
        proof {
            use_type_invariant(&*self);
            self.lemma_view_wf();
        }
    }

    /// Makes a child for `slot` of the bank at `parent`, if there is one. A
    /// bank is only made from a complete parent, so the stored parent is
    /// frozen at once; the child is handed out, not added to the set.
    pub fn new_from_parent(&mut self, parent: Slot, slot: Slot) -> (child: Option<Bank>)
        ensures
            child == old(self)@.child_of(parent, slot),
            final(self)@ == old(self)@.freeze(parent),
            final(self)@.wf(),
            child is Some <==> old(self)@.banks.contains_key(parent),
            child matches Some(c) ==> c == (Bank { slot, parent_slot: Some(parent), frozen: false }),
    {
        let child = match self.get(parent) {
            Some(_) => Some(Bank { slot, parent_slot: Some(parent), frozen: false }),
            None => None,
        };
        self.freeze(parent);
        child
    }

    /// Copies of the frozen banks, by slot.
    pub fn frozen_banks(&self) -> (frozen: HashMap<Slot, Bank>)
        ensures
            frozen@ == self@.frozen_banks(),
            forall|k: Slot| #[trigger] frozen@.contains_key(k) <==> (self@.banks.contains_key(k) && self@.banks[k].frozen),
            forall|k: Slot| #[trigger] frozen@.contains_key(k) ==> frozen@[k] == self@.banks[k],
    {
        proof {
            use_type_invariant(self);
        }
        let ghost s = self.banks@;
        let mut frozen: HashMap<Slot, Bank> = HashMap::new();
        let mut i: usize = 0;
        assert(frozen@ =~= frozen_prefix(s, 0));
        while i < self.banks.len()
            invariant
                s == self.banks@,
                ascending(s),
                i <= s.len(),
                frozen@ == frozen_prefix(s, i as int),
            decreases s.len() - i,
        {
            let bank = self.banks[i];
            proof {
                lemma_bank_map_at(s, i as int);
                lemma_frozen_prefix_step(s, i as int);
            }
            if bank.frozen {
                frozen.insert(bank.slot, bank);
            }
            i = i + 1;
        }
        proof {
            lemma_frozen_prefix_full(s);
        }
        frozen
    }

    /// The slots of the banks that are not frozen, in ascending order.
    pub fn active_bank_slots(&self) -> (slots: Vec<Slot>)
        ensures
            strictly_ascending(slots@),
            forall|k: Slot| slots@.contains(k) <==> self@.is_active(k),
            forall|i: int, j: int| 0 <= i < j < slots@.len() ==> slots@[i] < slots@[j],
            forall|k: Slot| slots@.contains(k) <==> (self@.banks.contains_key(k) && !self@.banks[k].frozen),
    {
        proof {
            use_type_invariant(self);
        }
        let ghost s = self.banks@;
        let mut slots: Vec<Slot> = Vec::new();
        let mut i: usize = 0;
        while i < self.banks.len()
            invariant
                s == self.banks@,
                ascending(s),
                i <= s.len(),
                strictly_ascending(slots@),
                forall|t: int, j: int|
                    0 <= t < slots@.len() && i <= j < s.len() ==> #[trigger] slots@[t] < #[trigger] s[j].slot,
                forall|k: Slot|
                    slots@.contains(k) <==> exists|j: int|
                        0 <= j < i && #[trigger] s[j].slot == k && !s[j].frozen,
            decreases s.len() - i,
        {
            let bank = self.banks[i];
            if !bank.frozen {
                let ghost before = slots@;
                slots.push(bank.slot);
                proof {
                    assert forall|k: Slot| slots@.contains(k) <==> exists|j: int|
                        0 <= j < i + 1 && #[trigger] s[j].slot == k && !s[j].frozen by {
                        if slots@.contains(k) {
                            let t = choose|t: int| 0 <= t < slots@.len() && slots@[t] == k;
                            if t < before.len() {
                                assert(before[t] == k);
                                assert(before.contains(k));
                            } else {
                                assert(s[i as int].slot == k);
                            }
                        }
                        if exists|j: int| 0 <= j < i + 1 && #[trigger] s[j].slot == k && !s[j].frozen {
                            let j = choose|j: int| 0 <= j < i + 1 && #[trigger] s[j].slot == k && !s[j].frozen;
                            if j < i {
                                assert(before.contains(k));
                                let t = choose|t: int| 0 <= t < before.len() && before[t] == k;
                                assert(slots@[t] == k);
                            } else {
                                assert(slots@[before.len() as int] == k);
                            }
                        }
                    }
                }
            } else {
                proof {
                    assert forall|k: Slot| slots@.contains(k) <==> exists|j: int|
                        0 <= j < i + 1 && #[trigger] s[j].slot == k && !s[j].frozen by {
                        if exists|j: int| 0 <= j < i + 1 && #[trigger] s[j].slot == k && !s[j].frozen {
                            let j = choose|j: int| 0 <= j < i + 1 && #[trigger] s[j].slot == k && !s[j].frozen;
                            assert(j != i);
                        }
                    }
                }
            }
            i = i + 1;
        }
        proof {
            assert forall|k: Slot| slots@.contains(k) <==> self@.is_active(k) by {
                if slots@.contains(k) {
                    let j = choose|j: int| 0 <= j < s.len() && #[trigger] s[j].slot == k && !s[j].frozen;
                    lemma_bank_map_at(s, j);
                }
                if self@.is_active(k) {
                    let j = choose|j: int| 0 <= j < s.len() && s[j].slot == k;
                    lemma_bank_map_at(s, j);
                    assert(0 <= j < s.len() && s[j].slot == k && !s[j].frozen);
                }
            }
        }
        slots
    }
}

/// The frozen banks among the first `n`, by slot.
spec fn frozen_prefix(s: Seq<Bank>, n: int) -> Map<Slot, Bank> {
    Map::new(
        |k: Slot| exists|j: int| 0 <= j < n && #[trigger] s[j].slot == k && s[j].frozen,
        |k: Slot| bank_map(s)[k],
    )
}

proof fn lemma_frozen_prefix_step(s: Seq<Bank>, i: int)
    requires
        ascending(s),
        0 <= i < s.len(),
    ensures
        frozen_prefix(s, i + 1) == (if s[i].frozen {
            frozen_prefix(s, i).insert(s[i].slot, s[i])
        } else {
            frozen_prefix(s, i)
        }),
{
    lemma_bank_map_at(s, i);
    let next = if s[i].frozen {
        frozen_prefix(s, i).insert(s[i].slot, s[i])
    } else {
        frozen_prefix(s, i)
    };
    assert forall|k: Slot| frozen_prefix(s, i + 1).contains_key(k) <==> next.contains_key(k) by {
        if frozen_prefix(s, i + 1).contains_key(k) {
            let j = choose|j: int| 0 <= j < i + 1 && #[trigger] s[j].slot == k && s[j].frozen;
            if j < i {
                assert(frozen_prefix(s, i).contains_key(k));
            }
        }
        if frozen_prefix(s, i).contains_key(k) {
            let j = choose|j: int| 0 <= j < i && #[trigger] s[j].slot == k && s[j].frozen;
            assert(0 <= j < i + 1 && s[j].slot == k && s[j].frozen);
        }
        if s[i].frozen && k == s[i].slot {
            assert(0 <= i < i + 1 && s[i].slot == k && s[i].frozen);
        }
    }
    assert(frozen_prefix(s, i + 1) =~= next);
}

proof fn lemma_frozen_prefix_full(s: Seq<Bank>)
    requires
        ascending(s),
    ensures
        frozen_prefix(s, s.len() as int) == (ForksView { root: 0, banks: bank_map(s) }).frozen_banks(),
{
    let v = ForksView { root: 0, banks: bank_map(s) };
    assert forall|k: Slot| frozen_prefix(s, s.len() as int).contains_key(k) <==> v.frozen_banks().contains_key(k) by {
        if frozen_prefix(s, s.len() as int).contains_key(k) {
            let j = choose|j: int| 0 <= j < s.len() && #[trigger] s[j].slot == k && s[j].frozen;
            lemma_bank_map_at(s, j);
        }
        if v.frozen_banks().contains_key(k) {
            let j = choose|j: int| 0 <= j < s.len() && s[j].slot == k;
            lemma_bank_map_at(s, j);
            assert(0 <= j < s.len() && s[j].slot == k && s[j].frozen);
        }
    }
    assert(frozen_prefix(s, s.len() as int) =~= v.frozen_banks());
}

/// Where `slot` stands among `banks`, which ascend by slot: `Ok` with its
/// index where a bank holds it, else `Err` with the index at which such a
/// bank would go.
fn position_in(banks: &Vec<Bank>, slot: Slot) -> (pos: Result<usize, usize>)
    requires
        ascending(banks@),
    ensures
        match pos {
            Ok(i) => i < banks@.len() && banks@[i as int].slot == slot,
            Err(i) => {
                &&& i <= banks@.len()
                &&& forall|j: int| 0 <= j < i ==> #[trigger] banks@[j].slot < slot
                &&& forall|j: int| i <= j < banks@.len() ==> #[trigger] banks@[j].slot > slot
            },
        },
{
    let mut lo: usize = 0;
    let mut hi: usize = banks.len();
    while lo < hi
        invariant
            lo <= hi <= banks@.len(),
            ascending(banks@),
            forall|j: int| 0 <= j < lo ==> #[trigger] banks@[j].slot < slot,
            forall|j: int| hi <= j < banks@.len() ==> #[trigger] banks@[j].slot > slot,
        decreases hi - lo,
    {
        let mid = lo + (hi - lo) / 2;
        let here = banks[mid].slot;
        if here == slot {
            return Ok(mid);
        } else if here < slot {
            lo = mid + 1;
        } else {
            hi = mid;
        }
    }
    Err(lo)
}

/// Replacing a bank by one of the same slot keeps the order, and the map
/// changes at that slot alone.
proof fn lemma_update_keeps_order(s: Seq<Bank>, i: int, b: Bank)
    requires
        ascending(s),
        0 <= i < s.len(),
        b.slot == s[i].slot,
    ensures
        ascending(s.update(i, b)),
        holds_slot(s.update(i, b), b.slot),
        forall|k: Slot| holds_slot(s, k) <==> holds_slot(s.update(i, b), k),
        bank_map(s.update(i, b)) =~= bank_map(s).insert(b.slot, b),
{
    let t = s.update(i, b);
    assert(t[i].slot == b.slot);
    assert forall|k: Slot| holds_slot(s, k) <==> holds_slot(t, k) by {
        if holds_slot(s, k) {
            let j = choose|j: int| 0 <= j < s.len() && s[j].slot == k;
            assert(t[j].slot == k);
        }
        if holds_slot(t, k) {
            let j = choose|j: int| 0 <= j < t.len() && t[j].slot == k;
            assert(s[j].slot == k);
        }
    }
    assert forall|k: Slot| #[trigger] bank_map(t).contains_key(k) implies bank_map(t)[k]
        == bank_map(s).insert(b.slot, b)[k] by {
        let j = choose|j: int| 0 <= j < t.len() && t[j].slot == k;
        lemma_bank_map_at(t, j);
        if j != i {
            assert(s[j] == t[j]);
            lemma_bank_map_at(s, j);
        }
    }
    lemma_bank_map_at(t, i);
}

/// Putting a bank at the place its slot belongs keeps the order, and the
/// map gains that slot alone.
proof fn lemma_insert_keeps_order(s: Seq<Bank>, i: int, b: Bank)
    requires
        ascending(s),
        0 <= i <= s.len(),
        forall|j: int| 0 <= j < i ==> #[trigger] s[j].slot < b.slot,
        forall|j: int| i <= j < s.len() ==> #[trigger] s[j].slot > b.slot,
    ensures
        ascending(s.insert(i, b)),
        bank_map(s.insert(i, b)) =~= bank_map(s).insert(b.slot, b),
{
    let t = s.insert(i, b);
    assert(t.len() == s.len() + 1);
    assert forall|j: int| 0 <= j < t.len() implies #[trigger] t[j] == (if j < i {
        s[j]
    } else if j == i {
        b
    } else {
        s[j - 1]
    }) by {}
    assert forall|x: int, y: int| 0 <= x < y < t.len() implies t[x].slot < t[y].slot by {
        assert(t[x] == (if x < i { s[x] } else if x == i { b } else { s[x - 1] }));
        assert(t[y] == (if y < i { s[y] } else if y == i { b } else { s[y - 1] }));
    }
    assert forall|k: Slot| holds_slot(t, k) <==> (holds_slot(s, k) || k == b.slot) by {
        if holds_slot(s, k) {
            let j = choose|j: int| 0 <= j < s.len() && s[j].slot == k;
            if j < i {
                assert(t[j].slot == k);
            } else {
                assert(t[j + 1].slot == k);
            }
        }
        if k == b.slot {
            assert(t[i].slot == k);
        }
        if holds_slot(t, k) {
            let j = choose|j: int| 0 <= j < t.len() && t[j].slot == k;
            if j < i {
                assert(s[j].slot == k);
            } else if j > i {
                assert(s[j - 1].slot == k);
            }
        }
    }
    assert forall|k: Slot| #[trigger] bank_map(t).contains_key(k) implies bank_map(t)[k]
        == bank_map(s).insert(b.slot, b)[k] by {
        let j = choose|j: int| 0 <= j < t.len() && t[j].slot == k;
        lemma_bank_map_at(t, j);
        if j < i {
            lemma_bank_map_at(s, j);
        } else if j > i {
            lemma_bank_map_at(s, j - 1);
        }
    }
}

} // verus!
