//! A bank, as the fork set and its owner see it: the slot it was made for,
//! the slot of the bank it was made from, and whether it is frozen.

use vstd::prelude::*;

verus! {

/// The index of a slot, the unit in which the ledger advances.
pub type Slot = u64;

/// A bank of one slot.
///
/// `parent_slot` is the slot of the bank this one was made from, if any;
/// `frozen` tells whether the bank is complete, after which it takes no
/// more transactions.
///
/// A bank is a plain value: each copy stands on its own, and a change to
/// one copy reaches no other. A bank held in a fork set is changed only
/// through the set (or its owner).
#[derive(Clone, Copy, Debug, PartialEq, Eq, Structural)]
pub struct Bank {
    pub slot: Slot,
    pub parent_slot: Option<Slot>,
    pub frozen: bool,
}

impl Bank {
    /// A bank for `slot` that starts a chain: it has no parent and is not
    /// frozen.
    pub fn new(slot: Slot) -> (bank: Bank)
        ensures
            bank.slot == slot,
            bank.parent_slot is None,
            !bank.frozen,
    {
        Bank { slot, parent_slot: None, frozen: false }
    }

    /// A child of `parent` for `slot`.
    ///
    /// A bank is only made from a complete parent, so the parent is frozen
    /// first; the child names the parent's slot and is not frozen. This acts
    /// on the value given; a child of a bank held in a fork set is made by
    /// the set's owner, which freezes the held bank.
    pub fn new_from_parent(parent: &mut Bank, slot: Slot) -> (child: Bank)
        ensures
            child.slot == slot,
            child.parent_slot == Some(old(parent).slot),
            !child.frozen,
            final(parent).slot == old(parent).slot,
            final(parent).parent_slot == old(parent).parent_slot,
            final(parent).frozen,
    {
        parent.freeze();
        Bank { slot, parent_slot: Some(parent.slot), frozen: false }
    }

    /// Marks the bank complete. Freezing a frozen bank changes nothing.
    pub fn freeze(&mut self)
        ensures
            *final(self) == old(self).frozen_copy(),
            final(self).slot == old(self).slot,
            final(self).parent_slot == old(self).parent_slot,
            final(self).frozen,
    {
        self.frozen = true;
    }

    /// The same bank, frozen.
    pub open spec fn frozen_copy(self) -> Bank {
        Bank { frozen: true, ..self }
    }

    /// The slot of this bank.
    pub fn slot(&self) -> (slot: Slot)
        ensures
            slot == self.slot,
    {
        self.slot
    }

    /// The slot of the bank this one was made from, if any.
    pub fn parent_slot(&self) -> (parent: Option<Slot>)
        ensures
            parent == self.parent_slot,
    {
        self.parent_slot
    }

    /// Whether the bank is frozen.
    pub fn is_frozen(&self) -> (frozen: bool)
        ensures
            frozen == self.frozen,
    {
        self.frozen
    }
}

} // verus!
