//! What each operation gives, stated over the banks themselves: their
//! slots, their parents and their frozen flags, as the fork set holds them.

use vstd::prelude::*;

use crate::bank::{Bank, Slot};
use crate::bank_forks::ForksView;
use crate::manager::{
    admissible, answers, changes_state, may_freeze, next_state, state_after, BankReply, BankRequest,
};

verus! {

/// Freezing a bank changes its frozen flag alone: the slot and the parent
/// stay; a bank that is frozen already is left as it is, and one that is
/// not is changed.
pub proof fn lemma_freeze_keeps_slot_and_parent(bank: Bank)
    ensures
        bank.frozen_copy().slot == bank.slot,
        bank.frozen_copy().parent_slot == bank.parent_slot,
        bank.frozen_copy().frozen,
        bank.frozen_copy() == bank <==> bank.frozen,
        bank.frozen_copy().frozen_copy() == bank.frozen_copy(),
{
}

/// A slot is active exactly when a bank is held there and is not frozen,
/// whatever that bank's parent and whether or not it is the root; the
/// frozen banks are exactly the held banks that are frozen, as held.
pub proof fn lemma_active_and_frozen_by_flag(forks: ForksView, slot: Slot)
    ensures
        forks.is_active(slot) <==> (forks.banks.contains_key(slot) && !forks.banks[slot].frozen),
        forks.active_slots().contains(slot) <==> (forks.banks.contains_key(slot)
            && !forks.banks[slot].frozen),
        forks.frozen_banks().contains_key(slot) <==> (forks.banks.contains_key(slot)
            && forks.banks[slot].frozen),
        forks.frozen_banks().contains_key(slot) ==> forks.frozen_banks()[slot] == forks.banks[slot],
{
}

/// A fork set made from one bank has that bank's slot active when the bank
/// is not frozen, and frozen when it is, whatever its parent.
pub proof fn lemma_single_bank_split(bank: Bank)
    ensures
        ({
            let forks = ForksView { root: bank.slot, banks: Map::empty().insert(bank.slot, bank) };
            &&& forks.active_slots() == (if bank.frozen {
                Set::<Slot>::empty()
            } else {
                Set::<Slot>::empty().insert(bank.slot)
            })
            &&& forks.frozen_banks() == (if bank.frozen {
                Map::<Slot, Bank>::empty().insert(bank.slot, bank)
            } else {
                Map::<Slot, Bank>::empty()
            })
        }),
{
    let forks = ForksView { root: bank.slot, banks: Map::empty().insert(bank.slot, bank) };
    let active = if bank.frozen {
        Set::<Slot>::empty()
    } else {
        Set::<Slot>::empty().insert(bank.slot)
    };
    let frozen = if bank.frozen {
        Map::<Slot, Bank>::empty().insert(bank.slot, bank)
    } else {
        Map::<Slot, Bank>::empty()
    };
    assert(forks.active_slots() =~= active);
    assert(forks.frozen_banks() =~= frozen);
}

/// A request for a slot is answered with the bank held there, exactly as
/// held (the root's included), or with nothing where no bank is held.
pub proof fn lemma_get_answers_held_bank(forks: ForksView, slot: Slot, reply: Option<BankReply>)
    requires
        answers(forks, BankRequest::Get(slot), reply),
    ensures
        reply matches Some(BankReply::Get(found)) && {
            &&& (found is Some <==> forks.banks.contains_key(slot))
            &&& (found matches Some(bank) ==> bank == forks.banks[slot])
        },
        forks.get(slot) == (if forks.banks.contains_key(slot) {
            Some(forks.banks[slot])
        } else {
            None
        }),
{
}

/// A request for the root bank is answered with the bank held at the root
/// slot, exactly as held, parent and frozen flag included; in a well-formed
/// fork set that bank's slot is the root.
pub proof fn lemma_root_bank_answers_held_bank(forks: ForksView, reply: Option<BankReply>)
    requires
        answers(forks, BankRequest::RootBank, reply),
    ensures
        reply == Some(BankReply::RootBank(forks.banks[forks.root])),
        forks.root_bank() == forks.banks[forks.root],
        forks.wf() ==> forks.banks[forks.root].slot == forks.root,
{
}

/// Asking for a child of a held bank hands back a bank for the requested
/// slot that names the requested parent and is not frozen; the held parent
/// is then frozen, with its slot and parent as before, and the child is not
/// added. With no bank held at the parent's slot, nothing is handed back
/// and nothing changes.
pub proof fn lemma_child_names_requested_parent(
    forks: ForksView,
    parent: Slot,
    slot: Slot,
    reply: Option<BankReply>,
)
    requires
        answers(forks, BankRequest::NewFromParent { parent, slot }, reply),
    ensures
        forks.banks.contains_key(parent) ==> {
            let after = next_state(forks, BankRequest::NewFromParent { parent, slot });
            &&& reply matches Some(BankReply::NewFromParent(Some(child))) && {
                &&& child.slot == slot
                &&& child.parent_slot == Some(parent)
                &&& !child.frozen
            }
            &&& after.banks.contains_key(parent)
            &&& after.banks[parent].frozen
            &&& after.banks[parent].slot == forks.banks[parent].slot
            &&& after.banks[parent].parent_slot == forks.banks[parent].parent_slot
            &&& after.root == forks.root
            &&& (forall|s: Slot| s != parent ==> #[trigger] after.banks.contains_key(s)
                == forks.banks.contains_key(s))
            &&& (forall|s: Slot| s != parent && #[trigger] forks.banks.contains_key(s) ==> after.banks[s]
                == forks.banks[s])
        },
        !forks.banks.contains_key(parent) ==> {
            &&& reply == Some(BankReply::NewFromParent(None))
            &&& next_state(forks, BankRequest::NewFromParent { parent, slot }) == forks
        },
{
}

/// Freezing a held slot sets that bank's frozen flag and keeps its slot and
/// parent; every other bank, and the root, stay as they were; freezing a
/// slot that holds no bank changes nothing. No reply follows.
pub proof fn lemma_freeze_request_changes_one_flag(
    forks: ForksView,
    slot: Slot,
    reply: Option<BankReply>,
)
    requires
        answers(forks, BankRequest::Freeze(slot), reply),
    ensures
        reply is None,
        ({
            let after = next_state(forks, BankRequest::Freeze(slot));
            &&& after.root == forks.root
            &&& (forall|s: Slot| #[trigger] after.banks.contains_key(s) == forks.banks.contains_key(s))
            &&& (forall|s: Slot| s != slot && #[trigger] forks.banks.contains_key(s) ==> after.banks[s]
                == forks.banks[s])
            &&& forks.banks.contains_key(slot) ==> {
                &&& after.banks[slot].frozen
                &&& after.banks[slot].slot == forks.banks[slot].slot
                &&& after.banks[slot].parent_slot == forks.banks[slot].parent_slot
            }
            &&& !forks.banks.contains_key(slot) ==> after == forks
        }),
{
}

/// Adding a bank puts it under its own slot, exactly as given, and leaves
/// the root and every other held bank as they were. No reply follows.
pub proof fn lemma_insert_request_adds_bank_alone(
    forks: ForksView,
    bank: Bank,
    reply: Option<BankReply>,
)
    requires
        answers(forks, BankRequest::Insert(bank), reply),
    ensures
        reply is None,
        ({
            let after = next_state(forks, BankRequest::Insert(bank));
            &&& after.root == forks.root
            &&& after.banks.contains_key(bank.slot)
            &&& after.banks[bank.slot] == bank
            &&& (forall|s: Slot| s != bank.slot ==> #[trigger] after.banks.contains_key(s)
                == forks.banks.contains_key(s))
            &&& (forall|s: Slot| s != bank.slot && #[trigger] forks.banks.contains_key(s)
                ==> after.banks[s] == forks.banks[s])
        }),
{
}

/// The root request is answered with the root slot, and the listings with
/// exactly the held banks by their frozen flags: the frozen banks as held,
/// and the active slots in strictly ascending order. None of these requests
/// changes the fork set.
pub proof fn lemma_listings_answer_by_flag(
    forks: ForksView,
    root_reply: Option<BankReply>,
    frozen_reply: Option<BankReply>,
    active_reply: Option<BankReply>,
)
    requires
        answers(forks, BankRequest::Root, root_reply),
        answers(forks, BankRequest::FrozenBanks, frozen_reply),
        answers(forks, BankRequest::ActiveBankSlots, active_reply),
    ensures
        root_reply == Some(BankReply::Root(forks.root)),
        frozen_reply matches Some(BankReply::FrozenBanks(frozen)) && {
            &&& (forall|k: Slot| #[trigger] frozen@.contains_key(k) <==> (forks.banks.contains_key(k)
                && forks.banks[k].frozen))
            &&& (forall|k: Slot| #[trigger] frozen@.contains_key(k) ==> frozen@[k] == forks.banks[k])
        },
        active_reply matches Some(BankReply::ActiveBankSlots(slots)) && {
            &&& (forall|i: int, j: int| 0 <= i < j < slots@.len() ==> slots@[i] < slots@[j])
            &&& (forall|k: Slot| slots@.contains(k) <==> (forks.banks.contains_key(k)
                && !forks.banks[k].frozen))
        },
        next_state(forks, BankRequest::Root) == forks,
        next_state(forks, BankRequest::RootBank) == forks,
        next_state(forks, BankRequest::FrozenBanks) == forks,
        next_state(forks, BankRequest::ActiveBankSlots) == forks,
        forall|slot: Slot| #[trigger] next_state(forks, BankRequest::Get(slot)) == forks,
{
    if let Some(BankReply::ActiveBankSlots(slots)) = active_reply {
        assert forall|k: Slot| slots@.contains(k) <==> (forks.banks.contains_key(k)
            && !forks.banks[k].frozen) by {
            assert(slots@.contains(k) <==> forks.is_active(k));
        }
    }
}

/// A well-formed fork set holds a bank at its root slot, and each held bank
/// sits under its own slot.
pub proof fn lemma_wf_means_held_root(forks: ForksView, slot: Slot)
    requires
        forks.wf(),
    ensures
        forks.banks.contains_key(forks.root),
        forks.banks.contains_key(slot) ==> forks.banks[slot].slot == slot,
{
}

/// The owner can take every request but one that adds a bank under a slot
/// already held.
pub proof fn lemma_admissible_refuses_only_duplicates(forks: ForksView, request: BankRequest)
    ensures
        !admissible(forks, request) <==> (request matches BankRequest::Insert(bank)
            && forks.banks.contains_key(bank.slot)),
{
}

/// A request that is not marked as changing the fork set leaves it as it
/// was, whatever the set.
pub proof fn lemma_unchanging_requests_change_nothing(forks: ForksView, request: BankRequest)
    requires
        !changes_state(request),
    ensures
        next_state(forks, request) == forks,
{
}

/// A request that may not freeze a held slot leaves the bank there as it
/// was, unless it adds a bank under that slot (which the owner refuses).
pub proof fn lemma_other_requests_leave_a_bank(forks: ForksView, request: BankRequest, slot: Slot)
    requires
        forks.banks.contains_key(slot),
        admissible(forks, request),
        !may_freeze(request, slot),
    ensures
        next_state(forks, request).banks.contains_key(slot),
        next_state(forks, request).banks[slot] == forks.banks[slot],
{
}

/// Handling no request leaves the fork set as it was, and handling one
/// more request applies it to the set the earlier ones left.
pub proof fn lemma_run_is_requests_in_order(
    forks: ForksView,
    requests: Seq<BankRequest>,
    request: BankRequest,
)
    ensures
        state_after(forks, Seq::empty()) == forks,
        state_after(forks, requests.push(request)) == next_state(state_after(forks, requests), request),
{
    assert(requests.push(request).drop_last() =~= requests);
}

} // verus!
