//! The owner of the fork set: it answers requests one at a time, each from
//! the fork set as the requests before it left it.

use std::collections::HashMap;
use vstd::prelude::*;

use crate::bank::{Bank, Slot};
use crate::bank_forks::{lemma_insert_keeps_wf, lemma_freeze, strictly_ascending, BankForks, ForksView};

verus! {

/// What a client can ask of the owner of the fork set.
#[derive(Debug)]
pub enum BankRequest {
    /// The root slot.
    Root,
    /// A copy of the bank at the root slot.
    RootBank,
    /// Add a bank to the fork set; no reply follows.
    Insert(Bank),
    /// Copies of the frozen banks, by slot.
    FrozenBanks,
    /// A copy of the bank at a slot, if there is one. A change made to the
    /// copy does not reach the held bank: to freeze the held bank, or make
    /// a child of it (which freezes it), ask with `Freeze` or
    /// `NewFromParent`.
    Get(Slot),
    /// The slots of the banks that are not frozen.
    ActiveBankSlots,
    /// Freeze the bank at a slot, if there is one; no reply follows.
    Freeze(Slot),
    /// Make a child for `slot` of the bank at `parent`, which is frozen
    /// at once; the child is handed back, not added.
    NewFromParent { parent: Slot, slot: Slot },
}

/// The owner's answer to a request.
#[derive(Debug)]
pub enum BankReply {
    Root(Slot),
    RootBank(Bank),
    FrozenBanks(HashMap<Slot, Bank>),
    Get(Option<Bank>),
    ActiveBankSlots(Vec<Slot>),
    NewFromParent(Option<Bank>),
}

/// The fork set after the owner has handled `request`: an insertion adds
/// its bank, a freeze freezes the bank at its slot, making a child freezes
/// the parent, and every other request leaves the set as it was.
pub open spec fn next_state(forks: ForksView, request: BankRequest) -> ForksView {
    match request {
        BankRequest::Insert(bank) => forks.insert(bank),
        BankRequest::Freeze(slot) => forks.freeze(slot),
        BankRequest::NewFromParent { parent, slot } => forks.freeze(parent),
        _ => forks,
    }
}

/// Whether `reply` is the owner's answer to `request` on the fork set
/// `forks`.
pub open spec fn answers(forks: ForksView, request: BankRequest, reply: Option<BankReply>) -> bool {
    match request {
        BankRequest::Root => reply == Some(BankReply::Root(forks.root)),
        BankRequest::RootBank => reply == Some(BankReply::RootBank(forks.root_bank())),
        BankRequest::Insert(_) => reply is None,
        BankRequest::FrozenBanks => match reply {
            Some(BankReply::FrozenBanks(frozen)) => frozen@ == forks.frozen_banks(),
            _ => false,
        },
        BankRequest::Get(slot) => reply == Some(BankReply::Get(forks.get(slot))),
        BankRequest::ActiveBankSlots => match reply {
            Some(BankReply::ActiveBankSlots(slots)) => {
                &&& strictly_ascending(slots@)
                &&& forall|k: Slot| slots@.contains(k) <==> forks.is_active(k)
            },
            _ => false,
        },
        BankRequest::Freeze(_) => reply is None,
        BankRequest::NewFromParent { parent, slot } => reply == Some(
            BankReply::NewFromParent(forks.child_of(parent, slot)),
        ),
    }
}

/// Whether the owner can take `request` on the fork set `forks`: a bank
/// may only be added under a slot that no bank holds yet.
pub open spec fn admissible(forks: ForksView, request: BankRequest) -> bool {
    match request {
        BankRequest::Insert(bank) => !forks.banks.contains_key(bank.slot),
        _ => true,
    }
}

/// Whether `request` may change the fork set.
pub open spec fn changes_state(request: BankRequest) -> bool {
    request is Insert || request is Freeze || request is NewFromParent
}

/// Whether `request` may freeze the bank at `slot`.
pub open spec fn may_freeze(request: BankRequest, slot: Slot) -> bool {
    match request {
        BankRequest::Freeze(s) => s == slot,
        BankRequest::NewFromParent { parent, slot: _ } => parent == slot,
        _ => false,
    }
}

/// The fork set after the owner has handled `requests`, in order.
pub open spec fn state_after(forks: ForksView, requests: Seq<BankRequest>) -> ForksView
    decreases requests.len(),
{
    if requests.len() == 0 {
        forks
    } else {
        next_state(state_after(forks, requests.drop_last()), requests.last())
    }
}

/// Whether the owner can take each of `requests` in turn.
pub open spec fn admissible_run(forks: ForksView, requests: Seq<BankRequest>) -> bool {
    forall|k: int|
        0 <= k < requests.len() ==> admissible(#[trigger] state_after(forks, requests.take(k)), requests[k])
}

proof fn lemma_admissible_run_prefix(forks: ForksView, requests: Seq<BankRequest>)
    requires
        admissible_run(forks, requests),
        requests.len() > 0,
    ensures
        admissible_run(forks, requests.drop_last()),
        admissible(state_after(forks, requests.drop_last()), requests.last()),
{
    let init = requests.drop_last();
    assert forall|k: int| 0 <= k < init.len() implies admissible(
        #[trigger] state_after(forks, init.take(k)),
        init[k],
    ) by {
        assert(init.take(k) =~= requests.take(k));
        assert(admissible(state_after(forks, requests.take(k)), requests[k]));
    }
    let last = requests.len() - 1;
    assert(requests.take(last) =~= init);
    assert(admissible(state_after(forks, requests.take(last)), requests[last]));
}

/// Over any run the owner can take, the fork set stays well formed, the
/// root stays where it is, and every bank held at the start is still held,
/// as it was or frozen; a bank that no request of the run may freeze is
/// held unchanged.
pub proof fn lemma_run_keeps_banks(forks: ForksView, requests: Seq<BankRequest>)
    requires
        forks.wf(),
        admissible_run(forks, requests),
    ensures
        state_after(forks, requests).wf(),
        state_after(forks, requests).root == forks.root,
        forall|s: Slot| #[trigger] forks.banks.contains_key(s) ==> {
            let after = state_after(forks, requests).banks;
            &&& after.contains_key(s)
            &&& (after[s] == forks.banks[s] || after[s] == forks.banks[s].frozen_copy())
        },
        forall|s: Slot|
            #[trigger] forks.banks.contains_key(s) && (forall|k: int|
                0 <= k < requests.len() ==> !may_freeze(#[trigger] requests[k], s))
                ==> state_after(forks, requests).banks[s] == forks.banks[s],
    decreases requests.len(),
{
    if requests.len() > 0 {
        let init = requests.drop_last();
        let last = requests.last();
        lemma_admissible_run_prefix(forks, requests);
        lemma_run_keeps_banks(forks, init);
        let mid = state_after(forks, init);
        let fin = state_after(forks, requests);
        assert(fin == next_state(mid, last));
        match last {
            BankRequest::Insert(bank) => {
                lemma_insert_keeps_wf(mid, bank);
            },
            BankRequest::Freeze(slot) => {
                lemma_freeze(mid, slot);
            },
            BankRequest::NewFromParent { parent, slot } => {
                lemma_freeze(mid, parent);
            },
            _ => {},
        }
        assert forall|s: Slot|
            #[trigger] forks.banks.contains_key(s) && (forall|k: int|
                0 <= k < requests.len() ==> !may_freeze(#[trigger] requests[k], s))
                implies fin.banks[s] == forks.banks[s] by {
            assert forall|k: int| 0 <= k < init.len() implies !may_freeze(#[trigger] init[k], s) by {
                assert(init[k] == requests[k]);
            }
            assert(!may_freeze(requests[requests.len() - 1], s));
        }
    }
}

/// Whatever the owner is asked over a run, the root stays where it was:
/// a root request at the end of it is answered with the first root, and a
/// root bank request with a bank of that slot.
pub proof fn lemma_run_keeps_root(
    forks: ForksView,
    requests: Seq<BankRequest>,
    root_reply: Option<BankReply>,
    root_bank_reply: Option<BankReply>,
)
    requires
        forks.wf(),
        admissible_run(forks, requests),
        answers(state_after(forks, requests), BankRequest::Root, root_reply),
        answers(state_after(forks, requests), BankRequest::RootBank, root_bank_reply),
    ensures
        root_reply == Some(BankReply::Root(forks.root)),
        root_bank_reply matches Some(BankReply::RootBank(bank)) && bank.slot == forks.root,
{
    lemma_run_keeps_banks(forks, requests);
}

/// Once the owner has taken a bank, a request for its slot, however many
/// requests later, is answered with that bank, frozen where a request in
/// between may have frozen it, and unchanged where none may have.
pub proof fn lemma_run_get_after_insert(
    forks: ForksView,
    before: Seq<BankRequest>,
    bank: Bank,
    after: Seq<BankRequest>,
    reply: Option<BankReply>,
)
    requires
        forks.wf(),
        admissible_run(forks, before),
        admissible(state_after(forks, before), BankRequest::Insert(bank)),
        admissible_run(state_after(forks, before).insert(bank), after),
        answers(
            state_after(state_after(forks, before).insert(bank), after),
            BankRequest::Get(bank.slot),
            reply,
        ),
    ensures
        reply == Some(BankReply::Get(Some(bank))) || reply == Some(
            BankReply::Get(Some(bank.frozen_copy())),
        ),
        (forall|k: int| 0 <= k < after.len() ==> !may_freeze(#[trigger] after[k], bank.slot))
            ==> reply == Some(BankReply::Get(Some(bank))),
{
    lemma_run_keeps_banks(forks, before);
    let mid = state_after(forks, before);
    lemma_insert_keeps_wf(mid, bank);
    let inserted = mid.insert(bank);
    assert(inserted.banks.contains_key(bank.slot));
    lemma_run_keeps_banks(inserted, after);
}

/// A run of requests that change nothing leaves the fork set as it was.
pub proof fn lemma_queries_keep_state(forks: ForksView, requests: Seq<BankRequest>)
    requires
        forall|k: int| 0 <= k < requests.len() ==> !changes_state(#[trigger] requests[k]),
    ensures
        state_after(forks, requests) == forks,
    decreases requests.len(),
{
    if requests.len() > 0 {
        let init = requests.drop_last();
        assert forall|k: int| 0 <= k < init.len() implies !changes_state(#[trigger] init[k]) by {
            assert(init[k] == requests[k]);
        }
        lemma_queries_keep_state(forks, init);
        assert(!changes_state(requests[requests.len() - 1]));
    }
}

/// A query asked again after any run of queries is answered as before
/// (for the frozen banks and the active slots, with the same contents).
pub proof fn lemma_queries_agree(
    forks: ForksView,
    queries: Seq<BankRequest>,
    request: BankRequest,
    first: Option<BankReply>,
    second: Option<BankReply>,
)
    requires
        forall|k: int| 0 <= k < queries.len() ==> !changes_state(#[trigger] queries[k]),
        answers(forks, request, first),
        answers(state_after(forks, queries), request, second),
    ensures
        match (first, second) {
            (Some(BankReply::FrozenBanks(a)), Some(BankReply::FrozenBanks(b))) => a@ == b@,
            (Some(BankReply::ActiveBankSlots(a)), Some(BankReply::ActiveBankSlots(b))) => a@ == b@,
            _ => first == second,
        },
{
    lemma_queries_keep_state(forks, queries);
    lemma_answers_agree(forks, request, first, second);
}

/// A request is answered exactly when it is a query: an insertion and a
/// freeze get no reply, every other request gets one.
pub proof fn lemma_reply_shape(forks: ForksView, request: BankRequest, reply: Option<BankReply>)
    requires
        answers(forks, request, reply),
    ensures
        reply is None <==> (request is Insert || request is Freeze),
{
}

/// The answer to a request is the only one: two answers to the same request
/// on the same fork set agree (for the frozen banks and the active slots,
/// on their contents).
pub proof fn lemma_answers_agree(
    forks: ForksView,
    request: BankRequest,
    first: Option<BankReply>,
    second: Option<BankReply>,
)
    requires
        answers(forks, request, first),
        answers(forks, request, second),
    ensures
        match (first, second) {
            (Some(BankReply::FrozenBanks(a)), Some(BankReply::FrozenBanks(b))) => a@ == b@,
            (Some(BankReply::ActiveBankSlots(a)), Some(BankReply::ActiveBankSlots(b))) => a@ == b@,
            _ => first == second,
        },
{
    if let (Some(BankReply::ActiveBankSlots(a)), Some(BankReply::ActiveBankSlots(b))) = (first, second) {
        assert forall|k: Slot| a@.contains(k) <==> b@.contains(k) by {
            assert(a@.contains(k) <==> forks.is_active(k));
            assert(b@.contains(k) <==> forks.is_active(k));
        }
        lemma_ascending_unique(a@, b@);
    }
}

/// Two strictly ascending sequences with the same elements are equal.
pub proof fn lemma_ascending_unique(a: Seq<Slot>, b: Seq<Slot>)
    requires
        strictly_ascending(a),
        strictly_ascending(b),
        forall|k: Slot| a.contains(k) <==> b.contains(k),
    ensures
        a == b,
    decreases a.len() + b.len(),
{
    if a.len() == 0 {
        if b.len() > 0 {
            assert(b.contains(b[0]));
        }
        assert(a =~= b);
    } else if b.len() == 0 {
        assert(a.contains(a[0]));
    } else {
        let la = a.last();
        let lb = b.last();
        assert(a.contains(la));
        assert(b.contains(lb));
        assert(la == lb) by {
            let i = choose|i: int| 0 <= i < b.len() && b[i] == la;
            let j = choose|j: int| 0 <= j < a.len() && a[j] == lb;
            assert(b[i] <= lb);
            assert(a[j] <= la);
        }
        let a1 = a.drop_last();
        let b1 = b.drop_last();
        assert forall|k: Slot| a1.contains(k) <==> b1.contains(k) by {
            if a1.contains(k) {
                let i = choose|i: int| 0 <= i < a1.len() && a1[i] == k;
                assert(a[i] == k && a.contains(k));
                let j = choose|j: int| 0 <= j < b.len() && b[j] == k;
                assert(k < la);
                assert(j != b.len() - 1);
                assert(b1[j] == k);
            }
            if b1.contains(k) {
                let i = choose|i: int| 0 <= i < b1.len() && b1[i] == k;
                assert(b[i] == k && b.contains(k));
                let j = choose|j: int| 0 <= j < a.len() && a[j] == k;
                assert(k < lb);
                assert(j != a.len() - 1);
                assert(a1[j] == k);
            }
        }
        lemma_ascending_unique(a1, b1);
        assert(a =~= a1.push(la));
        assert(b =~= b1.push(lb));
    }
}


/// The sole owner of a fork set.
pub struct BankManager {
    bank_forks: BankForks,
}

impl View for BankManager {
    type V = ForksView;

    closed spec fn view(&self) -> ForksView {
        self.bank_forks@
    }
}

impl BankManager {
    /// An owner for `bank_forks`.
    pub fn new(bank_forks: BankForks) -> (manager: BankManager)
        ensures
            manager@ == bank_forks@,
            manager@.wf(),
    {
        proof {
            use_type_invariant(&bank_forks);
            bank_forks.lemma_view_wf();
        }
        BankManager { bank_forks }
    }

    /// The fork set that this owner holds.
    pub fn bank_forks(&self) -> (forks: &BankForks)
        ensures
            forks@ == self@,
    {
        &self.bank_forks
    }

    /// Handles one request: updates the fork set as the request asks and
    /// returns the answer, if the request calls for one.
    pub fn handle(&mut self, request: BankRequest) -> (reply: Option<BankReply>)
        requires
            admissible(old(self)@, request),
        ensures
            final(self)@ == next_state(old(self)@, request),
            answers(old(self)@, request, reply),
            final(self)@.wf(),
    {
        let reply = match request {
            BankRequest::RootBank => Some(BankReply::RootBank(self.bank_forks.root_bank())),
            BankRequest::Insert(bank) => {
                self.bank_forks.insert(bank);
                None
            },
            BankRequest::FrozenBanks => Some(BankReply::FrozenBanks(self.bank_forks.frozen_banks())),
            BankRequest::Get(slot) => Some(BankReply::Get(self.bank_forks.get(slot))),
            BankRequest::ActiveBankSlots => Some(
                BankReply::ActiveBankSlots(self.bank_forks.active_bank_slots()),
            ),
            BankRequest::Root => Some(BankReply::Root(self.bank_forks.root())),
            BankRequest::Freeze(slot) => {
                self.bank_forks.freeze(slot);
                None
            },
            BankRequest::NewFromParent { parent, slot } => Some(
                BankReply::NewFromParent(self.bank_forks.new_from_parent(parent, slot)),
            ),
        };
        proof {
            use_type_invariant(&self.bank_forks);
            self.bank_forks.lemma_view_wf();
        }
        reply
    }
}

} // verus!
