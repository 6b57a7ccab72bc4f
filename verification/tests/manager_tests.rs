use bank_manager::bank::{Bank, Slot};
use bank_manager::bank_forks::BankForks;
use bank_manager::manager::{BankManager, BankReply, BankRequest};
use std::collections::HashMap;

fn manager_with_root(slot: Slot) -> BankManager {
    BankManager::new(BankForks::new(Bank::new(slot)))
}

fn ask_root(manager: &mut BankManager) -> Slot {
    match manager.handle(BankRequest::Root) {
        Some(BankReply::Root(slot)) => slot,
        other => panic!("unexpected reply {:?}", other),
    }
}

fn ask_root_bank(manager: &mut BankManager) -> Bank {
    match manager.handle(BankRequest::RootBank) {
        Some(BankReply::RootBank(bank)) => bank,
        other => panic!("unexpected reply {:?}", other),
    }
}

fn ask_get(manager: &mut BankManager, slot: Slot) -> Option<Bank> {
    match manager.handle(BankRequest::Get(slot)) {
        Some(BankReply::Get(bank)) => bank,
        other => panic!("unexpected reply {:?}", other),
    }
}

fn ask_frozen(manager: &mut BankManager) -> HashMap<Slot, Bank> {
    match manager.handle(BankRequest::FrozenBanks) {
        Some(BankReply::FrozenBanks(frozen)) => frozen,
        other => panic!("unexpected reply {:?}", other),
    }
}

fn ask_active(manager: &mut BankManager) -> Vec<Slot> {
    match manager.handle(BankRequest::ActiveBankSlots) {
        Some(BankReply::ActiveBankSlots(slots)) => slots,
        other => panic!("unexpected reply {:?}", other),
    }
}

fn ask_child(manager: &mut BankManager, parent: Slot, slot: Slot) -> Option<Bank> {
    match manager.handle(BankRequest::NewFromParent { parent, slot }) {
        Some(BankReply::NewFromParent(child)) => child,
        other => panic!("unexpected reply {:?}", other),
    }
}

#[test]
fn test_get_balance() {
    let bank = Bank::new(0);
    let bank_forks = BankForks::new(bank);
    let mut manager = BankManager::new(bank_forks);

    let bank0 = ask_get(&mut manager, 0).unwrap();
    let child_bank = ask_child(&mut manager, bank0.slot(), 1).unwrap();
    assert!(manager.handle(BankRequest::Insert(child_bank)).is_none());

    assert_eq!(ask_active(&mut manager), vec![1]);
}

#[test]
fn new_fork_set_holds_root_alone() {
    let forks = BankForks::new(Bank::new(7));
    assert_eq!(forks.root(), 7);
    assert_eq!(forks.root_bank(), Bank::new(7));
    assert_eq!(forks.get(7), Some(Bank::new(7)));
    assert_eq!(forks.get(6), None);
    assert_eq!(forks.get(8), None);
    assert_eq!(forks.active_bank_slots(), vec![7]);
    assert!(forks.frozen_banks().is_empty());
}

#[test]
fn root_and_root_bank_replies() {
    let mut manager = manager_with_root(3);
    assert_eq!(ask_root(&mut manager), 3);
    assert_eq!(ask_root_bank(&mut manager), Bank::new(3));
}

#[test]
fn insert_is_not_answered() {
    let mut manager = manager_with_root(0);
    let reply = manager.handle(BankRequest::Insert(Bank::new(4)));
    assert!(reply.is_none());
}

#[test]
fn get_after_insert_gives_the_bank_back() {
    let mut manager = manager_with_root(0);
    let mut bank = Bank::new(9);
    bank.freeze();
    manager.handle(BankRequest::Insert(bank));
    assert_eq!(ask_get(&mut manager, 9), Some(bank));
    assert_eq!(ask_get(&mut manager, 10), None);
}

#[test]
fn making_a_child_freezes_the_held_parent_at_once() {
    let mut manager = manager_with_root(0);
    assert!(!ask_root_bank(&mut manager).is_frozen());
    let child = ask_child(&mut manager, 0, 2).unwrap();
    assert_eq!(child.slot(), 2);
    assert_eq!(child.parent_slot(), Some(0));
    assert!(!child.is_frozen());
    let stored_root = ask_root_bank(&mut manager);
    assert!(stored_root.is_frozen());
    assert_eq!(stored_root.slot(), 0);
    assert_eq!(stored_root.parent_slot(), None);
    assert_eq!(ask_get(&mut manager, 2), None);
    assert!(ask_active(&mut manager).is_empty());
    manager.handle(BankRequest::Insert(child));
    assert_eq!(ask_get(&mut manager, 2), Some(child));
    assert_eq!(ask_active(&mut manager), vec![2]);
}

#[test]
fn child_of_a_missing_slot_is_none() {
    let mut manager = manager_with_root(0);
    assert_eq!(ask_child(&mut manager, 5, 6), None);
    assert_eq!(ask_active(&mut manager), vec![0]);
}

#[test]
fn insert_leaves_held_banks_alone() {
    let mut manager = manager_with_root(0);
    let mut other_genesis = Bank::new(0);
    let child = Bank::new_from_parent(&mut other_genesis, 1);
    assert!(other_genesis.is_frozen());
    manager.handle(BankRequest::Insert(child));
    assert!(!ask_root_bank(&mut manager).is_frozen());
    assert_eq!(ask_active(&mut manager), vec![0, 1]);
}

#[test]
fn freeze_request_freezes_that_bank_alone() {
    let mut manager = manager_with_root(0);
    manager.handle(BankRequest::Insert(Bank::new(3)));
    assert!(manager.handle(BankRequest::Freeze(3)).is_none());
    assert!(manager.handle(BankRequest::Freeze(42)).is_none());
    assert_eq!(ask_active(&mut manager), vec![0]);
    let mut frozen3 = Bank::new(3);
    frozen3.freeze();
    assert_eq!(ask_get(&mut manager, 3), Some(frozen3));
    assert_eq!(ask_get(&mut manager, 42), None);
}

#[test]
fn parent_outside_the_set_is_left_alone() {
    let mut manager = manager_with_root(10);
    let mut orphan_parent = Bank::new(3);
    let child = Bank::new_from_parent(&mut orphan_parent, 5);
    manager.handle(BankRequest::Insert(child));
    assert_eq!(ask_get(&mut manager, 3), None);
    assert_eq!(ask_active(&mut manager), vec![5, 10]);
}

#[test]
fn active_slots_come_in_ascending_order() {
    let mut manager = manager_with_root(4);
    for slot in [9u64, 2, 7, 5, 1] {
        manager.handle(BankRequest::Insert(Bank::new(slot)));
    }
    assert_eq!(ask_active(&mut manager), vec![1, 2, 4, 5, 7, 9]);
}

#[test]
fn frozen_and_active_split_the_banks() {
    let mut manager = manager_with_root(0);
    let b1 = ask_child(&mut manager, 0, 1).unwrap();
    manager.handle(BankRequest::Insert(b1));
    let b2 = ask_child(&mut manager, 1, 2).unwrap();
    manager.handle(BankRequest::Insert(b2));
    let b3 = Bank::new(3);
    manager.handle(BankRequest::Insert(b3));
    let mut frozen1 = b1;
    frozen1.freeze();

    let frozen = ask_frozen(&mut manager);
    let active = ask_active(&mut manager);
    let mut expected: HashMap<Slot, Bank> = HashMap::new();
    let mut frozen0 = Bank::new(0);
    frozen0.freeze();
    expected.insert(0, frozen0);
    expected.insert(1, frozen1);
    assert_eq!(frozen, expected);
    assert_eq!(active, vec![2, 3]);
    for slot in 0..4u64 {
        assert!(frozen.contains_key(&slot) != active.contains(&slot));
    }
}

#[test]
fn frozen_bank_inserted_counts_as_frozen() {
    let mut manager = manager_with_root(1);
    let mut bank = Bank::new(6);
    bank.freeze();
    manager.handle(BankRequest::Insert(bank));
    let frozen = ask_frozen(&mut manager);
    assert_eq!(frozen.len(), 1);
    assert_eq!(frozen.get(&6), Some(&bank));
    assert_eq!(ask_active(&mut manager), vec![1]);
}

#[test]
fn queries_leave_the_fork_set_unchanged() {
    let mut manager = manager_with_root(2);
    manager.handle(BankRequest::Insert(Bank::new(8)));
    let before = ask_active(&mut manager);
    ask_root(&mut manager);
    ask_root_bank(&mut manager);
    ask_get(&mut manager, 8);
    ask_frozen(&mut manager);
    assert_eq!(ask_active(&mut manager), before);
    assert_eq!(manager.bank_forks().root(), 2);
    assert_eq!(manager.bank_forks().get(8), Some(Bank::new(8)));
}

#[test]
fn root_stays_after_inserts() {
    let mut manager = manager_with_root(5);
    manager.handle(BankRequest::Insert(Bank::new(1)));
    manager.handle(BankRequest::Insert(Bank::new(100)));
    assert_eq!(ask_root(&mut manager), 5);
    assert_eq!(ask_root_bank(&mut manager).slot(), 5);
}

#[test]
fn large_slots_are_kept_apart() {
    let mut forks = BankForks::new(Bank::new(u64::MAX));
    forks.insert(Bank::new(0));
    forks.insert(Bank::new(u64::MAX - 1));
    assert_eq!(forks.active_bank_slots(), vec![0, u64::MAX - 1, u64::MAX]);
    assert_eq!(forks.get(u64::MAX - 1), Some(Bank::new(u64::MAX - 1)));
    assert_eq!(forks.root(), u64::MAX);
}

#[test]
fn bank_constructors_and_freeze() {
    let mut parent = Bank::new(11);
    assert_eq!(parent.slot(), 11);
    assert_eq!(parent.parent_slot(), None);
    assert!(!parent.is_frozen());
    let child = Bank::new_from_parent(&mut parent, 12);
    assert!(parent.is_frozen());
    assert_eq!(parent.slot(), 11);
    assert_eq!(child.slot(), 12);
    assert_eq!(child.parent_slot(), Some(11));
    assert!(!child.is_frozen());
    let before = parent;
    parent.freeze();
    assert_eq!(parent, before);
}

#[test]
fn handed_out_banks_are_copies() {
    let mut manager = manager_with_root(0);
    manager.handle(BankRequest::Insert(Bank::new(4)));

    let mut copy = ask_get(&mut manager, 4).unwrap();
    copy.freeze();
    let _child = Bank::new_from_parent(&mut copy, 5);
    assert!(copy.is_frozen());
    assert!(!ask_get(&mut manager, 4).unwrap().is_frozen());
    assert_eq!(ask_get(&mut manager, 5), None);
    assert_eq!(ask_active(&mut manager), vec![0, 4]);

    let before = ask_get(&mut manager, 4).unwrap();
    manager.handle(BankRequest::Freeze(4));
    assert!(!before.is_frozen());
    assert!(ask_get(&mut manager, 4).unwrap().is_frozen());
}
