use domain_pay::ledger::{Ledger, LedgerError, EXPIRY_WINDOW_SECONDS};

const ALICE: u128 = 1;
const BOB: u128 = 2;

fn names(list: &[&str]) -> Vec<String> {
    list.iter().map(|s| s.to_string()).collect()
}

fn ledger_with_one_payment() -> Ledger {
    let mut ledger = Ledger::new();
    ledger.create_payment(10, ALICE, "addr-a", 70_000, &names(&["foo.o"]), 1_000).unwrap();
    ledger
}

#[test]
fn a_new_ledger_is_empty() {
    let ledger = Ledger::new();
    assert!(ledger.get_payment(1).is_none());
    assert!(ledger.get_payment_by_address("a").is_none());
    assert!(ledger.get_to_be_initiated_addresses().is_empty());
    assert!(ledger.get_to_be_completed_payments().is_empty());
    assert!(!ledger.is_already_processed("tx", "a"));
    assert!(ledger.get_already_owned_domains(ALICE, &names(&["foo.o"])).is_empty());
    assert!(ledger.get_owned_domains(ALICE).is_empty());
}

#[test]
fn a_payment_starts_with_nothing_received() {
    let ledger = ledger_with_one_payment();
    let payment = ledger.get_payment(10).unwrap();
    assert_eq!(payment.id, 10);
    assert_eq!(payment.account_id, ALICE);
    assert_eq!(payment.address, "addr-a");
    assert_eq!(payment.amount, 70_000);
    assert_eq!(payment.received, 0);
    assert_eq!(payment.confirmations, 0);
    assert!(!payment.initiated);
    assert!(!payment.completed);
    assert_eq!(payment.created_at, 1_000);
    assert_eq!(ledger.get_payment_by_address("addr-a").unwrap().id, 10);
    assert!(ledger.get_payment_by_address("addr-b").is_none());
    assert!(ledger.get_payment(11).is_none());
    assert_eq!(ledger.get_to_be_initiated_addresses(), vec!["addr-a".to_string()]);
}

#[test]
fn ids_and_addresses_are_used_once() {
    let mut ledger = ledger_with_one_payment();
    assert_eq!(
        ledger.create_payment(10, BOB, "addr-b", 1, &names(&["bar.o"]), 0),
        Err(LedgerError::DuplicateId)
    );
    assert_eq!(
        ledger.create_payment(11, BOB, "addr-a", 1, &names(&["bar.o"]), 0),
        Err(LedgerError::AddressInUse)
    );
    // the id is judged first, the names last
    assert_eq!(
        ledger.create_payment(10, BOB, "addr-a", 1, &names(&["foo.o"]), 0),
        Err(LedgerError::DuplicateId)
    );
    assert_eq!(
        ledger.create_payment(11, BOB, "addr-a", 1, &names(&["foo.o"]), 0),
        Err(LedgerError::AddressInUse)
    );
    assert!(ledger.get_payment(11).is_none());
    assert_eq!(ledger.create_payment(11, BOB, "addr-b", 1, &names(&["bar.o"]), 0), Ok(()));
}

#[test]
fn a_name_is_held_by_one_account() {
    let mut ledger = ledger_with_one_payment();
    assert_eq!(
        ledger.create_payment(11, BOB, "addr-b", 70_000, &names(&["bar.o", "foo.o"]), 1_001),
        Err(LedgerError::DomainReserved)
    );
    // nothing of the refused payment was written
    assert!(ledger.get_payment(11).is_none());
    assert!(ledger.get_already_owned_domains(ALICE, &names(&["bar.o"])).is_empty());
    assert_eq!(
        ledger.get_already_owned_domains(BOB, &names(&["bar.o", "foo.o", "baz.o", "foo.o"])),
        names(&["foo.o", "foo.o"])
    );
    // the holder may ask again for its own name
    assert!(ledger.get_already_owned_domains(ALICE, &names(&["foo.o"])).is_empty());
    assert_eq!(
        ledger.create_payment(12, ALICE, "addr-c", 70_000, &names(&["foo.o"]), 1_002),
        Ok(())
    );
    assert_eq!(
        ledger.create_payment(13, BOB, "addr-d", 70_000, &names(&["foo.o"]), 1_003),
        Err(LedgerError::DomainReserved)
    );
}

#[test]
fn of_two_attempts_for_one_name_the_second_fails() {
    let mut alice_first = Ledger::new();
    assert_eq!(alice_first.create_payment(1, ALICE, "a", 1, &names(&["x.o"]), 0), Ok(()));
    assert_eq!(
        alice_first.create_payment(2, BOB, "b", 1, &names(&["x.o"]), 0),
        Err(LedgerError::DomainReserved)
    );
    let mut bob_first = Ledger::new();
    assert_eq!(bob_first.create_payment(2, BOB, "b", 1, &names(&["x.o"]), 0), Ok(()));
    assert_eq!(
        bob_first.create_payment(1, ALICE, "a", 1, &names(&["x.o"]), 0),
        Err(LedgerError::DomainReserved)
    );
}

#[test]
fn funds_are_credited_once_per_transaction() {
    let mut ledger = ledger_with_one_payment();
    assert_eq!(
        ledger.add_payment_received(10, 30_000, "tx-1", 1),
        Err(LedgerError::NotInitiated)
    );
    assert_eq!(ledger.initiate_payment(10), Ok(()));
    assert_eq!(ledger.add_payment_received(10, 30_000, "tx-1", 1), Ok(()));
    assert_eq!(ledger.get_payment(10).unwrap().received, 30_000);
    assert!(ledger.is_already_processed("tx-1", "addr-a"));
    assert!(!ledger.is_already_processed("tx-2", "addr-a"));
    assert!(!ledger.is_already_processed("tx-1", "addr-b"));
    assert_eq!(
        ledger.add_payment_received(10, 30_000, "tx-1", 5),
        Err(LedgerError::AlreadyProcessed)
    );
    assert_eq!(ledger.get_payment(10).unwrap().received, 30_000);
    assert_eq!(ledger.get_payment(10).unwrap().confirmations, 1);
    assert_eq!(ledger.add_payment_received(10, 40_000, "tx-2", 3), Ok(()));
    assert_eq!(ledger.get_payment(10).unwrap().received, 70_000);
    assert_eq!(ledger.get_payment(10).unwrap().confirmations, 3);
    // fewer confirmations do not take the count back
    assert_eq!(ledger.add_payment_received(10, 1, "tx-3", 2), Ok(()));
    assert_eq!(ledger.get_payment(10).unwrap().confirmations, 3);
    assert_eq!(ledger.get_payment(10).unwrap().received, 70_001);
    assert_eq!(
        ledger.add_payment_received(99, 1, "tx-1", 1),
        Err(LedgerError::UnknownPayment)
    );
}

#[test]
fn what_is_received_must_fit() {
    let mut ledger = ledger_with_one_payment();
    ledger.initiate_payment(10).unwrap();
    assert_eq!(ledger.add_payment_received(10, u64::MAX - 1, "tx-1", 1), Ok(()));
    assert_eq!(
        ledger.add_payment_received(10, 2, "tx-2", 1),
        Err(LedgerError::AmountOverflow)
    );
    assert_eq!(ledger.get_payment(10).unwrap().received, u64::MAX - 1);
    assert!(!ledger.is_already_processed("tx-2", "addr-a"));
    assert_eq!(ledger.add_payment_received(10, 1, "tx-2", 1), Ok(()));
    assert_eq!(ledger.get_payment(10).unwrap().received, u64::MAX);
}

#[test]
fn initiating_twice_changes_nothing() {
    let mut ledger = ledger_with_one_payment();
    assert_eq!(ledger.initiate_payment(10), Ok(()));
    assert!(ledger.get_payment(10).unwrap().initiated);
    assert_eq!(ledger.initiate_payment(10), Ok(()));
    assert!(ledger.get_payment(10).unwrap().initiated);
    assert!(ledger.get_to_be_initiated_addresses().is_empty());
    assert_eq!(ledger.initiate_payment(11), Err(LedgerError::UnknownPayment));
}

#[test]
fn a_payment_is_completed_once_it_is_covered() {
    let mut ledger = ledger_with_one_payment();
    assert_eq!(ledger.complete_payment(11), Err(LedgerError::UnknownPayment));
    assert_eq!(ledger.complete_payment(10), Err(LedgerError::NotInitiated));
    ledger.initiate_payment(10).unwrap();
    assert_eq!(ledger.complete_payment(10), Err(LedgerError::NotPaid));
    assert!(ledger.get_to_be_completed_payments().is_empty());
    ledger.add_payment_received(10, 69_999, "tx-1", 1).unwrap();
    assert_eq!(ledger.complete_payment(10), Err(LedgerError::NotPaid));
    assert!(ledger.get_to_be_completed_payments().is_empty());
    ledger.add_payment_received(10, 1, "tx-2", 1).unwrap();
    assert_eq!(ledger.get_to_be_completed_payments(), vec![10]);
    assert_eq!(ledger.complete_payment(10), Ok(()));
    assert!(ledger.get_payment(10).unwrap().completed);
    assert!(ledger.get_to_be_completed_payments().is_empty());
    assert_eq!(ledger.complete_payment(10), Ok(()));
}

#[test]
fn lists_follow_the_order_in_which_payments_were_opened() {
    let mut ledger = Ledger::new();
    for (id, address) in [(3u128, "c"), (1, "a"), (2, "b"), (4, "d")] {
        ledger.create_payment(id, ALICE, address, 10, &Vec::new(), 0).unwrap();
    }
    assert_eq!(ledger.get_to_be_initiated_addresses(), names(&["c", "a", "b", "d"]));
    for id in [1u128, 3, 4] {
        ledger.initiate_payment(id).unwrap();
    }
    assert_eq!(ledger.get_to_be_initiated_addresses(), names(&["b"]));
    ledger.add_payment_received(4, 10, "t4", 1).unwrap();
    ledger.add_payment_received(3, 11, "t3", 1).unwrap();
    ledger.add_payment_received(1, 9, "t1", 1).unwrap();
    assert_eq!(ledger.get_to_be_completed_payments(), vec![3, 4]);
}

#[test]
fn only_the_owner_deletes_and_only_before_funds_are_seen() {
    let mut ledger = ledger_with_one_payment();
    assert_eq!(ledger.delete_payment(ALICE, 11), Err(LedgerError::UnknownPayment));
    assert_eq!(ledger.delete_payment(BOB, 10), Err(LedgerError::NotOwner));
    assert!(ledger.get_payment(10).is_some());
    assert_eq!(ledger.delete_payment(ALICE, 10), Ok(()));
    assert!(ledger.get_payment(10).is_none());
    assert!(ledger.get_payment_by_address("addr-a").is_none());
    // the name is free again
    assert!(ledger.get_already_owned_domains(BOB, &names(&["foo.o"])).is_empty());
    assert_eq!(ledger.create_payment(11, BOB, "addr-a", 1, &names(&["foo.o"]), 0), Ok(()));
    ledger.initiate_payment(11).unwrap();
    assert_eq!(ledger.delete_payment(BOB, 11), Err(LedgerError::AlreadyInitiated));
    assert!(ledger.get_payment(11).is_some());
}

#[test]
fn deleting_one_payment_leaves_the_others() {
    let mut ledger = Ledger::new();
    ledger.create_payment(1, ALICE, "a", 1, &names(&["a.o", "b.o"]), 0).unwrap();
    ledger.create_payment(2, ALICE, "b", 2, &names(&["c.o"]), 0).unwrap();
    ledger.create_payment(3, BOB, "c", 3, &names(&["d.o"]), 0).unwrap();
    assert_eq!(ledger.delete_payment(ALICE, 1), Ok(()));
    assert_eq!(ledger.get_to_be_initiated_addresses(), names(&["b", "c"]));
    assert_eq!(
        ledger.get_already_owned_domains(BOB, &names(&["a.o", "b.o", "c.o", "d.o"])),
        names(&["c.o"])
    );
    assert_eq!(
        ledger.get_already_owned_domains(ALICE, &names(&["a.o", "b.o", "c.o", "d.o"])),
        names(&["d.o"])
    );
}

#[test]
fn the_sweep_reclaims_requests_that_never_saw_funds() {
    let opened = 1_000_000;
    let mut ledger = Ledger::new();
    ledger.create_payment(1, ALICE, "a", 70_000, &names(&["foo.o"]), opened).unwrap();
    ledger.cleanup_old_orders(opened + 40 * 60);
    assert!(ledger.get_payment(1).is_none());
    assert!(ledger.get_to_be_initiated_addresses().is_empty());
    // the name is available to other accounts again
    assert!(ledger.get_already_owned_domains(BOB, &names(&["foo.o"])).is_empty());
    assert_eq!(ledger.create_payment(2, BOB, "b", 70_000, &names(&["foo.o"]), opened), Ok(()));
}

#[test]
fn the_sweep_waits_for_the_whole_window() {
    assert_eq!(EXPIRY_WINDOW_SECONDS, 35 * 60);
    let opened = 1_000_000;
    let mut ledger = Ledger::new();
    ledger.create_payment(1, ALICE, "a", 70_000, &names(&["foo.o"]), opened).unwrap();
    ledger.cleanup_old_orders(opened);
    ledger.cleanup_old_orders(opened - 5_000);
    ledger.cleanup_old_orders(opened + EXPIRY_WINDOW_SECONDS);
    assert!(ledger.get_payment(1).is_some());
    assert_eq!(
        ledger.get_already_owned_domains(BOB, &names(&["foo.o"])),
        names(&["foo.o"])
    );
    ledger.cleanup_old_orders(opened + EXPIRY_WINDOW_SECONDS + 1);
    assert!(ledger.get_payment(1).is_none());
}

#[test]
fn the_sweep_leaves_payments_that_saw_funds() {
    let mut ledger = Ledger::new();
    ledger.create_payment(1, ALICE, "a", 70_000, &names(&["old.o"]), 0).unwrap();
    ledger.create_payment(2, ALICE, "b", 70_000, &names(&["seen.o"]), 0).unwrap();
    ledger.create_payment(3, BOB, "c", 70_000, &names(&["young.o"]), 9_000).unwrap();
    ledger.initiate_payment(2).unwrap();
    ledger.add_payment_received(2, 5, "tx", 1).unwrap();
    ledger.cleanup_old_orders(10_000);
    assert!(ledger.get_payment(1).is_none());
    assert_eq!(ledger.get_payment(2).unwrap().received, 5);
    assert!(ledger.get_payment(3).is_some());
    assert!(ledger.is_already_processed("tx", "b"));
    assert_eq!(
        ledger.get_already_owned_domains(BOB, &names(&["old.o", "seen.o", "young.o"])),
        names(&["seen.o"])
    );
    ledger.cleanup_old_orders(i64::MAX);
    assert!(ledger.get_payment(2).is_some());
    assert!(ledger.get_payment(3).is_none());
    ledger.cleanup_old_orders(i64::MIN);
    assert!(ledger.get_payment(2).is_some());
}

#[test]
fn the_sweep_copes_with_times_at_the_limits() {
    let mut ledger = Ledger::new();
    ledger.create_payment(1, ALICE, "a", 1, &Vec::new(), i64::MAX).unwrap();
    ledger.create_payment(2, ALICE, "b", 1, &Vec::new(), i64::MIN).unwrap();
    ledger.cleanup_old_orders(i64::MAX);
    assert!(ledger.get_payment(1).is_some());
    assert!(ledger.get_payment(2).is_none());
}

#[test]
fn an_account_sees_the_domains_of_its_funded_payments() {
    let mut ledger = Ledger::new();
    ledger.create_payment(1, ALICE, "a", 10, &names(&["a.o", "b.o"]), 0).unwrap();
    ledger.create_payment(2, ALICE, "b", 10, &names(&["c.o"]), 0).unwrap();
    ledger.create_payment(3, BOB, "c", 10, &names(&["d.o"]), 0).unwrap();
    assert!(ledger.get_owned_domains(ALICE).is_empty());
    ledger.initiate_payment(1).unwrap();
    ledger.initiate_payment(3).unwrap();
    assert_eq!(
        ledger.get_owned_domains(ALICE),
        vec![("a.o".to_string(), false, None), ("b.o".to_string(), false, None)]
    );
    ledger.add_payment_received(1, 10, "tx", 1).unwrap();
    ledger.complete_payment(1).unwrap();
    ledger.initiate_payment(2).unwrap();
    assert_eq!(
        ledger.get_owned_domains(ALICE),
        vec![
            ("a.o".to_string(), true, None),
            ("b.o".to_string(), true, None),
            ("c.o".to_string(), false, None)
        ]
    );
    assert_eq!(ledger.get_owned_domains(BOB), vec![("d.o".to_string(), false, None)]);
    assert!(ledger.get_owned_domains(7).is_empty());
}
