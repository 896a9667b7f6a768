use domain_pay::ledger::Ledger;
use domain_pay::log::LogTypes;
use domain_pay::observer::{observe, observe_tick};
use domain_pay::payment::Payment;
use domain_pay::reconcile::{
    decide, process_output, process_tick, ObservedOutput, OutputAction, CONFIRMATIONS_REQUIRED,
    WATCH_MAX_CONFIRMATIONS, WATCH_MIN_CONFIRMATIONS,
};

const ALICE: u128 = 1;
const BOB: u128 = 2;

fn output(address: &str, transaction: &str, amount: u64, confirmations: u32) -> ObservedOutput {
    ObservedOutput {
        address: address.to_string(),
        transaction_id: transaction.to_string(),
        amount,
        confirmations,
    }
}

fn ledger() -> Ledger {
    let mut ledger = Ledger::new();
    ledger.create_payment(10, ALICE, "A", 70_000, &vec!["foo.o".to_string()], 1_000).unwrap();
    ledger.create_payment(20, BOB, "B", 140_000, &vec!["bar.o".to_string()], 1_000).unwrap();
    ledger
}

fn payment(initiated: bool) -> Option<Payment> {
    Some(Payment {
        id: 1,
        account_id: 2,
        address: "A".to_string(),
        amount: 3,
        received: 0,
        confirmations: 0,
        initiated,
        completed: false,
        created_at: 0,
    })
}

#[test]
fn the_policy_constants() {
    assert_eq!(CONFIRMATIONS_REQUIRED, 1);
    assert_eq!(WATCH_MIN_CONFIRMATIONS, 0);
    assert_eq!(WATCH_MAX_CONFIRMATIONS, 100);
}

#[test]
fn what_is_decided_for_an_output() {
    assert_eq!(decide(true, &payment(false), 5, 1), OutputAction::Skip);
    assert_eq!(decide(true, &payment(true), 5, 1), OutputAction::Skip);
    assert_eq!(decide(true, &None, 5, 1), OutputAction::Skip);
    assert_eq!(decide(false, &None, 5, 1), OutputAction::Skip);
    assert_eq!(decide(false, &payment(false), 0, 1), OutputAction::Initiate);
    assert_eq!(decide(false, &payment(true), 0, 1), OutputAction::Skip);
    assert_eq!(decide(false, &payment(false), 1, 1), OutputAction::InitiateAndCredit);
    assert_eq!(decide(false, &payment(true), 1, 1), OutputAction::Credit);
    assert_eq!(decide(false, &payment(true), 2, 3), OutputAction::Skip);
    assert_eq!(decide(false, &payment(false), 2, 3), OutputAction::Initiate);
    assert_eq!(decide(false, &payment(true), 3, 3), OutputAction::Credit);
    assert_eq!(decide(false, &payment(false), 0, 0), OutputAction::InitiateAndCredit);
}

#[test]
fn an_unconfirmed_output_initiates_and_is_credited_once_confirmed() {
    let mut ledger = ledger();
    let events = process_output(&mut ledger, &output("A", "tx", 70_000, 0), 1);
    let seen = ledger.get_payment(10).unwrap();
    assert!(seen.initiated);
    assert_eq!(seen.received, 0);
    assert_eq!(events.len(), 1);
    assert_eq!(events[0].kind, LogTypes::PaymentReceivedUnconfirmed);
    assert_eq!(events[0].account_id, ALICE);
    assert_eq!(events[0].payment_id, 10);
    assert_eq!(events[0].transaction_id, "tx");
    assert_eq!(events[0].amount, 70_000);
    assert!(!ledger.is_already_processed("tx", "A"));

    // seen again, still unconfirmed: nothing happens
    let events = process_output(&mut ledger, &output("A", "tx", 70_000, 0), 1);
    assert!(events.is_empty());
    assert_eq!(ledger.get_payment(10).unwrap().received, 0);

    // confirmed: credited
    let events = process_output(&mut ledger, &output("A", "tx", 70_000, 1), 1);
    assert_eq!(events.len(), 1);
    assert_eq!(events[0].kind, LogTypes::PaymentReceivedConfirmed);
    assert_eq!(events[0].account_id, ALICE);
    assert_eq!(events[0].payment_id, 10);
    assert_eq!(events[0].transaction_id, "tx");
    assert_eq!(events[0].amount, 70_000);
    let paid = ledger.get_payment(10).unwrap();
    assert_eq!(paid.received, 70_000);
    assert_eq!(paid.confirmations, 1);
    assert!(ledger.is_already_processed("tx", "A"));

    // and never again, whatever the node reports of it later
    for confirmations in [1, 2, 50, 100] {
        let events = process_output(&mut ledger, &output("A", "tx", 70_000, confirmations), 1);
        assert!(events.is_empty());
        assert_eq!(ledger.get_payment(10).unwrap().received, 70_000);
    }
    let events = process_output(&mut ledger, &output("A", "tx", 1, 3), 1);
    assert!(events.is_empty());
    assert_eq!(ledger.get_payment(10).unwrap().received, 70_000);
    assert_eq!(ledger.get_payment(20).unwrap().received, 0);
}

#[test]
fn a_confirmed_first_sight_initiates_and_credits() {
    let mut ledger = ledger();
    let events = process_output(&mut ledger, &output("B", "tx", 5, 7), 1);
    assert_eq!(events.len(), 2);
    assert_eq!(events[0].kind, LogTypes::PaymentReceivedUnconfirmed);
    assert_eq!(events[0].amount, 140_000);
    assert_eq!(events[1].kind, LogTypes::PaymentReceivedConfirmed);
    assert_eq!(events[1].amount, 5);
    let payment = ledger.get_payment(20).unwrap();
    assert!(payment.initiated);
    assert_eq!(payment.received, 5);
    assert_eq!(payment.confirmations, 7);
}

#[test]
fn an_output_for_no_payment_is_skipped() {
    let mut ledger = ledger();
    let events = process_output(&mut ledger, &output("C", "tx", 5, 7), 1);
    assert!(events.is_empty());
    assert!(!ledger.is_already_processed("tx", "C"));
    assert_eq!(ledger.get_payment(10).unwrap().received, 0);
    assert!(!ledger.get_payment(10).unwrap().initiated);
}

#[test]
fn the_same_observation_n_times_credits_once() {
    for times in 1..6usize {
        let mut ledger = ledger();
        let mut events = 0;
        for tick in 0..times {
            events +=
                process_tick(&mut ledger, &vec![output("A", "tx", 123, 1)], 1, 1_000 + tick as i64)
                    .len();
        }
        assert_eq!(ledger.get_payment(10).unwrap().received, 123);
        assert_eq!(events, 2);
    }
    // also within one tick
    let mut ledger = ledger();
    let same = vec![output("A", "tx", 123, 1), output("A", "tx", 123, 1), output("A", "tx", 123, 2)];
    let events = process_tick(&mut ledger, &same, 1, 1_000);
    assert_eq!(events.len(), 2);
    assert_eq!(ledger.get_payment(10).unwrap().received, 123);
}

#[test]
fn one_transaction_may_pay_two_payments() {
    let mut ledger = ledger();
    let outputs = vec![output("A", "tx", 100, 1), output("B", "tx", 200, 1)];
    process_tick(&mut ledger, &outputs, 1, 1_000);
    process_tick(&mut ledger, &outputs, 1, 1_001);
    assert_eq!(ledger.get_payment(10).unwrap().received, 100);
    assert_eq!(ledger.get_payment(20).unwrap().received, 200);
}

#[test]
fn several_transactions_add_up() {
    let mut ledger = ledger();
    let outputs = vec![
        output("A", "t1", 30_000, 1),
        output("A", "t2", 30_000, 4),
        output("A", "t3", 10_000, 0),
    ];
    let events = process_tick(&mut ledger, &outputs, 1, 1_000);
    assert_eq!(events.len(), 3);
    let payment = ledger.get_payment(10).unwrap();
    assert_eq!(payment.received, 60_000);
    assert_eq!(payment.confirmations, 4);
    assert!(ledger.get_to_be_completed_payments().is_empty());
    let outputs = vec![output("A", "t3", 10_000, 1), output("A", "t1", 30_000, 2)];
    let events = process_tick(&mut ledger, &outputs, 1, 1_001);
    assert_eq!(events.len(), 1);
    assert_eq!(events[0].transaction_id, "t3");
    assert_eq!(ledger.get_payment(10).unwrap().received, 70_000);
    assert_eq!(ledger.get_to_be_completed_payments(), vec![10]);
}

#[test]
fn nothing_goes_back_across_ticks() {
    let mut ledger = ledger();
    let ticks = vec![
        vec![output("A", "t1", 10, 0)],
        vec![output("A", "t1", 10, 3), output("B", "t2", 7, 0)],
        vec![output("A", "t3", 5, 1), output("B", "t2", 7, 0)],
        vec![],
        vec![output("A", "t4", 5, 0), output("B", "t2", 7, 2), output("A", "t1", 10, 1)],
        vec![output("C", "t9", 5, 9)],
    ];
    let mut before = (ledger.get_payment(10).unwrap(), ledger.get_payment(20).unwrap());
    for (n, outputs) in ticks.iter().enumerate() {
        process_tick(&mut ledger, outputs, 1, 1_000 + n as i64);
        let after = (ledger.get_payment(10).unwrap(), ledger.get_payment(20).unwrap());
        for (old, new) in [(&before.0, &after.0), (&before.1, &after.1)] {
            assert!(new.received >= old.received);
            assert!(new.confirmations >= old.confirmations);
            assert!(new.initiated || !old.initiated);
            assert!(new.completed || !old.completed);
        }
        before = after;
    }
    assert_eq!(before.0.received, 15);
    assert_eq!(before.0.confirmations, 3);
    assert_eq!(before.1.received, 7);
    assert_eq!(before.1.confirmations, 2);
}

#[test]
fn a_credit_that_does_not_fit_is_left_for_later() {
    let mut ledger = ledger();
    process_output(&mut ledger, &output("A", "t1", u64::MAX, 1), 1);
    assert_eq!(ledger.get_payment(10).unwrap().received, u64::MAX);
    let events = process_output(&mut ledger, &output("A", "t2", 1, 1), 1);
    assert!(events.is_empty());
    assert_eq!(ledger.get_payment(10).unwrap().received, u64::MAX);
    assert!(!ledger.is_already_processed("t2", "A"));
    // the largest amount fits at first sight
    let mut ledger = Ledger::new();
    ledger.create_payment(1, ALICE, "A", 1, &Vec::new(), 0).unwrap();
    ledger.create_payment(2, ALICE, "B", 1, &Vec::new(), 0).unwrap();
    let events = process_output(&mut ledger, &output("B", "t", u64::MAX, 1), 1);
    assert_eq!(events.len(), 2);
    assert_eq!(ledger.get_payment(2).unwrap().received, u64::MAX);
    assert_eq!(ledger.get_payment(1).unwrap().received, 0);
}

#[test]
fn a_tick_ends_with_the_sweep() {
    let opened = 1_000;
    let mut ledger = ledger();
    let late = opened + 40 * 60;
    let events = process_tick(&mut ledger, &vec![output("A", "tx", 1, 0)], 1, late);
    assert_eq!(events.len(), 1);
    // A saw funds in this very tick and stays, B is reclaimed
    assert!(ledger.get_payment(10).unwrap().initiated);
    assert!(ledger.get_payment(20).is_none());
    assert!(ledger.get_already_owned_domains(ALICE, &vec!["bar.o".to_string()]).is_empty());
    assert_eq!(
        ledger.get_already_owned_domains(BOB, &vec!["foo.o".to_string()]),
        vec!["foo.o".to_string()]
    );
}

#[test]
fn a_higher_threshold_defers_the_credit() {
    let mut ledger = ledger();
    process_tick(&mut ledger, &vec![output("A", "tx", 9, 2)], 3, 1_000);
    assert!(ledger.get_payment(10).unwrap().initiated);
    assert_eq!(ledger.get_payment(10).unwrap().received, 0);
    process_tick(&mut ledger, &vec![output("A", "tx", 9, 3)], 3, 1_001);
    assert_eq!(ledger.get_payment(10).unwrap().received, 9);
}

#[test]
fn the_observer_hands_on_watched_outputs_in_the_window() {
    let reported = vec![
        output("A", "t1", 1, 0),
        output("C", "t2", 2, 5),
        output("B", "t3", 3, 100),
        output("B", "t4", 4, 101),
        output("A", "t5", 5, 7),
    ];
    let watched = vec!["A".to_string(), "B".to_string()];
    let seen = observe_tick(reported, &watched);
    let ids: Vec<&str> = seen.iter().map(|o| o.transaction_id.as_str()).collect();
    assert_eq!(ids, vec!["t1", "t3", "t5"]);
    assert_eq!(seen[1].address, "B");
    assert_eq!(seen[1].amount, 3);
    assert_eq!(seen[1].confirmations, 100);

    let reported = vec![output("A", "t1", 1, 0), output("A", "t2", 2, 5), output("A", "t3", 3, 9)];
    let seen = observe(reported, &watched, 1, 5);
    assert_eq!(seen.len(), 1);
    assert_eq!(seen[0].transaction_id, "t2");
    assert!(observe(vec![output("A", "t", 1, 1)], &Vec::new(), 0, 100).is_empty());
    assert!(observe(vec![output("A", "t", 1, 1)], &watched, 5, 1).is_empty());
}

#[test]
fn a_whole_tick_from_the_watch_list_to_the_ledger() {
    let mut ledger = ledger();
    let watch = ledger.get_to_be_initiated_addresses();
    assert_eq!(watch, vec!["A".to_string(), "B".to_string()]);
    let reported = vec![output("A", "t1", 70_000, 3), output("Z", "t2", 5, 3)];
    let outputs = observe_tick(reported, &watch);
    let events = process_tick(&mut ledger, &outputs, CONFIRMATIONS_REQUIRED, 1_001);
    assert_eq!(events.len(), 2);
    assert_eq!(ledger.get_to_be_initiated_addresses(), vec!["B".to_string()]);
    assert_eq!(ledger.get_to_be_completed_payments(), vec![10]);
}
