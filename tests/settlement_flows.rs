use std::collections::HashMap;

use treasury::{Address, Error, Payout, PayoutKind, PayoutRequest, PayoutStatus, Treasury};

fn account(b: u8) -> Address {
    Address::from_bytes([b; 32])
}

fn alice() -> Address {
    account(1)
}

fn bob() -> Address {
    account(2)
}

fn charlie() -> Address {
    account(3)
}

/// Balances kept by the host around the treasury.
struct Ledger {
    treasury: u128,
    accounts: HashMap<[u8; 32], u128>,
}

impl Ledger {
    fn with_balance(treasury: u128) -> Ledger {
        Ledger { treasury, accounts: HashMap::new() }
    }

    fn balance_of(&self, a: Address) -> u128 {
        *self.accounts.get(&a.bytes).unwrap_or(&0)
    }

    fn set_balance(&mut self, a: Address, v: u128) {
        self.accounts.insert(a.bytes, v);
    }
}

/// Runs one settlement the way a host does: begin, pay each transfer,
/// finish (or abort on the first payment the balance cannot cover).
fn process(t: &mut Treasury, now: u32, ledger: &mut Ledger) -> Result<(Vec<u32>, u128), Error> {
    let transfers = t.begin_settlement(now)?;
    for tr in &transfers {
        if tr.amount > ledger.treasury {
            return Err(t.abort_settlement());
        }
        ledger.treasury -= tr.amount;
        *ledger.accounts.entry(tr.to.bytes).or_insert(0) += tr.amount;
    }
    Ok(t.finish_settlement())
}

fn owned_treasury() -> Treasury {
    Treasury::new(alice(), vec![])
}

fn one_time_id(p: &Payout) -> u32 {
    match p.kind {
        PayoutKind::OneTime { .. } => p.id,
        _ => panic!("Expected OneTime payout"),
    }
}

#[test]
fn default_works() {
    let treasury = owned_treasury();
    assert!(!treasury.get_processing());
}

#[test]
fn it_works() {
    let mut treasury = owned_treasury();
    let mut ledger = Ledger::with_balance(10_000_000);
    assert!(!treasury.get_processing());

    treasury.add_payout(alice(), 0, alice(), 1_000_000, None).unwrap();
    assert!(treasury.get_pending_payouts().len() == 1);

    let (processed_ids, total_amount) = process(&mut treasury, 0, &mut ledger).unwrap();
    assert_eq!(processed_ids, vec![0]);
    assert_eq!(total_amount, 1_000_000);
    assert!(treasury.get_pending_payouts().len() == 0);
}

#[test]
fn one_time_payout_settles_and_is_archived() {
    let mut treasury = owned_treasury();
    let mut ledger = Ledger::with_balance(5_000_000);
    let id = treasury.add_payout(alice(), 0, bob(), 1_000_000, None).unwrap();

    let (ids, total) = process(&mut treasury, 0, &mut ledger).unwrap();
    assert_eq!(ids, vec![id]);
    assert_eq!(total, 1_000_000);
    assert_eq!(treasury.get_pending_payouts().len(), 0);
    let archived = treasury.get_past_payouts();
    assert_eq!(archived.len(), 1);
    assert_eq!(archived[0].id, id);
    assert_eq!(archived[0].status, PayoutStatus::Completed(0));
    assert_eq!(ledger.balance_of(bob()), 1_000_000);
}

#[test]
fn test_add_100_payouts() {
    let mut treasury = owned_treasury();
    let recipient = alice();

    for i in 0..100u32 {
        let amount = 1_000_000u128 + (i as u128 * 1_000_000u128);
        let result = treasury.add_payout(alice(), 0, recipient, amount, None);
        assert!(result.is_ok());
        assert_eq!(result.unwrap(), i);
    }

    assert_eq!(treasury.get_pending_payout_ids().len(), 100);
    assert_eq!(treasury.get_pending_payouts().len(), 100);

    let payouts = treasury.get_pending_payouts();
    for (index, payout) in payouts.iter().enumerate() {
        assert_eq!(one_time_id(payout), index as u32);
        assert_eq!(payout.recipient, recipient);
        assert_eq!(payout.amount, 1_000_000u128 + (index as u128 * 1_000_000u128));
    }

    assert_eq!(treasury.get_treasury_stats().2, 100);
}

#[test]
fn test_payout_added_event() {
    let mut treasury = owned_treasury();
    let recipient = bob();
    let amount = 5_000_000u128;

    let payout_id = treasury.add_payout(alice(), 0, recipient, amount, None).unwrap();

    let stored = treasury.get_payout(payout_id).unwrap();
    assert_eq!(stored.id, payout_id);
    assert_eq!(stored.recipient, recipient);
    assert_eq!(stored.amount, amount);
    assert_eq!(stored.kind, PayoutKind::OneTime { scheduled_tick: None });
    assert_eq!(stored.status, PayoutStatus::Pending);
    assert_eq!(stored.approvals, vec![alice()]);
}

#[test]
fn test_multiple_payout_events() {
    let mut treasury = owned_treasury();
    let recipient1 = alice();
    let recipient2 = account(9);

    treasury.add_payout(alice(), 0, recipient1, 1_000_000, None).unwrap();
    treasury.add_payout(alice(), 0, recipient2, 2_000_000, None).unwrap();

    let first = treasury.get_payout(0).unwrap();
    assert_eq!(first.id, 0);
    assert_eq!(first.recipient, recipient1);
    assert_eq!(first.amount, 1_000_000);
    assert_eq!(first.kind, PayoutKind::OneTime { scheduled_tick: None });
    assert_eq!(first.status, PayoutStatus::Pending);

    let second = treasury.get_payout(1).unwrap();
    assert_eq!(second.id, 1);
    assert_eq!(second.recipient, recipient2);
    assert_eq!(second.amount, 2_000_000);
    assert_eq!(second.kind, PayoutKind::OneTime { scheduled_tick: None });
    assert_eq!(second.status, PayoutStatus::Pending);
}

#[test]
fn test_process_payouts() {
    let mut treasury = owned_treasury();
    let mut ledger = Ledger::with_balance(20_000_000);
    let recipient1 = bob();
    let recipient2 = charlie();

    treasury.add_payout(alice(), 0, recipient1, 1_000_000, None).unwrap();
    treasury.add_payout(alice(), 0, recipient2, 2_000_000, None).unwrap();
    treasury.add_payout(alice(), 0, recipient1, 3_000_000, None).unwrap();

    assert_eq!(treasury.get_pending_payout_ids(), vec![0, 1, 2]);
    assert_eq!(treasury.get_pending_payouts().len(), 3);

    let (processed_ids, total_amount) = process(&mut treasury, 0, &mut ledger).unwrap();
    assert_eq!(processed_ids, vec![0, 1, 2]);
    assert_eq!(total_amount, 6_000_000);

    assert_eq!(treasury.get_pending_payout_ids().len(), 0);
    assert_eq!(treasury.get_pending_payouts().len(), 0);

    treasury.add_payout(alice(), 0, recipient2, 4_000_000, None).unwrap();
    treasury.add_payout(alice(), 0, recipient1, 5_000_000, None).unwrap();

    assert_eq!(treasury.get_pending_payout_ids(), vec![3, 4]);
    assert_eq!(treasury.get_pending_payouts().len(), 2);

    let (second_ids, second_total) = process(&mut treasury, 0, &mut ledger).unwrap();
    assert_eq!(second_ids, vec![3, 4]);
    assert_eq!(second_total, 9_000_000);

    assert_eq!(treasury.get_pending_payout_ids().len(), 0);
    assert_eq!(treasury.get_pending_payouts().len(), 0);
    assert_eq!(ledger.balance_of(recipient1), 9_000_000);
    assert_eq!(ledger.balance_of(recipient2), 6_000_000);
}

#[test]
fn test_minimum_amount_validation() {
    let mut treasury = owned_treasury();
    let recipient = alice();

    let result = treasury.add_payout(alice(), 0, recipient, 100, None);
    assert!(result.is_err());
    assert_eq!(result.unwrap_err(), Error::PrecisionLoss);

    let result = treasury.add_payout(alice(), 0, recipient, 1_000_001, None);
    assert!(result.is_err());
    assert_eq!(result.unwrap_err(), Error::PrecisionLoss);

    let result = treasury.add_payout(alice(), 0, recipient, 1_000_000, None);
    assert!(result.is_ok());

    let result = treasury.add_payout(alice(), 0, recipient, 10_000_000, None);
    assert!(result.is_ok());
}

#[test]
fn submission_amounts_follow_precision_rule() {
    let mut treasury = owned_treasury();
    assert_eq!(treasury.add_payout(alice(), 0, bob(), 999, None), Err(Error::PrecisionLoss));
    assert_eq!(treasury.add_payout(alice(), 0, bob(), 1_000_001, None), Err(Error::PrecisionLoss));
    assert_eq!(treasury.add_payout(alice(), 0, bob(), 1_000_000, None), Ok(0));
    assert_eq!(treasury.get_pending_payout_ids(), vec![0]);
}

#[test]
fn test_scheduled_payouts() {
    let mut treasury = owned_treasury();
    let mut ledger = Ledger::with_balance(20_000_000);
    let recipient = alice();

    let immediate_id = treasury.add_payout(alice(), 0, recipient, 1_000_000, None).unwrap();
    let future_block = 100u32;
    let scheduled_id = treasury
        .add_payout(alice(), 0, recipient, 2_000_000, Some(future_block))
        .unwrap();

    assert_eq!(treasury.get_pending_payout_ids(), vec![immediate_id, scheduled_id]);
    assert_eq!(treasury.get_pending_payouts().len(), 2);

    let ready_payouts = treasury.get_ready_payouts(0);
    let scheduled_payouts = treasury.get_scheduled_payouts(0);
    assert_eq!(ready_payouts.len(), 1);
    assert_eq!(scheduled_payouts.len(), 1);
    assert_eq!(one_time_id(&ready_payouts[0]), immediate_id);
    assert_eq!(one_time_id(&scheduled_payouts[0]), scheduled_id);

    let (processed_ids, total_amount) = process(&mut treasury, 0, &mut ledger).unwrap();
    assert_eq!(processed_ids, vec![immediate_id]);
    assert_eq!(total_amount, 1_000_000);

    assert_eq!(treasury.get_pending_payout_ids(), vec![scheduled_id]);
    assert_eq!(treasury.get_ready_payouts(0).len(), 0);
    assert_eq!(treasury.get_scheduled_payouts(0).len(), 1);

    assert_eq!(treasury.get_processed_payout_ids(), vec![immediate_id]);
    let retrieved_payout = treasury.get_payout(immediate_id);
    assert!(retrieved_payout.is_some());
    assert_eq!(retrieved_payout.unwrap().amount, 1_000_000);

    assert_eq!(treasury.get_ready_payouts(future_block).len(), 1);
    assert_eq!(treasury.get_scheduled_payouts(future_block).len(), 0);

    let (processed_ids, total_amount) = process(&mut treasury, future_block, &mut ledger).unwrap();
    assert_eq!(processed_ids, vec![scheduled_id]);
    assert_eq!(total_amount, 2_000_000);

    assert_eq!(treasury.get_pending_payout_ids().len(), 0);
    assert_eq!(treasury.get_processed_payout_ids(), vec![immediate_id, scheduled_id]);

    let recent_payouts = treasury.get_recent_processed_payouts(5);
    assert_eq!(recent_payouts.len(), 2);
    assert_eq!(one_time_id(&recent_payouts[0]), scheduled_id);
    assert_eq!(one_time_id(&recent_payouts[1]), immediate_id);

    let all_recent = treasury.get_recent_processed_payouts(100);
    assert_eq!(all_recent.len(), 2);

    let latest_one = treasury.get_recent_processed_payouts(1);
    assert_eq!(latest_one.len(), 1);
    assert_eq!(one_time_id(&latest_one[0]), scheduled_id);
}

#[test]
fn test_get_ready_payouts() {
    let mut treasury = owned_treasury();
    let recipient = alice();

    assert_eq!(treasury.get_ready_payouts(0).len(), 0);

    treasury.add_payout(alice(), 0, recipient, 1_000_000, None).unwrap();
    assert_eq!(treasury.get_ready_payouts(0).len(), 1);
    assert_eq!(treasury.get_scheduled_payouts(0).len(), 0);

    treasury.add_payout(alice(), 0, recipient, 2_000_000, Some(1000)).unwrap();
    assert_eq!(treasury.get_ready_payouts(0).len(), 1);
    assert_eq!(treasury.get_scheduled_payouts(0).len(), 1);

    assert_eq!(treasury.get_ready_payouts(1000).len(), 2);
    assert_eq!(treasury.get_scheduled_payouts(1000).len(), 0);
}

#[test]
fn test_get_scheduled_payouts() {
    let mut treasury = owned_treasury();
    let recipient = alice();

    assert_eq!(treasury.get_scheduled_payouts(0).len(), 0);

    treasury.add_payout(alice(), 0, recipient, 1_000_000, None).unwrap();
    assert_eq!(treasury.get_scheduled_payouts(0).len(), 0);

    treasury.add_payout(alice(), 0, recipient, 2_000_000, Some(100)).unwrap();
    treasury.add_payout(alice(), 0, recipient, 3_000_000, Some(200)).unwrap();
    treasury.add_payout(alice(), 0, recipient, 4_000_000, Some(300)).unwrap();

    let scheduled = treasury.get_scheduled_payouts(0);
    assert_eq!(scheduled.len(), 3);

    for payout in scheduled {
        match payout.kind {
            PayoutKind::OneTime { scheduled_tick } => {
                assert!(scheduled_tick.is_some());
                assert!(scheduled_tick.unwrap() > 0);
            }
            _ => panic!("Expected OneTime payout for this test"),
        }
    }
}

#[test]
fn test_get_recent_processed_payouts_edge_cases() {
    let mut treasury = owned_treasury();
    let mut ledger = Ledger::with_balance(50_000_000);
    let recipient = alice();

    assert_eq!(treasury.get_recent_processed_payouts(10).len(), 0);
    assert_eq!(treasury.get_recent_processed_payouts(0).len(), 0);

    treasury.add_payout(alice(), 0, recipient, 1_000_000, None).unwrap();
    process(&mut treasury, 0, &mut ledger).unwrap();

    assert_eq!(treasury.get_recent_processed_payouts(0).len(), 0);
    assert_eq!(treasury.get_recent_processed_payouts(1).len(), 1);
    assert_eq!(treasury.get_recent_processed_payouts(100).len(), 1);

    for i in 1..=4u128 {
        treasury.add_payout(alice(), 0, recipient, i * 1_000_000, None).unwrap();
        process(&mut treasury, 0, &mut ledger).unwrap();
    }

    let recent_3 = treasury.get_recent_processed_payouts(3);
    assert_eq!(recent_3.len(), 3);
    assert_eq!(one_time_id(&recent_3[0]), 4);
    assert_eq!(one_time_id(&recent_3[1]), 3);
    assert_eq!(one_time_id(&recent_3[2]), 2);
}

#[test]
fn test_process_payouts_reentrancy() {
    let mut treasury = owned_treasury();
    let mut ledger = Ledger::with_balance(10_000_000);
    treasury.add_payout(alice(), 0, alice(), 1_000_000, None).unwrap();

    // A settlement in flight holds the latch.
    let transfers = treasury.begin_settlement(0).unwrap();
    assert_eq!(transfers.len(), 1);
    assert!(treasury.get_processing());

    let pending_before = treasury.get_pending_payout_ids();
    let archived_before = treasury.get_processed_payout_ids();
    let result = treasury.begin_settlement(0);
    assert!(result.is_err());
    assert_eq!(result.unwrap_err(), Error::Reentrancy);
    assert_eq!(treasury.get_pending_payout_ids(), pending_before);
    assert_eq!(treasury.get_processed_payout_ids(), archived_before);

    treasury.abort_settlement();
    assert!(!treasury.get_processing());
    let result = process(&mut treasury, 0, &mut ledger);
    assert!(result.is_ok());
}

#[test]
fn mutations_wait_for_settlement_in_flight() {
    let mut treasury = Treasury::new(alice(), vec![bob()]);
    let id = treasury.add_payout(alice(), 0, bob(), 1_000_000, None).unwrap();
    treasury.begin_settlement(0).unwrap();
    assert_eq!(treasury.add_payout(alice(), 0, bob(), 1_000_000, None), Err(Error::Reentrancy));
    assert_eq!(treasury.approve(bob(), id), Err(Error::Reentrancy));
    assert_eq!(treasury.cancel_payout(alice(), 0, id), Err(Error::Reentrancy));
    assert_eq!(treasury.add_treasurer(alice(), charlie()), Err(Error::Reentrancy));
    let (ids, total) = treasury.finish_settlement();
    assert_eq!(ids, vec![id]);
    assert_eq!(total, 1_000_000);
    assert!(!treasury.get_processing());
}

#[test]
fn failed_transfer_leaves_state_untouched() {
    let mut treasury = owned_treasury();
    let mut ledger = Ledger::with_balance(1_500_000);
    treasury.add_payout(alice(), 0, bob(), 1_000_000, None).unwrap();
    treasury.add_payout(alice(), 0, bob(), 1_000_000, None).unwrap();
    let result = process(&mut treasury, 0, &mut ledger);
    assert_eq!(result, Err(Error::InsufficientBalance));
    assert!(!treasury.get_processing());
    assert_eq!(treasury.get_pending_payout_ids(), vec![0, 1]);
    assert_eq!(treasury.get_processed_payout_ids().len(), 0);
}

#[test]
fn test_payout_status_filtering() {
    let mut treasury = owned_treasury();
    let mut ledger = Ledger::with_balance(10_000_000);
    let recipient = alice();

    let id1 = treasury.add_payout(alice(), 0, recipient, 1_000_000, None).unwrap();
    let id2 = treasury.add_payout(alice(), 0, recipient, 2_000_000, None).unwrap();

    assert_eq!(treasury.get_pending_payouts().len(), 2);
    assert_eq!(treasury.get_ready_payouts(0).len(), 2);

    let result = treasury.cancel_payout(alice(), 0, id1);
    assert!(result.is_ok());

    assert_eq!(treasury.get_pending_payouts().len(), 1);
    assert_eq!(treasury.get_ready_payouts(0).len(), 1);

    let (processed_ids, _) = process(&mut treasury, 0, &mut ledger).unwrap();
    assert_eq!(processed_ids.len(), 1);
    assert_eq!(processed_ids[0], id2);

    assert_eq!(treasury.get_pending_payouts().len(), 0);
    assert_eq!(treasury.get_ready_payouts(0).len(), 0);

    assert_eq!(treasury.get_processed_payout_ids().len(), 2);

    let cancelled_payout = treasury.get_payout(id1).unwrap();
    let completed_payout = treasury.get_payout(id2).unwrap();
    assert!(matches!(cancelled_payout.status, PayoutStatus::Cancelled(_)));
    assert!(matches!(completed_payout.status, PayoutStatus::Completed(_)));

    let result = treasury.cancel_payout(alice(), 0, id2);
    assert!(result.is_err());
    assert_eq!(result.unwrap_err(), Error::PayoutNotFound);
}

#[test]
fn test_recurring_payouts() {
    let mut treasury = owned_treasury();
    let mut ledger = Ledger::with_balance(50_000_000);
    let initial_balance = 300_000_000u128;
    ledger.set_balance(alice(), initial_balance);

    let recurring_id = treasury
        .add_recurring_payout(alice(), 0, alice(), 1_000_000, Some(100), 10, 3)
        .unwrap();

    assert_eq!(treasury.get_pending_payouts().len(), 1);
    assert_eq!(treasury.get_recurring_payouts().len(), 1);
    assert_eq!(treasury.get_ready_payouts(0).len(), 0);

    assert_eq!(treasury.get_ready_payouts(100).len(), 1);

    let (processed_ids, total_amount) = process(&mut treasury, 100, &mut ledger).unwrap();
    assert_eq!(processed_ids.len(), 1);
    assert_eq!(processed_ids[0], recurring_id);
    assert_eq!(total_amount, 1_000_000);
    assert_eq!(ledger.balance_of(alice()), 301_000_000);

    assert_eq!(treasury.get_pending_payouts().len(), 1);
    assert_eq!(treasury.get_ready_payouts(100).len(), 0);

    assert_eq!(treasury.get_ready_payouts(110).len(), 1);
    let (processed_ids, total_amount) = process(&mut treasury, 110, &mut ledger).unwrap();
    assert_eq!(processed_ids.len(), 1);
    assert_eq!(total_amount, 1_000_000);
    assert_eq!(ledger.balance_of(alice()), 302_000_000);

    assert_eq!(treasury.get_pending_payouts().len(), 1);

    assert_eq!(treasury.get_ready_payouts(120).len(), 1);
    let (processed_ids, total_amount) = process(&mut treasury, 120, &mut ledger).unwrap();
    assert_eq!(processed_ids.len(), 1);
    assert_eq!(total_amount, 1_000_000);
    let final_balance = ledger.balance_of(alice());
    assert_eq!(final_balance, 303_000_000);

    assert_eq!(treasury.get_pending_payouts().len(), 0);
    assert_eq!(treasury.get_recurring_payouts().len(), 0);
    assert_eq!(treasury.get_processed_payout_ids().len(), 3);
    assert_eq!(final_balance, initial_balance + 3_000_000);
}

#[test]
fn recurring_schedule_runs_its_course() {
    let mut treasury = owned_treasury();
    let mut ledger = Ledger::with_balance(50_000_000);
    let first = treasury
        .add_recurring_payout(alice(), 0, bob(), 1_000_000, Some(100), 10, 3)
        .unwrap();

    let (ids, _) = process(&mut treasury, 100, &mut ledger).unwrap();
    assert_eq!(ids, vec![first]);
    let pending = treasury.get_pending_payouts();
    assert_eq!(pending.len(), 1);
    assert_eq!(pending[0].id, first + 1);
    assert_eq!(
        pending[0].kind,
        PayoutKind::Recurring { start_tick: Some(110), interval: 10, total_installments: 3 }
    );
    assert_eq!(pending[0].completed_count, 1);

    process(&mut treasury, 110, &mut ledger).unwrap();
    process(&mut treasury, 130, &mut ledger).unwrap();

    assert_eq!(treasury.get_pending_payouts().len(), 0);
    let archived = treasury.get_past_payouts();
    assert_eq!(archived.len(), 3);
    for p in &archived {
        assert!(matches!(p.status, PayoutStatus::Completed(_)));
    }
    assert_eq!(ledger.balance_of(bob()), 3_000_000);
}

#[test]
fn test_vested_payouts() {
    let mut treasury = owned_treasury();
    let mut ledger = Ledger::with_balance(50_000_000);
    let initial_balance = 150_000_000u128;
    ledger.set_balance(bob(), initial_balance);

    let vested_id = treasury
        .add_vested_payout(alice(), 0, bob(), 10_000_000, Some(100), 30, 10)
        .unwrap();

    assert_eq!(treasury.get_pending_payouts().len(), 1);
    assert_eq!(treasury.get_vested_payouts().len(), 1);
    assert_eq!(treasury.get_ready_payouts(0).len(), 0);

    assert_eq!(treasury.get_ready_payouts(100).len(), 1);
    let (processed_ids, total_amount) = process(&mut treasury, 100, &mut ledger).unwrap();
    assert_eq!(processed_ids.len(), 1);
    assert_eq!(processed_ids[0], vested_id);
    assert_eq!(total_amount, 3_333_333);
    assert_eq!(ledger.balance_of(bob()), 153_333_333);

    assert_eq!(treasury.get_pending_payouts().len(), 1);
    assert_eq!(treasury.get_ready_payouts(100).len(), 0);

    assert_eq!(treasury.get_ready_payouts(110).len(), 1);
    let (processed_ids, total_amount) = process(&mut treasury, 110, &mut ledger).unwrap();
    assert_eq!(processed_ids.len(), 1);
    assert_eq!(total_amount, 3_333_333);
    assert_eq!(ledger.balance_of(bob()), 156_666_666);

    assert_eq!(treasury.get_pending_payouts().len(), 1);

    assert_eq!(treasury.get_ready_payouts(120).len(), 1);
    let (processed_ids, total_amount) = process(&mut treasury, 120, &mut ledger).unwrap();
    assert_eq!(processed_ids.len(), 1);
    assert_eq!(total_amount, 3_333_334);
    let final_balance = ledger.balance_of(bob());
    assert_eq!(final_balance, 160_000_000);

    assert_eq!(treasury.get_pending_payouts().len(), 0);
    assert_eq!(treasury.get_vested_payouts().len(), 0);
    assert_eq!(treasury.get_processed_payout_ids().len(), 3);
    assert_eq!(ledger.treasury, 40_000_000);
    assert_eq!(final_balance, initial_balance + 10_000_000);
}

#[test]
fn test_mixed_payout_types() {
    let mut treasury = owned_treasury();
    let mut ledger = Ledger::with_balance(100_000_000);
    let recipient = alice();

    let onetime_id = treasury.add_payout(alice(), 0, recipient, 5_000_000, None).unwrap();
    let recurring_id = treasury
        .add_recurring_payout(alice(), 0, recipient, 2_000_000, Some(50), 20, 2)
        .unwrap();
    let _vested_id = treasury
        .add_vested_payout(alice(), 0, recipient, 6_000_000, Some(100), 40, 20)
        .unwrap();

    assert_eq!(treasury.get_pending_payouts().len(), 3);
    let onetime_count = treasury
        .get_pending_payouts()
        .iter()
        .filter(|p| matches!(p.kind, PayoutKind::OneTime { .. }))
        .count();
    assert_eq!(onetime_count, 1);
    assert_eq!(treasury.get_recurring_payouts().len(), 1);
    assert_eq!(treasury.get_vested_payouts().len(), 1);

    assert_eq!(treasury.get_ready_payouts(0).len(), 1);

    let (processed_ids, _) = process(&mut treasury, 0, &mut ledger).unwrap();
    assert_eq!(processed_ids.len(), 1);
    assert_eq!(processed_ids[0], onetime_id);

    assert_eq!(treasury.get_ready_payouts(50).len(), 1);
    let (processed_ids, _) = process(&mut treasury, 50, &mut ledger).unwrap();
    assert_eq!(processed_ids.len(), 1);
    assert_eq!(processed_ids[0], recurring_id);

    assert_eq!(treasury.get_ready_payouts(100).len(), 2);
    let (processed_ids, _) = process(&mut treasury, 100, &mut ledger).unwrap();
    assert_eq!(processed_ids.len(), 2);

    assert_eq!(treasury.get_processed_payout_ids().len(), 4);
}

#[test]
fn test_vested_remainder_handling() {
    let mut treasury = owned_treasury();
    let mut ledger = Ledger::with_balance(150_000_000);
    ledger.set_balance(charlie(), 200_000_000);

    treasury
        .add_vested_payout(alice(), 0, charlie(), 100_000_000, Some(10), 70, 10)
        .unwrap();

    for i in 1..=6u32 {
        let (processed_ids, total_amount) = process(&mut treasury, 10 * i, &mut ledger).unwrap();
        assert_eq!(processed_ids.len(), 1);
        assert_eq!(total_amount, 14_285_714);
        let expected_balance = 200_000_000 + (14_285_714 * i as u128);
        assert_eq!(ledger.balance_of(charlie()), expected_balance);
    }

    let (processed_ids, total_amount) = process(&mut treasury, 70, &mut ledger).unwrap();
    assert_eq!(processed_ids.len(), 1);
    assert_eq!(total_amount, 14_285_716);

    assert_eq!(ledger.balance_of(charlie()), 300_000_000);
    assert_eq!(treasury.get_pending_payouts().len(), 0);
    assert_eq!(treasury.get_vested_payouts().len(), 0);
    assert_eq!(ledger.treasury, 50_000_000);
}

#[test]
fn vested_installments_sum_to_total() {
    let mut treasury = owned_treasury();
    let mut ledger = Ledger::with_balance(1_000_000_000);
    treasury.add_vested_payout(alice(), 0, bob(), 100_000_000, None, 7, 1).unwrap();
    let mut paid = Vec::new();
    let mut tick = 0u32;
    while !treasury.get_pending_payouts().is_empty() {
        let (_, total) = process(&mut treasury, tick, &mut ledger).unwrap();
        if total > 0 {
            paid.push(total);
        }
        tick += 1;
    }
    assert_eq!(paid, vec![14_285_714, 14_285_714, 14_285_714, 14_285_714, 14_285_714, 14_285_714, 14_285_716]);
    assert_eq!(paid.iter().sum::<u128>(), 100_000_000);
    let last = treasury.get_past_payouts().pop().unwrap();
    assert_eq!(last.released_amount, 85_714_284);
    assert_eq!(last.completed_count, 6);
}

#[test]
fn test_add_payouts_complex_vesting() {
    let mut treasury = owned_treasury();
    let mut ledger = Ledger::with_balance(200_000_000);
    let recipient = alice();
    ledger.set_balance(recipient, 100_000_000);

    let total_allocation = 100_000_000u128;
    let immediate_percent = 15_000_000u128;
    let linear_percent = 85_000_000u128;
    let cliff_blocks = 90u32;
    let vesting_duration = 810u32;

    let payout_ids = treasury
        .add_payouts(
            alice(),
            0,
            vec![
                PayoutRequest {
                    to: recipient,
                    amount: immediate_percent,
                    kind: PayoutKind::OneTime { scheduled_tick: None },
                },
                PayoutRequest {
                    to: recipient,
                    amount: linear_percent,
                    kind: PayoutKind::Vested {
                        cliff_tick: Some(cliff_blocks),
                        vesting_duration,
                        vesting_interval: 30,
                    },
                },
            ],
        )
        .unwrap();

    assert_eq!(payout_ids.len(), 2);
    assert_eq!(treasury.get_pending_payouts().len(), 2);
    assert_eq!(treasury.get_ready_payouts(0).len(), 1);

    let (processed_ids, total_amount) = process(&mut treasury, 0, &mut ledger).unwrap();
    assert_eq!(processed_ids.len(), 1);
    assert_eq!(total_amount, immediate_percent);
    assert_eq!(ledger.balance_of(recipient), 100_000_000 + immediate_percent);

    assert_eq!(treasury.get_pending_payouts().len(), 1);
    assert_eq!(treasury.get_ready_payouts(0).len(), 0);

    assert_eq!(treasury.get_ready_payouts(cliff_blocks).len(), 1);
    let (processed_ids, total_amount) = process(&mut treasury, cliff_blocks, &mut ledger).unwrap();
    assert_eq!(processed_ids.len(), 1);
    let expected_monthly = linear_percent / 27;
    assert_eq!(total_amount, expected_monthly);

    let total_expected = immediate_percent + linear_percent;
    assert_eq!(total_expected, total_allocation);
}

#[test]
fn test_add_payouts_percentage_schedule() {
    let mut treasury = owned_treasury();
    let mut ledger = Ledger::with_balance(200_000_000);
    let recipient = bob();
    ledger.set_balance(recipient, 50_000_000);

    let total_amount = 100_000_000u128;
    let month_blocks = 30u32;
    let one_time = |amount: u128, at: u32| PayoutRequest {
        to: recipient,
        amount,
        kind: PayoutKind::OneTime { scheduled_tick: Some(at) },
    };

    let payout_ids = treasury
        .add_payouts(
            alice(),
            0,
            vec![
                one_time(50_000_000, month_blocks),
                one_time(30_000_000, 2 * month_blocks),
                one_time(20_000_000, 3 * month_blocks),
            ],
        )
        .unwrap();

    assert_eq!(payout_ids.len(), 3);
    assert_eq!(treasury.get_pending_payouts().len(), 3);
    assert_eq!(treasury.get_ready_payouts(0).len(), 0);

    assert_eq!(treasury.get_ready_payouts(month_blocks).len(), 1);
    let (_, amount) = process(&mut treasury, month_blocks, &mut ledger).unwrap();
    assert_eq!(amount, 50_000_000);

    assert_eq!(treasury.get_ready_payouts(2 * month_blocks).len(), 1);
    let (_, amount) = process(&mut treasury, 2 * month_blocks, &mut ledger).unwrap();
    assert_eq!(amount, 30_000_000);

    assert_eq!(treasury.get_ready_payouts(3 * month_blocks).len(), 1);
    let (_, amount) = process(&mut treasury, 3 * month_blocks, &mut ledger).unwrap();
    assert_eq!(amount, 20_000_000);

    assert_eq!(treasury.get_pending_payouts().len(), 0);
    assert_eq!(treasury.get_processed_payout_ids().len(), 3);
    assert_eq!(ledger.balance_of(recipient), 50_000_000 + total_amount);
}

#[test]
fn test_add_payouts_validation() {
    let mut treasury = owned_treasury();
    let recipient = charlie();

    let result = treasury.add_payouts(
        alice(),
        0,
        vec![
            PayoutRequest {
                to: recipient,
                amount: 10_000_000,
                kind: PayoutKind::OneTime { scheduled_tick: None },
            },
            PayoutRequest { to: recipient, amount: 100, kind: PayoutKind::OneTime { scheduled_tick: None } },
        ],
    );

    assert_eq!(result, Err(Error::PrecisionLoss));
    assert_eq!(treasury.get_pending_payouts().len(), 0);
}

#[test]
fn batch_with_empty_vesting_is_refused() {
    let mut treasury = owned_treasury();
    let result = treasury.add_payouts(
        alice(),
        0,
        vec![PayoutRequest {
            to: bob(),
            amount: 10_000_000,
            kind: PayoutKind::Vested { cliff_tick: None, vesting_duration: 5, vesting_interval: 10 },
        }],
    );
    assert_eq!(result, Err(Error::InvalidFrequency));
    assert_eq!(treasury.get_treasury_stats(), (0, 0, 0));
}

#[test]
fn test_comprehensive_payout_events() {
    let mut treasury = owned_treasury();
    let recipient = alice();

    treasury.add_payout(alice(), 0, recipient, 10_000_000, Some(100)).unwrap();
    treasury
        .add_recurring_payout(alice(), 0, recipient, 5_000_000, Some(50), 20, 3)
        .unwrap();
    treasury
        .add_vested_payout(alice(), 0, recipient, 15_000_000, Some(200), 60, 20)
        .unwrap();

    let onetime = treasury.get_payout(0).unwrap();
    assert_eq!(onetime.kind.payout_type(), treasury::PayoutType::OneTime);
    assert_eq!(onetime.amount, 10_000_000);
    assert_eq!(onetime.recipient, recipient);
    assert_eq!(onetime.kind, PayoutKind::OneTime { scheduled_tick: Some(100) });
    assert_eq!(onetime.status, PayoutStatus::Pending);

    let recurring = treasury.get_payout(1).unwrap();
    assert_eq!(recurring.kind.payout_type(), treasury::PayoutType::Recurring);
    assert_eq!(recurring.amount, 5_000_000);
    assert_eq!(recurring.recipient, recipient);
    assert_eq!(
        recurring.kind,
        PayoutKind::Recurring { start_tick: Some(50), interval: 20, total_installments: 3 }
    );
    assert_eq!(recurring.installment_count, 3);
    assert_eq!(recurring.completed_count, 0);
    assert_eq!(recurring.status, PayoutStatus::Pending);

    let vested = treasury.get_payout(2).unwrap();
    assert_eq!(vested.kind.payout_type(), treasury::PayoutType::Vested);
    assert_eq!(vested.amount, 15_000_000);
    assert_eq!(vested.recipient, recipient);
    assert_eq!(
        vested.kind,
        PayoutKind::Vested { cliff_tick: Some(200), vesting_duration: 60, vesting_interval: 20 }
    );
    assert_eq!(vested.installment_count, 3);
    assert_eq!(vested.completed_count, 0);
    assert_eq!(vested.released_amount, 0);
    assert_eq!(vested.status, PayoutStatus::Pending);
}

#[test]
fn archived_record_stays_final() {
    let mut treasury = owned_treasury();
    let mut ledger = Ledger::with_balance(10_000_000);
    let id = treasury.add_payout(alice(), 0, bob(), 1_000_000, None).unwrap();
    process(&mut treasury, 5, &mut ledger).unwrap();
    for tick in [5u32, 6, 100] {
        let (ids, total) = process(&mut treasury, tick, &mut ledger).unwrap();
        assert!(ids.is_empty());
        assert_eq!(total, 0);
        assert_eq!(treasury.get_payout(id).unwrap().status, PayoutStatus::Completed(5));
    }
    assert_eq!(treasury.get_processed_payout_ids(), vec![id]);
}

#[test]
fn unknown_id_is_not_found() {
    let mut treasury = owned_treasury();
    assert!(treasury.get_payout(7).is_none());
    assert_eq!(treasury.approve(alice(), 7), Err(Error::PayoutNotFound));
    assert_eq!(treasury.cancel_payout(alice(), 0, 7), Err(Error::PayoutNotFound));
}

#[test]
fn batch_lookup_and_block_range() {
    let mut treasury = owned_treasury();
    let mut ledger = Ledger::with_balance(10_000_000);
    treasury.add_payout(alice(), 3, bob(), 1_000_000, None).unwrap();
    treasury.add_payout(alice(), 8, bob(), 2_000_000, None).unwrap();
    process(&mut treasury, 10, &mut ledger).unwrap();
    treasury.add_payout(alice(), 12, bob(), 3_000_000, None).unwrap();

    let batch = treasury.get_payouts_batch(vec![2, 9, 0]);
    assert_eq!(batch.len(), 3);
    assert_eq!(batch[0].as_ref().unwrap().status, PayoutStatus::Pending);
    assert!(batch[1].is_none());
    assert_eq!(batch[2].as_ref().unwrap().status, PayoutStatus::Completed(10));

    let in_range = treasury.get_payouts_by_block_range(5, 10);
    assert_eq!(in_range.len(), 1);
    assert_eq!(in_range[0].id, 1);
    assert_eq!(treasury.get_completed_payouts().len(), 2);
    assert_eq!(treasury.get_past_payout_ids(), vec![0, 1]);
}
