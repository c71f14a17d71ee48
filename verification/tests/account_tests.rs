//! The account state machine: one test per transition rule and rejection
//! policy. Amounts are in ten-thousandths of a currency unit, so 10.0 units
//! are written 100_000.

use ledger::account::{Account, ClientId, TxId};

fn test_account(client: ClientId) -> Account {
    Account::new(client)
}

#[test]
fn test_deposit() {
    let mut account = test_account(ClientId(1));
    account.deposit(TxId(1), 100_000);
    assert_eq!(account.available, 100_000);
    assert_eq!(account.held, 0);
}

#[test]
fn test_withdrawal() {
    let mut account = test_account(ClientId(1));
    account.deposit(TxId(1), 100_000);
    account.withdrawal(40_000);
    assert_eq!(account.available, 60_000);
}

#[test]
fn test_withdrawal_insufficient() {
    let mut account = test_account(ClientId(1));
    account.deposit(TxId(1), 20_000);
    account.withdrawal(30_000);
    assert_eq!(account.available, 20_000);
}

#[test]
fn test_dispute_valid() {
    let mut account = test_account(ClientId(1));
    account.deposit(TxId(1), 100_000);
    account.dispute(TxId(1));
    assert_eq!(account.available, 0);
    assert_eq!(account.held, 100_000);
}

#[test]
fn test_resolve() {
    let mut account = test_account(ClientId(1));
    account.deposit(TxId(1), 100_000);
    account.dispute(TxId(1));
    account.resolve(TxId(1));
    assert_eq!(account.available, 100_000);
    assert_eq!(account.held, 0);
}

#[test]
fn test_chargeback() {
    let mut account = test_account(ClientId(1));
    account.deposit(TxId(1), 100_000);
    account.dispute(TxId(1));
    account.chargeback(TxId(1));
    assert_eq!(account.held, 0);
    assert!(account.locked);
}

#[test]
fn test_locked_account_blocks_deposit() {
    let mut account = test_account(ClientId(1));
    account.deposit(TxId(1), 100_000);
    account.dispute(TxId(1));
    account.chargeback(TxId(1));
    account.deposit(TxId(2), 100_000);
    assert_eq!(account.available, 0);
}

#[test]
fn test_dispute_nonexistent_tx() {
    let mut account = test_account(ClientId(1));
    account.dispute(TxId(99)); // No tx inserted
    assert_eq!(account.available, 0);
    assert_eq!(account.held, 0);
}

#[test]
fn test_dispute_on_withdrawal_should_be_ignored() {
    let mut account = test_account(ClientId(1));
    account.deposit(TxId(1), 100_000);
    account.withdrawal(50_000); // No tx id stored for withdrawal
    account.dispute(TxId(2)); // Attempt to dispute non-existent withdrawal
    assert_eq!(account.available, 50_000);
    assert_eq!(account.held, 0);
}

#[test]
fn test_dispute_tx_not_owned_by_client_is_ignored() {
    let mut acc1 = test_account(ClientId(1));
    let mut acc2 = test_account(ClientId(2));

    // Only acc1 has tx 100
    acc1.deposit(TxId(100), 150_000);

    // acc2 tries to dispute tx 100 (which it doesn't own)
    acc2.dispute(TxId(100));

    // Assert acc1 remains unchanged
    assert_eq!(acc1.available, 150_000);
    assert_eq!(acc1.held, 0);

    // Assert acc2 remains unchanged
    assert_eq!(acc2.available, 0);
    assert_eq!(acc2.held, 0);
}

#[test]
fn test_dispute_after_funds_already_withdrawn_should_fail() {
    let mut account = test_account(ClientId(1));
    account.deposit(TxId(1), 100_000);
    account.withdrawal(100_000);
    account.dispute(TxId(1)); // Should be ignored
    assert_eq!(account.available, 0);
    assert_eq!(account.held, 0);
}

#[test]
fn resolve_of_undisputed_tx_is_a_no_op() {
    let mut account = test_account(ClientId(1));
    account.deposit(TxId(1), 100_000);
    account.dispute(TxId(1));
    account.resolve(TxId(1));
    account.resolve(TxId(1)); // second resolve: nothing to clear
    assert_eq!(account.available, 100_000);
    assert_eq!(account.held, 0);
}

#[test]
fn chargeback_freezes_every_later_event() {
    let mut account = test_account(ClientId(1));
    account.deposit(TxId(1), 100_000);
    account.dispute(TxId(1));
    account.chargeback(TxId(1));
    account.deposit(TxId(2), 100_000);
    account.withdrawal(10_000);
    account.dispute(TxId(1));
    account.resolve(TxId(1));
    account.chargeback(TxId(1));
    assert_eq!(account.available, 0);
    assert_eq!(account.held, 0);
    assert!(account.locked);
}

#[test]
fn deposits_only_sum_up() {
    let mut account = test_account(ClientId(7));
    account.deposit(TxId(1), 25_000);
    account.deposit(TxId(2), 50_000);
    account.deposit(TxId(3), 125_000);
    assert_eq!(account.available, 200_000);
    assert_eq!(account.held, 0);
    assert!(!account.locked);
}
