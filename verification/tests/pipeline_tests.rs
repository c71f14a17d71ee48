//! The engine and the full text pipeline: parsing, replay, rendering, and
//! the error policy for malformed input.

use ledger::account::{ClientId, TxId};
use ledger::engine::{process_transactions, Ledger, Transaction, TxType};
use ledger::numeric::{parse_amount, parse_u32};
use ledger::parse::{parse_transactions, ParseError};

fn deposit(client: u32, tx: u32, amount: u64) -> Transaction {
    Transaction {
        tx_type: TxType::Deposit,
        client: ClientId(client),
        tx: TxId(tx),
        amount: Some(amount),
    }
}

fn dispute(client: u32, tx: u32) -> Transaction {
    Transaction { tx_type: TxType::Dispute, client: ClientId(client), tx: TxId(tx), amount: None }
}

#[test]
fn scenario_single_deposit() {
    let out = process_transactions(b"type,client,tx,amount\ndeposit,1,1,10.0\n").unwrap();
    assert_eq!(out.as_str(), "client,available,held,total,locked\n1,10,0,10,false\n");
}

#[test]
fn scenario_deposit_then_withdrawal() {
    let input = b"type,client,tx,amount\ndeposit,1,1,10.0\nwithdrawal,1,2,4.0\n";
    let out = process_transactions(input).unwrap();
    assert_eq!(out.as_str(), "client,available,held,total,locked\n1,6,0,6,false\n");
}

#[test]
fn scenario_dispute_after_spending_is_rejected() {
    let input = b"type,client,tx,amount\ndeposit,1,1,10.0\nwithdrawal,1,2,10.0\ndispute,1,1,\n";
    let out = process_transactions(input).unwrap();
    assert_eq!(out.as_str(), "client,available,held,total,locked\n1,0,0,0,false\n");
}

#[test]
fn scenario_chargeback_locks_account() {
    let input =
        b"type,client,tx,amount\ndeposit,1,1,10.0\ndispute,1,1,\nchargeback,1,1,\ndeposit,1,2,10.0\n";
    let out = process_transactions(input).unwrap();
    assert_eq!(out.as_str(), "client,available,held,total,locked\n1,0,0,0,true\n");
}

#[test]
fn dispute_resolve_round_trip_restores_balances() {
    let input = b"type,client,tx,amount\ndeposit,1,1,2.5\ndispute,1,1,\nresolve,1,1,\n";
    let out = process_transactions(input).unwrap();
    assert_eq!(out.as_str(), "client,available,held,total,locked\n1,2.5,0,2.5,false\n");
}

#[test]
fn cross_account_dispute_mutates_neither_account() {
    let mut ledger = Ledger::new();
    ledger.apply(&deposit(1, 100, 150_000));
    ledger.apply(&deposit(2, 7, 30_000));
    // Client 2 disputes a transaction only client 1 retained.
    ledger.apply(&dispute(2, 100));
    let one = ledger.get_account(ClientId(1)).unwrap();
    assert_eq!(one.available, 150_000);
    assert_eq!(one.held, 0);
    let two = ledger.get_account(ClientId(2)).unwrap();
    assert_eq!(two.available, 30_000);
    assert_eq!(two.held, 0);
    assert_eq!(ledger.client_order().as_slice(), &[1, 2]);
    assert!(ledger.get_account(ClientId(3)).is_none());
}

#[test]
fn accounts_are_reported_in_first_reference_order() {
    let input = b"type,client,tx,amount\ndeposit,5,1,1.0\ndeposit,2,2,2.0\ndeposit,5,3,1.0\n";
    let out = process_transactions(input).unwrap();
    assert_eq!(out.as_str(), "client,available,held,total,locked\n5,2,0,2,false\n2,2,0,2,false\n");
}

#[test]
fn header_is_trimmed_and_types_match_any_case() {
    let input = b" type , client , tx , amount \nDEPOSIT, 1 , 1 , 3.25 \n";
    let out = process_transactions(input).unwrap();
    assert_eq!(out.as_str(), "client,available,held,total,locked\n1,3.25,0,3.25,false\n");
}

#[test]
fn empty_input_produces_empty_output() {
    let out = process_transactions(b"").unwrap();
    assert_eq!(out.as_str(), "");
    let out2 = process_transactions(b"\n  \n").unwrap();
    assert_eq!(out2.as_str(), "");
}

#[test]
fn missing_amount_field_is_a_soft_no_op() {
    let input = b"type,client,tx,amount\ndeposit,1,1,\ndeposit,1,2,5.0\n";
    let out = process_transactions(input).unwrap();
    assert_eq!(out.as_str(), "client,available,held,total,locked\n1,5,0,5,false\n");
}

#[test]
fn missing_required_column_fails() {
    let r = process_transactions(b"type,client,amount\ndeposit,1,10.0\n");
    assert_eq!(r.unwrap_err(), ParseError::MissingColumn);
}

#[test]
fn wrong_field_count_fails() {
    let r = process_transactions(b"type,client,tx,amount\ndeposit,1,1\n");
    assert_eq!(r.unwrap_err(), ParseError::WrongFieldCount);
}

#[test]
fn unknown_transaction_type_fails() {
    let r = process_transactions(b"type,client,tx,amount\ntransfer,1,1,10.0\n");
    assert_eq!(r.unwrap_err(), ParseError::UnknownTransactionType);
}

#[test]
fn malformed_client_id_fails() {
    let r = process_transactions(b"type,client,tx,amount\ndeposit,abc,1,10.0\n");
    assert_eq!(r.unwrap_err(), ParseError::BadClientId);
}

#[test]
fn malformed_transaction_id_fails() {
    let r = process_transactions(b"type,client,tx,amount\ndeposit,1,99999999999,10.0\n");
    assert_eq!(r.unwrap_err(), ParseError::BadTransactionId);
}

#[test]
fn malformed_amount_fails() {
    let r = process_transactions(b"type,client,tx,amount\ndeposit,1,1,1.2.3\n");
    assert_eq!(r.unwrap_err(), ParseError::BadAmount);
    let r2 = process_transactions(b"type,client,tx,amount\ndeposit,1,1,-4\n");
    assert_eq!(r2.unwrap_err(), ParseError::BadAmount);
    let r3 = process_transactions(b"type,client,tx,amount\ndeposit,1,1,1.23456\n");
    assert_eq!(r3.unwrap_err(), ParseError::BadAmount);
}

#[test]
fn parse_transactions_reads_typed_events() {
    let ts = parse_transactions(b"type,client,tx,amount\ndeposit,3,9,0.0001\nresolve,3,9,\n")
        .unwrap();
    assert_eq!(ts.len(), 2);
    assert!(matches!(ts[0].tx_type, TxType::Deposit));
    assert_eq!(ts[0].client, ClientId(3));
    assert_eq!(ts[0].tx, TxId(9));
    assert_eq!(ts[0].amount, Some(1));
    assert!(matches!(ts[1].tx_type, TxType::Resolve));
    assert_eq!(ts[1].amount, None);
}

#[test]
fn amount_grammar_is_exact() {
    assert_eq!(parse_amount(b"10.0"), Some(100_000));
    assert_eq!(parse_amount(b"0.5"), Some(5_000));
    assert_eq!(parse_amount(b".5"), Some(5_000));
    assert_eq!(parse_amount(b"7."), Some(70_000));
    assert_eq!(parse_amount(b"1.2345"), Some(12_345));
    assert_eq!(parse_amount(b"0"), Some(0));
    assert_eq!(parse_amount(b""), None);
    assert_eq!(parse_amount(b"."), None);
    assert_eq!(parse_amount(b"1.23456"), None);
    assert_eq!(parse_amount(b"-1"), None);
    assert_eq!(parse_amount(b"1e3"), None);
}

#[test]
fn id_grammar_is_exact() {
    assert_eq!(parse_u32(b"0"), Some(0));
    assert_eq!(parse_u32(b"4294967295"), Some(u32::MAX));
    assert_eq!(parse_u32(b"4294967296"), None);
    assert_eq!(parse_u32(b""), None);
    assert_eq!(parse_u32(b"12a"), None);
}
