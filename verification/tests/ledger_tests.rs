use immutable_ledger::ledger::{Ledger, PostingResult, Rejection};
use immutable_ledger::merkle::BalanceTree;
use immutable_ledger::types::{AccountId, Entry, MicroDollar};
use std::collections::HashMap;

fn acct(s: &str) -> AccountId {
    AccountId::new(s).unwrap()
}

/// Prepares and commits a posting, as the storage layer does around its
/// write; returns the result and the entry stored with its hash.
fn post(
    ledger: &mut Ledger,
    debit: &str,
    credit: &str,
    amount: i64,
) -> (PostingResult, Option<(Entry, [u8; 32])>) {
    match ledger.prepare_entry(acct(debit), acct(credit), MicroDollar(amount), vec![], 17) {
        Err(r) => (PostingResult::Rejected { reason: r.reason() }, None),
        Ok(p) => {
            assert!(ledger.is_current(&p));
            let link = (p.entry().clone(), p.entry_hash());
            (ledger.commit_entry(&p), Some(link))
        }
    }
}

fn balance(ledger: &Ledger, account: &str) -> Option<i64> {
    ledger.prove_balance(&acct(account)).map(|p| p.balance)
}

#[test]
fn first_posting_is_applied() {
    let mut ledger = Ledger::new();
    let (result, link) = post(&mut ledger, "ASSET-CASH", "LIAB-CUSTOMER-001", 1_000_000_000);
    match result {
        PostingResult::Applied { entry_id, new_state_root } => {
            assert_eq!(entry_id, 0);
            let proof = ledger.prove_balance(&acct("ASSET-CASH")).unwrap();
            assert_eq!(proof.root_hash, new_state_root);
        }
        PostingResult::Rejected { reason } => panic!("rejected: {}", reason),
    }
    assert_eq!(link.unwrap().0.parent_hash, [0u8; 32]);
    assert_eq!(balance(&ledger, "ASSET-CASH"), Some(1_000_000_000));
    assert_eq!(balance(&ledger, "LIAB-CUSTOMER-001"), Some(-1_000_000_000));
    assert_eq!(balance(&ledger, "OTHER-ACCT"), None);
}

#[test]
fn prepared_entry_carries_the_posting() {
    let ledger = Ledger::new();
    let p = ledger
        .prepare_entry(acct("ASSET-CASH"), acct("LIAB-DEPOSIT"), MicroDollar(5), vec![1, 2], 99)
        .unwrap();
    let e = p.entry();
    assert_eq!(e.entry_id, 0);
    assert_eq!(e.debit_account, acct("ASSET-CASH"));
    assert_eq!(e.credit_account, acct("LIAB-DEPOSIT"));
    assert_eq!(e.amount, MicroDollar(5));
    assert_eq!(e.timestamp, 99);
    assert_eq!(e.metadata, vec![1, 2]);
    assert_eq!(e.parent_hash, [0u8; 32]);
    assert_eq!(p.entry_hash(), e.hash());
    assert_eq!(p.new_debit_balance(), MicroDollar(5));
    assert_eq!(p.new_credit_balance(), MicroDollar(-5));
}

#[test]
fn non_positive_amounts_are_rejected() {
    let ledger = Ledger::new();
    let r = ledger.prepare_entry(acct("AAAAA"), acct("BBBBB"), MicroDollar(0), vec![], 0);
    assert_eq!(r.err(), Some(Rejection::NonPositiveAmount { amount: MicroDollar(0) }));
    let r = ledger.prepare_entry(acct("AAAAA"), acct("BBBBB"), MicroDollar(-5), vec![], 0);
    let rej = r.err().unwrap();
    assert_eq!(rej, Rejection::NonPositiveAmount { amount: MicroDollar(-5) });
    assert_eq!(rej.reason(), "Amount must be positive, got MicroDollar(-5)");
    assert_eq!(
        Rejection::NonPositiveAmount { amount: MicroDollar(0) }.reason(),
        "Amount must be positive, got MicroDollar(0)"
    );
}

#[test]
fn same_account_is_rejected() {
    let ledger = Ledger::new();
    let r = ledger.prepare_entry(acct("aaaaa"), acct("AAAAA"), MicroDollar(5), vec![], 0);
    let rej = r.err().unwrap();
    assert_eq!(rej, Rejection::SameAccount);
    assert_eq!(rej.reason(), "Debit and credit accounts must differ");
}

#[test]
fn overflowing_balances_are_rejected() {
    let mut ledger = Ledger::new();
    let (r, _) = post(&mut ledger, "DEBIT", "CREDIT", i64::MAX);
    assert!(matches!(r, PostingResult::Applied { entry_id: 0, .. }));
    // CREDIT holds -MAX; taking 2 more leaves the range.
    let rej = ledger
        .prepare_entry(acct("OTHER"), acct("CREDIT"), MicroDollar(2), vec![], 0)
        .err()
        .unwrap();
    assert_eq!(rej, Rejection::CreditOverflow { balance: -i64::MAX, amount: 2 });
    assert_eq!(rej.reason(), "Overflow in credit balance: -9223372036854775807 - 2 micros");
    // DEBIT holds MAX; adding 1 leaves the range.
    let rej = ledger
        .prepare_entry(acct("DEBIT"), acct("OTHER"), MicroDollar(1), vec![], 0)
        .err()
        .unwrap();
    assert_eq!(rej, Rejection::DebitOverflow { balance: i64::MAX, amount: 1 });
    assert_eq!(rej.reason(), "Overflow in debit balance: 9223372036854775807 + 1 micros");
    // A rejected posting changes nothing.
    assert_eq!(balance(&ledger, "DEBIT"), Some(i64::MAX));
    assert_eq!(balance(&ledger, "OTHER"), None);
    let (r, _) = post(&mut ledger, "OTHER", "DEBIT", 1);
    assert!(matches!(r, PostingResult::Applied { entry_id: 1, .. }));
}

#[test]
fn stale_prepared_entry_is_not_current() {
    let mut ledger = Ledger::new();
    let p1 = ledger.prepare_entry(acct("AAAAA"), acct("BBBBB"), MicroDollar(1), vec![], 0).unwrap();
    let p2 = ledger.prepare_entry(acct("AAAAA"), acct("CCCCC"), MicroDollar(1), vec![], 0).unwrap();
    assert!(ledger.is_current(&p1));
    ledger.commit_entry(&p1);
    assert!(!ledger.is_current(&p2));
}

#[test]
fn total_debits_equal_total_credits() {
    let transactions = [
        ("ACCT-ALPHA", "ACCT-BRAVO", 1_000_000i64),
        ("ACCT-BRAVO", "ACCT-CHARLIE", 250_000),
        ("ACCT-CHARLIE", "ACCT-ALPHA", 999_999_999_999),
        ("ACCT-DELTA", "ACCT-ALPHA", 1),
        ("ACCT-ALPHA", "ACCT-ALPHA", 5),
        ("ACCT-ECHO", "ACCT-DELTA", 77_777),
    ];
    let mut ledger = Ledger::new();
    let mut net_by_account: HashMap<String, (i64, i64)> = HashMap::new();
    for (debit, credit, amount) in transactions {
        if debit == credit {
            continue;
        }
        let (r, _) = post(&mut ledger, debit, credit, amount);
        assert!(matches!(r, PostingResult::Applied { .. }));
        net_by_account.entry(debit.to_string()).or_insert((0, 0)).0 += amount;
        net_by_account.entry(credit.to_string()).or_insert((0, 0)).1 += amount;
    }
    let mut system_total = 0i64;
    for (account, (debits, credits)) in &net_by_account {
        let proof = ledger.prove_balance(&acct(account)).unwrap();
        assert_eq!(proof.balance, debits - credits, "Account {} balance mismatch", account);
        system_total += proof.balance;
    }
    assert_eq!(system_total, 0, "System-wide balance must be zero");
}

#[test]
fn chain_integrity_preserved() {
    let mut ledger = Ledger::new();
    let mut links = Vec::new();
    let pairs = [("AAAAA", "BBBBB"), ("BBBBB", "CCCCC"), ("CCCCC", "AAAAA"), ("AAAAA", "DDDDD")];
    for (i, (d, c)) in pairs.iter().enumerate() {
        let (r, link) = post(&mut ledger, d, c, 10 + i as i64);
        assert!(matches!(r, PostingResult::Applied { entry_id, .. } if entry_id == i as u64));
        links.push(link.unwrap());
    }
    assert!(Ledger::verify_chain_integrity(&links));
    for i in 1..links.len() {
        assert_eq!(links[i].0.parent_hash, links[i - 1].1);
    }
}

fn stored_chain() -> Vec<(Entry, [u8; 32])> {
    let mut ledger = Ledger::new();
    let mut stored = Vec::new();
    for (d, c, m) in [("AAAAA", "BBBBB", 5i64), ("BBBBB", "CCCCC", 7), ("CCCCC", "AAAAA", 9)] {
        let (_, row) = post(&mut ledger, d, c, m);
        stored.push(row.unwrap());
    }
    stored
}

#[test]
fn tampered_chain_is_detected() {
    assert!(Ledger::verify_chain_integrity(&vec![]));
    let stored = stored_chain();
    assert!(Ledger::verify_chain_integrity(&stored));

    let mut edited_amount = stored.clone();
    edited_amount[1].0.amount = MicroDollar(700);
    assert!(!Ledger::verify_chain_integrity(&edited_amount));

    let mut edited_account = stored.clone();
    edited_account[0].0.credit_account = acct("ZZZZZ");
    assert!(!Ledger::verify_chain_integrity(&edited_account));

    let mut edited_metadata = stored.clone();
    edited_metadata[2].0.metadata = vec![1];
    assert!(!Ledger::verify_chain_integrity(&edited_metadata));

    let mut broken_link = stored.clone();
    broken_link[2].0.parent_hash = [5u8; 32];
    assert!(!Ledger::verify_chain_integrity(&broken_link));

    let mut dropped = stored.clone();
    dropped.remove(1);
    assert!(!Ledger::verify_chain_integrity(&dropped));

    let mut rehashed = stored.clone();
    rehashed[1].0.amount = MicroDollar(700);
    rehashed[1].1 = rehashed[1].0.hash();
    assert!(!Ledger::verify_chain_integrity(&rehashed));
}

#[test]
fn load_state_restores_balances_root_and_head() {
    let mut ledger = Ledger::new();
    let rows = vec![
        (acct("ASSET-CASH"), MicroDollar(500)),
        (acct("LIAB-DEPOSIT"), MicroDollar(-500)),
    ];
    ledger.load_state(&rows, Some(([4u8; 32], 12)));
    let proof = ledger.prove_balance(&acct("ASSET-CASH")).unwrap();
    assert_eq!(proof.balance, 500);
    let mut tree = BalanceTree::new();
    tree.update("ASSET-CASH", 500);
    tree.update("LIAB-DEPOSIT", -500);
    assert_eq!(proof.root_hash, tree.compute_root());
    let p = ledger
        .prepare_entry(acct("ASSET-CASH"), acct("LIAB-DEPOSIT"), MicroDollar(1), vec![], 0)
        .unwrap();
    assert_eq!(p.entry().entry_id, 12);
    assert_eq!(p.entry().parent_hash, [4u8; 32]);
    assert_eq!(p.new_debit_balance(), MicroDollar(501));
    assert_eq!(p.new_credit_balance(), MicroDollar(-501));
}

#[test]
fn load_state_of_empty_store_keeps_a_fresh_ledger() {
    let mut ledger = Ledger::new();
    ledger.load_state(&vec![], None);
    let p = ledger.prepare_entry(acct("AAAAA"), acct("BBBBB"), MicroDollar(1), vec![], 0).unwrap();
    assert_eq!(p.entry().entry_id, 0);
    assert_eq!(p.entry().parent_hash, [0u8; 32]);
    assert!(ledger.prove_balance(&acct("AAAAA")).is_none());
}

#[test]
fn single_account_proof_after_load_verifies() {
    let mut ledger = Ledger::new();
    ledger.load_state(&vec![(acct("ASSET-CASH"), MicroDollar(0))], None);
    let proof = ledger.prove_balance(&acct("ASSET-CASH")).unwrap();
    assert!(BalanceTree::verify_proof(&proof));
}

#[test]
fn in_memory_post_entry_applies_and_rejects() {
    let mut ledger = Ledger::new();
    let r = ledger.post_entry(acct("ASSET-CASH"), acct("LIAB-DEPOSIT"), MicroDollar(250), vec![], 5);
    assert!(matches!(r, PostingResult::Applied { entry_id: 0, .. }));
    let r = ledger.post_entry(acct("ASSET-CASH"), acct("ASSET-CASH"), MicroDollar(1), vec![], 6);
    match r {
        PostingResult::Rejected { reason } => {
            assert_eq!(reason, "Debit and credit accounts must differ")
        }
        PostingResult::Applied { .. } => panic!("posting to one account was applied"),
    }
    let r = ledger.post_entry(acct("LIAB-DEPOSIT"), acct("ASSET-CASH"), MicroDollar(50), vec![7], 7);
    let root = match r {
        PostingResult::Applied { entry_id, new_state_root } => {
            assert_eq!(entry_id, 1);
            new_state_root
        }
        PostingResult::Rejected { reason } => panic!("rejected: {}", reason),
    };
    assert_eq!(balance(&ledger, "ASSET-CASH"), Some(200));
    assert_eq!(balance(&ledger, "LIAB-DEPOSIT"), Some(-200));
    let mut tree = BalanceTree::new();
    tree.update("ASSET-CASH", 200);
    tree.update("LIAB-DEPOSIT", -200);
    assert_eq!(root, tree.compute_root());
    let next = ledger.prepare_entry(acct("AAAAA"), acct("BBBBB"), MicroDollar(1), vec![], 0).unwrap();
    assert_eq!(next.entry().entry_id, 2);
}

#[test]
fn every_balance_proof_verifies_after_postings() {
    let mut ledger = Ledger::new();
    for (d, c, m) in [("ACCT-A", "ACCT-B", 3i64), ("ACCT-C", "ACCT-A", 4), ("ACCT-D", "ACCT-E", 5)] {
        let (r, _) = post(&mut ledger, d, c, m);
        assert!(matches!(r, PostingResult::Applied { .. }));
    }
    for a in ["ACCT-A", "ACCT-B", "ACCT-C", "ACCT-D", "ACCT-E"] {
        let proof = ledger.prove_balance(&acct(a)).unwrap();
        assert!(BalanceTree::verify_proof(&proof), "proof for {} fails", a);
    }
}

#[test]
fn reloading_stored_balances_rebuilds_the_same_root() {
    let mut ledger = Ledger::new();
    let mut last_root = [0u8; 32];
    for (d, c, m) in [("ZULU-1", "ALPHA", 3i64), ("MIKE-7", "ZULU-1", 4), ("ALPHA", "MIKE-7", 1)] {
        if let (PostingResult::Applied { new_state_root, .. }, _) = post(&mut ledger, d, c, m) {
            last_root = new_state_root;
        }
    }
    // Rows as a store might return them, in another order.
    let rows = vec![
        (acct("MIKE-7"), MicroDollar(3)),
        (acct("ALPHA"), MicroDollar(-2)),
        (acct("ZULU-1"), MicroDollar(-1)),
    ];
    let mut reloaded = Ledger::new();
    reloaded.load_state(&rows, Some(([1u8; 32], 3)));
    let proof = reloaded.prove_balance(&acct("ALPHA")).unwrap();
    assert_eq!(proof.root_hash, last_root);
    for a in ["ALPHA", "MIKE-7", "ZULU-1"] {
        assert_eq!(balance(&reloaded, a), balance(&ledger, a));
    }
}
