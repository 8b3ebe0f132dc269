use immutable_ledger::types::{AccountId, AccountIdError, Entry, MicroDollar};
use sha2::{Digest, Sha256};

#[test]
fn from_dollars_cents_scales_dollars() {
    assert_eq!(MicroDollar::from_dollars_cents(100, 0), MicroDollar(1_000_000_000));
    assert_eq!(MicroDollar::from_dollars_cents(1, 25), MicroDollar(10_000_025));
    assert_eq!(MicroDollar::from_dollars_cents(-2, 3), MicroDollar(-19_999_997));
    assert_eq!(MicroDollar::zero(), MicroDollar(0));
}

#[test]
fn checked_add_and_sub() {
    assert_eq!(MicroDollar(5).checked_add(MicroDollar(7)), Some(MicroDollar(12)));
    assert_eq!(MicroDollar(i64::MAX).checked_add(MicroDollar(1)), None);
    assert_eq!(MicroDollar(i64::MIN).checked_add(MicroDollar(-1)), None);
    assert_eq!(MicroDollar(5).checked_sub(MicroDollar(7)), Some(MicroDollar(-2)));
    assert_eq!(MicroDollar(i64::MIN).checked_sub(MicroDollar(1)), None);
    assert_eq!(MicroDollar(i64::MAX).checked_sub(MicroDollar(-1)), None);
}

#[test]
fn checked_sub_undoes_checked_add() {
    for (a, b) in [(0i64, 0i64), (5, 7), (-100, 3), (i64::MAX - 10, 10), (i64::MIN, 42)] {
        let sum = MicroDollar(a).checked_add(MicroDollar(b)).unwrap();
        assert_eq!(sum.checked_sub(MicroDollar(b)), Some(MicroDollar(a)));
    }
}

#[test]
fn account_id_is_upper_cased() {
    let id = AccountId::new("asset-cash").unwrap();
    assert_eq!(id.as_str(), "ASSET-CASH");
    assert_eq!(id, AccountId::new("ASSET-cash").unwrap());
    assert_ne!(id, AccountId::new("ASSET-CASH2").unwrap());
    assert_eq!(id.as_bytes(), b"ASSET-CASH");
    assert_eq!(id.clone(), id);
}

#[test]
fn account_id_length_bounds() {
    assert_eq!(AccountId::new("ABCD"), Err(AccountIdError::InvalidLength { len: 4 }));
    assert!(AccountId::new("ABCDE").is_ok());
    let longest = "A".repeat(34);
    assert!(AccountId::new(&longest).is_ok());
    let too_long = "A".repeat(35);
    assert_eq!(AccountId::new(&too_long), Err(AccountIdError::InvalidLength { len: 35 }));
    assert_eq!(AccountId::new(""), Err(AccountIdError::InvalidLength { len: 0 }));
    // Length is counted in UTF-8 bytes: four two-byte characters make eight.
    assert_eq!(AccountId::new("ÄÖÜß").map(|a| a.as_str().to_string()), Ok("ÄÖÜSS".to_string()));
    assert_eq!(AccountId::new("ÄÖ"), Err(AccountIdError::InvalidLength { len: 4 }));
}

#[test]
fn account_id_rejects_other_characters() {
    assert_eq!(AccountId::new("ASSET CASH"), Err(AccountIdError::InvalidCharacters));
    assert_eq!(AccountId::new("ASSET_CASH"), Err(AccountIdError::InvalidCharacters));
    assert_eq!(AccountId::new("ABC$DE"), Err(AccountIdError::InvalidCharacters));
    // The length check comes first.
    assert_eq!(AccountId::new("A$"), Err(AccountIdError::InvalidLength { len: 2 }));
    assert!(AccountId::new("LIAB-CUSTOMER-001").is_ok());
}

#[test]
fn account_id_error_messages() {
    assert_eq!(
        AccountIdError::InvalidLength { len: 4 }.message(),
        "AccountId must be 5-34 characters, got 4"
    );
    assert_eq!(
        AccountIdError::InvalidLength { len: 120 }.message(),
        "AccountId must be 5-34 characters, got 120"
    );
    assert_eq!(AccountIdError::InvalidCharacters.message(), "AccountId contains invalid characters");
}

#[test]
fn entry_hash_covers_every_field_in_order() {
    let entry = Entry {
        entry_id: 7,
        debit_account: AccountId::new("ASSET-CASH").unwrap(),
        credit_account: AccountId::new("LIAB-DEPOSIT").unwrap(),
        amount: MicroDollar(1_000_000_000),
        timestamp: 1_700_000_000_000_000_000,
        metadata: vec![1, 2, 3],
        parent_hash: [9u8; 32],
    };
    let mut hasher = Sha256::new();
    hasher.update(7u64.to_le_bytes());
    hasher.update(10u64.to_le_bytes());
    hasher.update(b"ASSET-CASH");
    hasher.update(12u64.to_le_bytes());
    hasher.update(b"LIAB-DEPOSIT");
    hasher.update(1_000_000_000i64.to_le_bytes());
    hasher.update(1_700_000_000_000_000_000i64.to_le_bytes());
    hasher.update([1u8, 2, 3]);
    hasher.update([9u8; 32]);
    let expected: [u8; 32] = hasher.finalize().into();
    assert_eq!(entry.hash(), expected);

    let mut changed = entry.clone();
    changed.metadata = vec![1, 2, 4];
    assert_ne!(changed.hash(), expected);
}

#[test]
fn entry_hash_of_empty_fields_is_sha256_of_the_fixed_bytes() {
    let entry = Entry {
        entry_id: 0,
        debit_account: AccountId::new("AAAAA").unwrap(),
        credit_account: AccountId::new("BBBBB").unwrap(),
        amount: MicroDollar(-1),
        timestamp: 0,
        metadata: vec![],
        parent_hash: [0u8; 32],
    };
    let mut bytes = Vec::new();
    bytes.extend_from_slice(&[0u8; 8]);
    bytes.extend_from_slice(&5u64.to_le_bytes());
    bytes.extend_from_slice(b"AAAAA");
    bytes.extend_from_slice(&5u64.to_le_bytes());
    bytes.extend_from_slice(b"BBBBB");
    bytes.extend_from_slice(&[0xffu8; 8]);
    bytes.extend_from_slice(&[0u8; 8]);
    bytes.extend_from_slice(&[0u8; 32]);
    let expected: [u8; 32] = Sha256::digest(&bytes).into();
    assert_eq!(entry.hash(), expected);
}

#[test]
fn entry_hash_keeps_account_identifiers_apart() {
    let e1 = Entry {
        entry_id: 0,
        debit_account: AccountId::new("ABCDE").unwrap(),
        credit_account: AccountId::new("FGHIJK").unwrap(),
        amount: MicroDollar(1),
        timestamp: 0,
        metadata: vec![],
        parent_hash: [0u8; 32],
    };
    let e2 = Entry {
        debit_account: AccountId::new("ABCDEF").unwrap(),
        credit_account: AccountId::new("GHIJK").unwrap(),
        ..e1.clone()
    };
    assert_ne!(e1.hash(), e2.hash());
}
