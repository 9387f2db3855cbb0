use sha2::Digest;
use sheth_client::account::{Account, Address};
use sheth_client::command::{AccountsCmd, BalanceCmd, TransferCmd};
use sheth_client::error::Error;
use sheth_client::multiproof::{Multiproof, Witness};
use sheth_client::process::{apply_transfer, process_transactions, Transaction, Transfer};

fn addr(n: u8) -> Address {
    let mut bytes = [0u8; 32];
    bytes[31] = n;
    Address::from_bytes(bytes)
}

fn acct(balance: u64, nonce: u64) -> Account {
    Account { balance, nonce }
}

fn bit(a: &Address, depth: usize) -> bool {
    (a.bytes[depth / 8] >> (7 - depth % 8)) & 1 == 1
}

fn witness(entries: &[(Address, Account)], depth: usize) -> Witness {
    if entries.is_empty() {
        return Witness::Hash(vec![depth as u8; 32]);
    }
    if depth == 256 {
        return Witness::Leaf(entries[0].1);
    }
    let left: Vec<(Address, Account)> = entries.iter().copied().filter(|e| !bit(&e.0, depth)).collect();
    let right: Vec<(Address, Account)> = entries.iter().copied().filter(|e| bit(&e.0, depth)).collect();
    Witness::Branch(Box::new(witness(&left, depth + 1)), Box::new(witness(&right, depth + 1)))
}

fn sha(b: &[u8]) -> Vec<u8> {
    sha2::Sha256::digest(b).to_vec()
}

fn expected_root(w: &Witness) -> Vec<u8> {
    match w {
        Witness::Hash(h) => h.clone(),
        Witness::Leaf(a) => {
            let mut b = a.balance.to_le_bytes().to_vec();
            b.extend_from_slice(&a.nonce.to_le_bytes());
            sha(&b)
        }
        Witness::Branch(l, r) => {
            let mut b = expected_root(l);
            b.extend_from_slice(&expected_root(r));
            sha(&b)
        }
    }
}

fn proof_of(entries: &[(Address, Account)]) -> Multiproof {
    let root = expected_root(&witness(entries, 0));
    match Multiproof::new(witness(entries, 0), &root) {
        Ok(m) => m,
        Err(e) => panic!("witness refused: {:?}", e),
    }
}

fn transfer(from: Address, to: Address, nonce: u64, amount: u64) -> Transfer {
    Transfer { from, to, nonce, amount, signature: [0u8; 96] }
}

#[test]
fn transfer_then_stale_nonce() {
    let a = addr(1);
    let b = addr(2);
    let mut m = proof_of(&[(a, acct(100, 5)), (b, acct(10, 0))]);
    assert_eq!(apply_transfer(&mut m, &transfer(a, b, 5, 30)), Ok(()));
    assert_eq!(m.balance(&a), Ok(70));
    assert_eq!(m.nonce(&a), Ok(6));
    assert_eq!(m.balance(&b), Ok(40));
    assert_eq!(m.nonce(&b), Ok(0));
    assert_eq!(
        apply_transfer(&mut m, &transfer(a, b, 5, 30)),
        Err(Error::InvalidNonce { expected: 6, got: 5 })
    );
    assert_eq!(m.balance(&a), Ok(70));
    assert_eq!(m.balance(&b), Ok(40));
}

#[test]
fn insufficient_balance_leaves_state() {
    let a = addr(1);
    let b = addr(2);
    let mut m = proof_of(&[(a, acct(10, 0)), (b, acct(0, 0))]);
    let root = m.root();
    assert_eq!(
        apply_transfer(&mut m, &transfer(a, b, 0, 50)),
        Err(Error::InsufficientBalance { have: 10, need: 50 })
    );
    assert_eq!(m.balance(&a), Ok(10));
    assert_eq!(m.nonce(&a), Ok(0));
    assert_eq!(m.balance(&b), Ok(0));
    assert_eq!(m.root(), root);
}

#[test]
fn future_nonce_rejected() {
    let a = addr(1);
    let b = addr(2);
    let mut m = proof_of(&[(a, acct(100, 5)), (b, acct(10, 0))]);
    let root = m.root();
    assert_eq!(
        apply_transfer(&mut m, &transfer(a, b, 7, 1)),
        Err(Error::InvalidNonce { expected: 5, got: 7 })
    );
    assert_eq!(m.root(), root);
}

#[test]
fn unknown_address_reads_fail() {
    let a = addr(1);
    let c = addr(3);
    let m = proof_of(&[(a, acct(5, 1))]);
    assert_eq!(m.balance(&c), Err(Error::UnknownAddress(c)));
    assert_eq!(m.nonce(&c), Err(Error::UnknownAddress(c)));
    assert_eq!(m.get_record(&c), Err(Error::UnknownAddress(c)));
    assert_eq!(m.get_record(&a), Ok(acct(5, 1)));
}

#[test]
fn unknown_sender_or_receiver_fails() {
    let a = addr(1);
    let c = addr(3);
    let mut m = proof_of(&[(a, acct(50, 0))]);
    let root = m.root();
    assert_eq!(apply_transfer(&mut m, &transfer(c, a, 0, 1)), Err(Error::UnknownAddress(c)));
    assert_eq!(apply_transfer(&mut m, &transfer(a, c, 0, 1)), Err(Error::UnknownAddress(c)));
    assert_eq!(m.balance(&a), Ok(50));
    assert_eq!(m.nonce(&a), Ok(0));
    assert_eq!(m.root(), root);
}

#[test]
fn set_record_on_unknown_leaf_fails() {
    let a = addr(1);
    let c = addr(200);
    let mut m = proof_of(&[(a, acct(1, 1))]);
    let root = m.root();
    assert_eq!(m.set_record(&c, acct(9, 9)), Err(Error::UnknownAddress(c)));
    assert_eq!(m.root(), root);
}

#[test]
fn root_tracks_writes() {
    let a = addr(1);
    let b = addr(130);
    let mut m = proof_of(&[(a, acct(100, 5)), (b, acct(10, 0))]);
    assert_eq!(m.set_record(&a, acct(1, 2)), Ok(()));
    assert_eq!(m.set_record(&b, acct(3, 4)), Ok(()));
    let fresh = expected_root(&witness(&[(a, acct(1, 2)), (b, acct(3, 4))], 0));
    assert_eq!(m.root(), fresh);
    assert_eq!(m.root().len(), 32);
}

#[test]
fn root_changes_after_transfer() {
    let a = addr(1);
    let b = addr(2);
    let mut m = proof_of(&[(a, acct(100, 5)), (b, acct(10, 0))]);
    let before = m.root();
    assert_eq!(apply_transfer(&mut m, &transfer(a, b, 5, 30)), Ok(()));
    assert_ne!(m.root(), before);
    let fresh = expected_root(&witness(&[(a, acct(70, 6)), (b, acct(40, 0))], 0));
    assert_eq!(m.root(), fresh);
}

#[test]
fn new_rejects_wrong_root() {
    let a = addr(1);
    let w = witness(&[(a, acct(1, 0))], 0);
    let mut root = expected_root(&w);
    root[0] ^= 1;
    assert!(matches!(Multiproof::new(w, &root), Err(Error::RootMismatch)));
}

#[test]
fn new_rejects_misplaced_leaf() {
    let w = Witness::Branch(Box::new(Witness::Leaf(acct(1, 0))), Box::new(Witness::Hash(vec![0u8; 32])));
    let root = expected_root(&w);
    assert!(matches!(Multiproof::new(w, &root), Err(Error::MalformedProof)));
}

#[test]
fn new_accepts_bare_hash() {
    let root = vec![7u8; 32];
    let m = match Multiproof::new(Witness::Hash(root.clone()), &root) {
        Ok(m) => m,
        Err(e) => panic!("refused: {:?}", e),
    };
    assert_eq!(m.root(), root);
    assert_eq!(m.balance(&addr(1)), Err(Error::UnknownAddress(addr(1))));
}

#[test]
fn batch_halts_at_first_failure() {
    let a = addr(1);
    let b = addr(2);
    let mut m = proof_of(&[(a, acct(100, 0)), (b, acct(0, 0))]);
    let txs = vec![
        Transaction::Transfer(transfer(a, b, 0, 10)),
        Transaction::Transfer(transfer(a, b, 1, 500)),
        Transaction::Transfer(transfer(a, b, 1, 10)),
    ];
    assert_eq!(
        process_transactions(&mut m, &txs),
        Err(Error::InsufficientBalance { have: 90, need: 500 })
    );
    assert_eq!(m.balance(&a), Ok(90));
    assert_eq!(m.nonce(&a), Ok(1));
    assert_eq!(m.balance(&b), Ok(10));
}

#[test]
fn batch_applies_in_order() {
    let a = addr(1);
    let b = addr(2);
    let mut m = proof_of(&[(a, acct(100, 0)), (b, acct(0, 0))]);
    let txs = vec![
        Transaction::Transfer(transfer(a, b, 0, 10)),
        Transaction::Transfer(transfer(b, a, 0, 4)),
        Transaction::Transfer(transfer(a, b, 1, 90)),
    ];
    assert_eq!(process_transactions(&mut m, &txs), Ok(()));
    assert_eq!(m.balance(&a), Ok(4));
    assert_eq!(m.nonce(&a), Ok(2));
    assert_eq!(m.balance(&b), Ok(96));
    assert_eq!(m.nonce(&b), Ok(1));
}

#[test]
fn empty_batch_changes_nothing() {
    let a = addr(1);
    let mut m = proof_of(&[(a, acct(3, 3))]);
    let root = m.root();
    assert_eq!(process_transactions(&mut m, &vec![]), Ok(()));
    assert_eq!(m.root(), root);
}

#[test]
fn transfer_conserves_total_and_bumps_one_nonce() {
    let a = addr(1);
    let b = addr(2);
    let c = addr(3);
    let mut m = proof_of(&[(a, acct(60, 1)), (b, acct(15, 4)), (c, acct(25, 9))]);
    assert_eq!(apply_transfer(&mut m, &transfer(a, b, 1, 20)), Ok(()));
    let total: u64 = [a, b, c].iter().map(|x| m.balance(x).unwrap()).sum();
    assert_eq!(total, 100);
    assert_eq!(m.nonce(&a), Ok(2));
    assert_eq!(m.nonce(&b), Ok(4));
    assert_eq!(m.nonce(&c), Ok(9));
    assert_eq!(m.balance(&c), Ok(25));
}

#[test]
fn whole_balance_can_be_sent() {
    let a = addr(1);
    let b = addr(2);
    let mut m = proof_of(&[(a, acct(30, 0)), (b, acct(0, 0))]);
    assert_eq!(apply_transfer(&mut m, &transfer(a, b, 0, 30)), Ok(()));
    assert_eq!(m.balance(&a), Ok(0));
    assert_eq!(m.balance(&b), Ok(30));
}

#[test]
fn receiver_overflow_rejected() {
    let a = addr(1);
    let b = addr(2);
    let mut m = proof_of(&[(a, acct(10, 0)), (b, acct(u64::MAX - 5, 0))]);
    assert_eq!(
        apply_transfer(&mut m, &transfer(a, b, 0, 10)),
        Err(Error::BalanceOverflow { have: u64::MAX - 5, add: 10 })
    );
    assert_eq!(m.balance(&a), Ok(10));
}

#[test]
fn nonce_overflow_rejected() {
    let a = addr(1);
    let b = addr(2);
    let mut m = proof_of(&[(a, acct(10, u64::MAX)), (b, acct(0, 0))]);
    assert_eq!(apply_transfer(&mut m, &transfer(a, b, u64::MAX, 1)), Err(Error::NonceOverflow(a)));
}

#[test]
fn high_addresses_are_distinct_leaves() {
    let mut hi = [0u8; 32];
    hi[0] = 0x80;
    let h = Address::from_bytes(hi);
    let l = addr(0);
    let mut m = proof_of(&[(h, acct(1, 0)), (l, acct(2, 0))]);
    assert_eq!(m.balance(&h), Ok(1));
    assert_eq!(m.balance(&l), Ok(2));
    assert_eq!(apply_transfer(&mut m, &transfer(l, h, 0, 2)), Ok(()));
    assert_eq!(m.balance(&h), Ok(3));
    assert_eq!(m.balance(&l), Ok(0));
}

#[test]
fn balance_command_reads_balance() {
    let a = addr(1);
    let m = proof_of(&[(a, acct(42, 0))]);
    assert_eq!(BalanceCmd { address: a }.execute(&m), Ok(42));
    assert_eq!(BalanceCmd { address: addr(9) }.execute(&m), Err(Error::UnknownAddress(addr(9))));
}

#[test]
fn transfer_command_uses_current_nonce() {
    let a = addr(1);
    let b = addr(2);
    let mut m = proof_of(&[(a, acct(100, 5)), (b, acct(10, 0))]);
    let cmd = TransferCmd { from: a, to: b, amount: 30 };
    assert_eq!(cmd.execute(&mut m), Ok(()));
    assert_eq!(cmd.execute(&mut m), Ok(()));
    assert_eq!(m.balance(&a), Ok(40));
    assert_eq!(m.nonce(&a), Ok(7));
    assert_eq!(m.balance(&b), Ok(70));
    let big = TransferCmd { from: a, to: b, amount: 41 };
    assert_eq!(big.execute(&mut m), Err(Error::InsufficientBalance { have: 40, need: 41 }));
    let unknown = TransferCmd { from: addr(7), to: b, amount: 1 };
    assert_eq!(unknown.execute(&mut m), Err(Error::UnknownAddress(addr(7))));
}

#[test]
fn accounts_command_lists_hex() {
    let mut bytes = [0u8; 32];
    bytes[0] = 0xab;
    bytes[31] = 0x0f;
    let lines = AccountsCmd().execute(&vec![Address::from_bytes(bytes), addr(1)]);
    assert_eq!(lines.len(), 2);
    assert_eq!(lines[0], format!("ab{}0f", "0".repeat(60)));
    assert_eq!(lines[1], format!("{}01", "0".repeat(62)));
    assert!(AccountsCmd().execute(&vec![]).is_empty());
}

#[test]
fn address_bits_follow_big_endian_order() {
    let mut bytes = [0u8; 32];
    bytes[0] = 0x80;
    bytes[31] = 0x01;
    let a = Address::from_bytes(bytes);
    assert!(a.bit(0));
    assert!(!a.bit(1));
    assert!(a.bit(255));
    assert!(!a.bit(254));
}

#[test]
fn account_bytes_are_little_endian() {
    let b = acct(0x0102, 7).to_bytes();
    assert_eq!(b, vec![2, 1, 0, 0, 0, 0, 0, 0, 7, 0, 0, 0, 0, 0, 0, 0]);
}

#[test]
fn witness_from_accounts_builds_zero_ledger() {
    let a = addr(1);
    let b = addr(77);
    let w = Witness::from_accounts(vec![(a, acct(5, 2)), (b, acct(8, 0))]);
    let root = w.compute_root();
    assert_eq!(root, expected_root(&w));
    let m = match Multiproof::new(w, &root) {
        Ok(m) => m,
        Err(e) => panic!("refused: {:?}", e),
    };
    assert_eq!(m.get_record(&a), Ok(acct(5, 2)));
    assert_eq!(m.get_record(&b), Ok(acct(8, 0)));
    assert_eq!(m.get_record(&addr(2)), Err(Error::UnknownAddress(addr(2))));
}

#[test]
fn empty_witness_is_the_zero_root() {
    let w = Witness::from_accounts(vec![]);
    let mut zero = sha(&[0u8; 16]);
    for _ in 0..256 {
        let mut b = zero.clone();
        b.extend_from_slice(&zero);
        zero = sha(&b);
    }
    assert_eq!(w.compute_root(), zero);
    let one = Witness::from_accounts(vec![(addr(4), acct(0, 0))]);
    assert_eq!(one.compute_root(), zero);
}

#[test]
fn transfer_to_self_only_advances_nonce() {
    let a = addr(1);
    let mut m = proof_of(&[(a, acct(100, 5))]);
    assert_eq!(apply_transfer(&mut m, &transfer(a, a, 5, 30)), Ok(()));
    assert_eq!(m.balance(&a), Ok(100));
    assert_eq!(m.nonce(&a), Ok(6));
    assert_eq!(
        apply_transfer(&mut m, &transfer(a, a, 5, 30)),
        Err(Error::InvalidNonce { expected: 6, got: 5 })
    );
    let fresh = expected_root(&witness(&[(a, acct(100, 6))], 0));
    assert_eq!(m.root(), fresh);
}

#[test]
fn refused_command_keeps_root() {
    let a = addr(1);
    let b = addr(2);
    let mut m = proof_of(&[(a, acct(10, 0)), (b, acct(0, 0))]);
    let root = m.root();
    let cmd = TransferCmd { from: a, to: b, amount: 50 };
    assert_eq!(cmd.execute(&mut m), Err(Error::InsufficientBalance { have: 10, need: 50 }));
    assert_eq!(m.root(), root);
    let to_unknown = TransferCmd { from: a, to: addr(9), amount: 1 };
    assert_eq!(to_unknown.execute(&mut m), Err(Error::UnknownAddress(addr(9))));
    assert_eq!(m.root(), root);
    assert_eq!(m.balance(&a), Ok(10));
}
