use crate::account::{lemma_path_injective, path_of, Account, Address};
use crate::error::Error;
use crate::multiproof::{lemma_root_consistent, lemma_with_record, Multiproof, Tree};
use vstd::prelude::*;

verus! {

/// A transfer of `amount` from `from` to `to`, valid only at the sender's
/// current `nonce`.
#[derive(Clone, Copy, Debug, PartialEq, Eq)]
pub struct Transfer {
    pub from: Address,
    pub to: Address,
    pub nonce: u64,
    pub amount: u64,
    /// Authorisation of the sender; checked by the caller, not here.
    pub signature: [u8; 96],
}

/// A transaction against the ledger.
#[derive(Clone, Copy, Debug, PartialEq, Eq)]
pub enum Transaction {
    Transfer(Transfer),
}

/// Why a transfer is refused against the given tree, if it is.
pub open spec fn transfer_error(tree: Tree, t: Transfer) -> Option<Error> {
    match tree.lookup(path_of(t.from)) {
        None => Some(Error::UnknownAddress(t.from)),
        Some(s) => if s.nonce != t.nonce {
            Some(Error::InvalidNonce { expected: s.nonce, got: t.nonce })
        } else if s.balance < t.amount {
            Some(Error::InsufficientBalance { have: s.balance, need: t.amount })
        } else if tree.lookup(path_of(t.to)).is_none() {
            Some(Error::UnknownAddress(t.to))
        } else if s.nonce == u64::MAX {
            Some(Error::NonceOverflow(t.from))
        } else {
            let r = debit(tree, t).lookup(path_of(t.to)).unwrap();
            if r.balance + t.amount > u64::MAX {
                Some(Error::BalanceOverflow { have: r.balance, add: t.amount })
            } else {
                None
            }
        },
    }
}

/// The sender's record after sending `amount`.
pub open spec fn debited(s: Account, amount: u64) -> Account {
    Account { balance: (s.balance - amount) as u64, nonce: (s.nonce + 1) as u64 }
}

/// The receiver's record after receiving `amount`.
pub open spec fn credited(r: Account, amount: u64) -> Account {
    Account { balance: (r.balance + amount) as u64, nonce: r.nonce }
}

/// The tree once the sender's record is written.
pub open spec fn debit(tree: Tree, t: Transfer) -> Tree {
    tree.with_record(path_of(t.from), debited(tree.lookup(path_of(t.from)).unwrap(), t.amount))
}

/// The tree after an accepted transfer: the sender's record is written
/// first, then the receiver's record as it stands after that write is
/// credited. A transfer to oneself so only advances the nonce.
pub open spec fn transferred(tree: Tree, t: Transfer) -> Tree {
    let d = debit(tree, t);
    d.with_record(path_of(t.to), credited(d.lookup(path_of(t.to)).unwrap(), t.amount))
}

/// The tree after a batch and the error that halted it, if any.
/// Transactions apply in order; the first refused one stops the batch, and
/// those before it stay applied.
pub open spec fn batch_outcome(tree: Tree, txs: Seq<Transaction>) -> (Tree, Option<Error>)
    decreases txs.len(),
{
    if txs.len() == 0 {
        (tree, None)
    } else {
        match txs[0] {
            Transaction::Transfer(t) => match transfer_error(tree, t) {
                Some(e) => (tree, Some(e)),
                None => batch_outcome(transferred(tree, t), txs.drop_first()),
            },
        }
    }
}

/// The batch's first transaction is refused.
pub open spec fn first_refused(tree: Tree, txs: Seq<Transaction>) -> bool {
    txs.len() > 0 && match txs[0] {
        Transaction::Transfer(t) => transfer_error(tree, t).is_some(),
    }
}

/// Whether two addresses are the same.
fn same_address(a: &Address, b: &Address) -> (r: bool)
    ensures
        r == (*a == *b),
{
    let mut i: usize = 0;
    while i < 32
        invariant
            i <= 32,
            forall|k: int| 0 <= k < i ==> a.bytes@[k] == b.bytes@[k],
        decreases 32 - i,
    {
        if a.bytes[i] != b.bytes[i] {
            return false;
        }
        i = i + 1;
    }
    assert(a.bytes =~= b.bytes);
    true
}

/// Applies one transfer. Where it is refused nothing changes; where it is
/// accepted the sender is debited and its nonce advanced, then the receiver
/// is credited, and the root is recomputed.
pub fn apply_transfer(db: &mut Multiproof, t: &Transfer) -> (r: Result<(), Error>)
    requires
        old(db).wf(),
    ensures
        final(db).wf(),
        r == match transfer_error(old(db).tree(), *t) {
            Some(e) => Err::<(), Error>(e),
            None => Ok(()),
        },
        r.is_err() ==> *final(db) == *old(db),
        r.is_ok() ==> final(db).tree() == transferred(old(db).tree(), *t),
{
    let ghost t0 = db.tree();
    let sender = match db.get_record(&t.from) {
        Ok(s) => s,
        Err(e) => return Err(e),
    };
    if sender.nonce != t.nonce {
        return Err(Error::InvalidNonce { expected: sender.nonce, got: t.nonce });
    }
    if sender.balance < t.amount {
        return Err(Error::InsufficientBalance { have: sender.balance, need: t.amount });
    }
    let receiver = match db.get_record(&t.to) {
        Ok(r) => r,
        Err(e) => return Err(e),
    };
    if sender.nonce == u64::MAX {
        return Err(Error::NonceOverflow(t.from));
    }
    let new_sender = Account { balance: sender.balance - t.amount, nonce: sender.nonce + 1 };
    let receiver_now = if same_address(&t.from, &t.to) {
        new_sender
    } else {
        receiver
    };
    proof {
        lemma_with_record(t0, path_of(t.from), new_sender);
        if path_of(t.to) == path_of(t.from) {
            lemma_path_injective(t.to, t.from);
        }
        assert(debit(t0, *t).lookup(path_of(t.to)) == Some(receiver_now));
    }
    if receiver_now.balance > u64::MAX - t.amount {
        return Err(Error::BalanceOverflow { have: receiver_now.balance, add: t.amount });
    }
    let new_receiver = Account { balance: receiver_now.balance + t.amount, nonce: receiver_now.nonce };
    let _ = db.set_record(&t.from, new_sender);
    let _ = db.set_record(&t.to, new_receiver);
    Ok(())
}

/// Applies a batch of transactions in order, halting at the first refused
/// one; those before it stay applied, and a batch whose first transaction is
/// refused leaves the multiproof as it was.
pub fn process_transactions(db: &mut Multiproof, txs: &Vec<Transaction>) -> (r: Result<(), Error>)
    requires
        old(db).wf(),
    ensures
        final(db).wf(),
        final(db).tree() == batch_outcome(old(db).tree(), txs@).0,
        final(db).root_hash() == batch_outcome(old(db).tree(), txs@).0.root_hash(),
        r == match batch_outcome(old(db).tree(), txs@).1 {
            Some(e) => Err::<(), Error>(e),
            None => Ok(()),
        },
        first_refused(old(db).tree(), txs@) ==> *final(db) == *old(db),
{
    let mut i: usize = 0;
    assert(txs@.subrange(0, txs@.len() as int) =~= txs@);
    while i < txs.len()
        invariant
            i <= txs@.len(),
            db.wf(),
            batch_outcome(old(db).tree(), txs@) == batch_outcome(
                db.tree(),
                txs@.subrange(i as int, txs@.len() as int),
            ),
            i == 0 ==> *db == *old(db),
            i > 0 ==> !first_refused(old(db).tree(), txs@),
        decreases txs@.len() - i,
    {
        let ghost rest = txs@.subrange(i as int, txs@.len() as int);
        assert(rest.drop_first() =~= txs@.subrange(i + 1, txs@.len() as int));
        match &txs[i] {
            Transaction::Transfer(t) => {
                match apply_transfer(db, t) {
                    Ok(()) => {
                        assert(i > 0 || !first_refused(old(db).tree(), txs@));
                    },
                    Err(e) => {
                        proof {
                            lemma_root_consistent(*db);
                        }
                        return Err(e);
                    },
                }
            },
        }
        i = i + 1;
    }
    assert(txs@.subrange(i as int, txs@.len() as int) =~= Seq::<Transaction>::empty());
    proof {
        lemma_root_consistent(*db);
    }
    Ok(())
}

/// The sum of the known balances among `addrs`.
pub open spec fn total_balance(tree: Tree, addrs: Seq<Address>) -> int
    decreases addrs.len(),
{
    if addrs.len() == 0 {
        0
    } else {
        (match tree.lookup(path_of(addrs[0])) {
            Some(acct) => acct.balance as int,
            None => 0,
        }) + total_balance(tree, addrs.drop_first())
    }
}

/// The nonce of a record, where there is one.
pub open spec fn nonce_of(r: Option<Account>) -> Option<u64> {
    match r {
        Some(acct) => Some(acct.nonce),
        None => None,
    }
}

/// What an accepted transfer leaves at each address.
proof fn lemma_transferred_lookup(tree: Tree, t: Transfer, a: Address)
    requires
        transfer_error(tree, t).is_none(),
    ensures
        ({
            let s = tree.lookup(path_of(t.from)).unwrap();
            let r = tree.lookup(path_of(t.to)).unwrap();
            transferred(tree, t).lookup(path_of(a)) == if a == t.from && a == t.to {
                Some(Account { balance: s.balance, nonce: (s.nonce + 1) as u64 })
            } else if a == t.to {
                Some(credited(r, t.amount))
            } else if a == t.from {
                Some(debited(s, t.amount))
            } else {
                tree.lookup(path_of(a))
            }
        }),
        t.from != t.to ==> tree.lookup(path_of(t.to)).unwrap().balance + t.amount <= u64::MAX,
{
    let s = tree.lookup(path_of(t.from)).unwrap();
    let d = debit(tree, t);
    lemma_with_record(tree, path_of(t.from), debited(s, t.amount));
    if path_of(t.to) == path_of(t.from) {
        lemma_path_injective(t.to, t.from);
    }
    if path_of(a) == path_of(t.from) {
        lemma_path_injective(a, t.from);
    }
    if path_of(a) == path_of(t.to) {
        lemma_path_injective(a, t.to);
    }
    lemma_with_record(d, path_of(t.to), credited(d.lookup(path_of(t.to)).unwrap(), t.amount));
}

/// A transfer from or to an address whose leaf the view does not hold is
/// refused, and an unknown sender is reported as such.
pub proof fn lemma_unknown_address_rejected(m: Multiproof, t: Transfer)
    requires
        m.record(t.from).is_none() || m.record(t.to).is_none(),
    ensures
        transfer_error(m.tree(), t).is_some(),
        m.record(t.from).is_none() ==> transfer_error(m.tree(), t) == Some(
            Error::UnknownAddress(t.from),
        ),
        m.record(t.from) matches Some(s) && s.nonce == t.nonce && s.balance >= t.amount
            ==> transfer_error(m.tree(), t) == Some(Error::UnknownAddress(t.to)),
{
}

/// After an accepted transfer the sender's nonce has grown by exactly one
/// and no other nonce has changed.
pub proof fn lemma_transfer_nonce(m: Multiproof, t: Transfer)
    requires
        transfer_error(m.tree(), t).is_none(),
    ensures
        transferred(m.tree(), t).lookup(path_of(t.from)).unwrap().nonce == m.record(
            t.from,
        ).unwrap().nonce + 1,
        forall|a: Address|
            a != t.from ==> nonce_of(#[trigger] transferred(m.tree(), t).lookup(path_of(a)))
                == nonce_of(m.record(a)),
{
    lemma_transferred_lookup(m.tree(), t, t.from);
    assert forall|a: Address|
        a != t.from implies nonce_of(#[trigger] transferred(m.tree(), t).lookup(path_of(a)))
            == nonce_of(m.record(a)) by {
        lemma_transferred_lookup(m.tree(), t, a);
    }
}

proof fn lemma_contains_split(addrs: Seq<Address>, x: Address)
    requires
        addrs.len() > 0,
    ensures
        addrs.contains(x) == (addrs[0] == x || addrs.drop_first().contains(x)),
{
    let rest = addrs.drop_first();
    if addrs.contains(x) {
        let i = choose|i: int| 0 <= i < addrs.len() && addrs[i] == x;
        if i > 0 {
            assert(rest[i - 1] == x);
        }
    }
    if rest.contains(x) {
        let i = choose|i: int| 0 <= i < rest.len() && rest[i] == x;
        assert(addrs[i + 1] == x);
    }
    if addrs[0] == x {
        assert(addrs.contains(x));
    }
}

proof fn lemma_total_after_transfer(tree: Tree, t: Transfer, addrs: Seq<Address>)
    requires
        transfer_error(tree, t).is_none(),
        t.from != t.to,
        addrs.no_duplicates(),
    ensures
        total_balance(transferred(tree, t), addrs) == total_balance(tree, addrs) - (if addrs.contains(
            t.from,
        ) {
            t.amount as int
        } else {
            0
        }) + (if addrs.contains(t.to) {
            t.amount as int
        } else {
            0
        }),
    decreases addrs.len(),
{
    if addrs.len() > 0 {
        let rest = addrs.drop_first();
        assert(rest.no_duplicates());
        lemma_total_after_transfer(tree, t, rest);
        assert(!rest.contains(addrs[0]));
        lemma_contains_split(addrs, t.from);
        lemma_contains_split(addrs, t.to);
        lemma_transferred_lookup(tree, t, addrs[0]);
    }
}

/// Balance conservation: an accepted transfer of `a` between two distinct
/// accounts takes exactly `a` from the sender, gives exactly `a` to the
/// receiver, and leaves the total over any list of distinct addresses that
/// names both unchanged.
pub proof fn lemma_transfer_conserves_balance(m: Multiproof, t: Transfer, addrs: Seq<Address>)
    requires
        transfer_error(m.tree(), t).is_none(),
        t.from != t.to,
        addrs.no_duplicates(),
        addrs.contains(t.from),
        addrs.contains(t.to),
    ensures
        transferred(m.tree(), t).lookup(path_of(t.from)).unwrap().balance == m.record(
            t.from,
        ).unwrap().balance - t.amount,
        transferred(m.tree(), t).lookup(path_of(t.to)).unwrap().balance == m.record(
            t.to,
        ).unwrap().balance + t.amount,
        total_balance(transferred(m.tree(), t), addrs) == total_balance(m.tree(), addrs),
{
    lemma_transferred_lookup(m.tree(), t, t.from);
    lemma_transferred_lookup(m.tree(), t, t.to);
    lemma_total_after_transfer(m.tree(), t, addrs);
}

/// A transfer of more than the sender holds, at the sender's current nonce,
/// is refused as an insufficient balance.
pub proof fn lemma_insufficient_funds_rejected(m: Multiproof, t: Transfer)
    requires
        m.record(t.from) matches Some(s) && s.nonce == t.nonce && t.amount > s.balance,
    ensures
        transfer_error(m.tree(), t) == Some(
            Error::InsufficientBalance { have: m.record(t.from).unwrap().balance, need: t.amount },
        ),
{
}

/// A transfer whose nonce is not the sender's current one is refused as an
/// invalid nonce.
pub proof fn lemma_stale_nonce_rejected(m: Multiproof, t: Transfer)
    requires
        m.record(t.from) matches Some(s) && s.nonce != t.nonce,
    ensures
        transfer_error(m.tree(), t) == Some(
            Error::InvalidNonce { expected: m.record(t.from).unwrap().nonce, got: t.nonce },
        ),
{
}

} // verus!
