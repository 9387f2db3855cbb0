use crate::account::Address;
use crate::error::Error;
use crate::multiproof::{lemma_root_consistent, Multiproof};
use crate::process::{
    batch_outcome, process_transactions, transfer_error, transferred, Transaction, Transfer,
};
use vstd::prelude::*;

verus! {

/// A command a user sends to the client, with its arguments.
pub enum Command {
    Balance(BalanceCmd),
    Transfer(TransferCmd),
    Accounts(AccountsCmd),
    Exit,
}

/// Reads the balance of one address.
pub struct BalanceCmd {
    pub address: Address,
}

/// Transfers an amount from one account to another.
pub struct TransferCmd {
    pub from: Address,
    pub to: Address,
    pub amount: u64,
}

/// Lists the accounts the client manages.
pub struct AccountsCmd();

/// The lowercase hexadecimal digit for a value below 16.
pub open spec fn hex_digit(n: u8) -> char {
    seq!['0', '1', '2', '3', '4', '5', '6', '7', '8', '9', 'a', 'b', 'c', 'd', 'e', 'f'][n as int]
}

/// Lowercase hexadecimal text for a byte string: two digits per byte, the
/// high nibble first.
pub open spec fn hex_of(b: Seq<u8>) -> Seq<char>
    decreases b.len(),
{
    if b.len() == 0 {
        Seq::empty()
    } else {
        seq![hex_digit(b[0] / 16), hex_digit(b[0] % 16)] + hex_of(b.drop_first())
    }
}

/// Relies on hex::encode: lowercase digits, two per byte, high nibble first.
#[verifier::external_body]
fn hex_encode(b: &[u8; 32]) -> (r: String)
    ensures
        r@ == hex_of(b@),
{
    hex::encode(b)
}

impl BalanceCmd {
    /// The balance at the command's address; `UnknownAddress` where the
    /// multiproof holds only a hash for it.
    pub fn execute(&self, db: &Multiproof) -> (r: Result<u64, Error>)
        requires
            db.wf(),
        ensures
            match db.record(self.address) {
                Some(acct) => r == Ok::<u64, Error>(acct.balance),
                None => r == Err::<u64, Error>(Error::UnknownAddress(self.address)),
            },
    {
        db.balance(&self.address)
    }
}

impl TransferCmd {
    /// Whether `t` is this command sent at `nonce`, whatever its signature.
    pub open spec fn sends(self, t: Transfer, nonce: u64) -> bool {
        &&& t.from == self.from
        &&& t.to == self.to
        &&& t.amount == self.amount
        &&& t.nonce == nonce
    }

    /// Sends the transfer at the sender's current nonce, as a batch of one.
    /// The signature is a placeholder of zero bytes. A refused transfer
    /// leaves the multiproof as it was.
    pub fn execute(&self, db: &mut Multiproof) -> (r: Result<(), Error>)
        requires
            old(db).wf(),
        ensures
            final(db).wf(),
            r.is_err() ==> *final(db) == *old(db),
            final(db).root_hash() == final(db).tree().root_hash(),
            match old(db).record(self.from) {
                None => r == Err::<(), Error>(Error::UnknownAddress(self.from)),
                Some(s) => forall|t: Transfer|
                    #[trigger] self.sends(t, s.nonce) ==> {
                        &&& r == match transfer_error(old(db).tree(), t) {
                            Some(e) => Err::<(), Error>(e),
                            None => Ok(()),
                        }
                        &&& r.is_ok() ==> final(db).tree() == transferred(old(db).tree(), t)
                    },
            },
    {
        let nonce = match db.nonce(&self.from) {
            Ok(n) => n,
            Err(e) => {
                proof {
                    lemma_root_consistent(*db);
                }
                return Err(e);
            },
        };
        let tx = Transfer {
            to: self.to,
            from: self.from,
            nonce,
            amount: self.amount,
            signature: [0u8; 96],
        };
        let txs = vec![Transaction::Transfer(tx)];
        let ghost t0 = db.tree();
        proof {
            assert(txs@.len() == 1);
            assert(txs@[0] == Transaction::Transfer(tx));
            assert(txs@.drop_first() =~= Seq::<Transaction>::empty());
            let after = transferred(t0, tx);
            assert(batch_outcome(after, Seq::<Transaction>::empty()) == (after, None::<Error>));
        }
        let r = process_transactions(db, &txs);
        proof {
            lemma_root_consistent(*db);
            assert forall|t: Transfer| #[trigger] self.sends(t, nonce) implies transfer_error(t0, t)
                == transfer_error(t0, tx) && transferred(t0, t) == transferred(t0, tx) by {}
        }
        r
    }
}

impl AccountsCmd {
    /// The hexadecimal text of each address, in order.
    pub fn execute(&self, accounts: &Vec<Address>) -> (r: Vec<String>)
        ensures
            r@.len() == accounts@.len(),
            forall|i: int| 0 <= i < r@.len() ==> #[trigger] r@[i]@ == hex_of(accounts@[i].bytes@),
    {
        let mut out: Vec<String> = Vec::new();
        let mut i: usize = 0;
        while i < accounts.len()
            invariant
                i <= accounts@.len(),
                out@.len() == i,
                forall|k: int| 0 <= k < i ==> #[trigger] out@[k]@ == hex_of(accounts@[k].bytes@),
            decreases accounts@.len() - i,
        {
            out.push(hex_encode(&accounts[i].bytes));
            i = i + 1;
        }
        out
    }
}

} // verus!
