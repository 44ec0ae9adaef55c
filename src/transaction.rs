//! A single transfer of value between two addresses.
use vstd::prelude::*;
use vstd::utf8::{encode_utf8, encode_utf8_decode_utf8};

use crate::encoding::{lemma_cancel_prefix, lemma_cancel_suffix, lemma_encoding_injective, le_encoding, pow256, u64_bytes};
use crate::hashing::{append_bytes, sha256, sha256_of, Hashable};
use crate::ChainError;

verus! {

/// Moves `amount` from `sender` to `recipient`.
pub struct Transaction {
    pub sender: String,
    pub recipient: String,
    pub amount: u64,
}

/// The canonical bytes of a transfer: the sender's text, the recipient's text,
/// then the amount in eight little-endian bytes.
pub open spec fn transaction_encoding(sender: Seq<char>, recipient: Seq<char>, amount: u64) -> Seq<u8> {
    encode_utf8(sender) + encode_utf8(recipient) + le_encoding(amount as nat, 8)
}

/// The two transactions move the same amount between the same addresses.
pub open spec fn same_transfer(a: Transaction, b: Transaction) -> bool {
    a.sender@ == b.sender@ && a.recipient@ == b.recipient@ && a.amount == b.amount
}

/// The two sequences hold the same transfers, position by position.
pub open spec fn same_transfers(a: Seq<Transaction>, b: Seq<Transaction>) -> bool {
    a.len() == b.len() && forall|i: int| 0 <= i < a.len() ==> same_transfer(a[i], b[i])
}

impl Transaction {
    /// A transfer of `amount`, which must not be zero.
    pub fn new(sender: String, recipient: String, amount: u64) -> (r: Result<Transaction, ChainError>)
        ensures
            amount == 0 <==> r is Err,
            r matches Err(e) ==> e == ChainError::MalformedTransaction,
            r matches Ok(t) ==> t.sender@ == sender@ && t.recipient@ == recipient@ && t.amount == amount,
    {
        if amount == 0 {
            Err(ChainError::MalformedTransaction)
        } else {
            Ok(Transaction { sender, recipient, amount })
        }
    }

    /// A field-by-field copy.
    pub fn duplicate(&self) -> (r: Transaction)
        ensures
            r.sender@ == self.sender@,
            r.recipient@ == self.recipient@,
            r.amount == self.amount,
    {
        Transaction { sender: self.sender.clone(), recipient: self.recipient.clone(), amount: self.amount }
    }
}

impl Hashable for Transaction {
    open spec fn encoded(&self) -> Seq<u8> {
        transaction_encoding(self.sender@, self.recipient@, self.amount)
    }

    fn bytes(&self) -> (r: Vec<u8>) {
        let mut out: Vec<u8> = Vec::new();
        append_bytes(&mut out, self.sender.as_str().as_bytes());
        append_bytes(&mut out, self.recipient.as_str().as_bytes());
        let amount = u64_bytes(&self.amount);
        append_bytes(&mut out, &amount);
        assert(out@ =~= self.encoded());
        out
    }

    fn hash(&self) -> (r: Vec<u8>) {
        sha256(&self.bytes())
    }
}

/// Determinism of the byte form, read backwards: two transactions with the same
/// bytes that agree on two of their fields agree on the third. So changing any
/// one field changes the bytes.
pub proof fn lemma_transaction_bytes_tell_fields_apart(a: Transaction, b: Transaction)
    requires
        a.encoded() == b.encoded(),
    ensures
        a.recipient@ == b.recipient@ && a.amount == b.amount ==> a.sender@ == b.sender@,
        a.sender@ == b.sender@ && a.amount == b.amount ==> a.recipient@ == b.recipient@,
        a.sender@ == b.sender@ && a.recipient@ == b.recipient@ ==> a.amount == b.amount,
{
    let sa = encode_utf8(a.sender@);
    let sb = encode_utf8(b.sender@);
    let ra = encode_utf8(a.recipient@);
    let rb = encode_utf8(b.recipient@);
    let na = le_encoding(a.amount as nat, 8);
    let nb = le_encoding(b.amount as nat, 8);
    if a.recipient@ == b.recipient@ && a.amount == b.amount {
        lemma_cancel_suffix(sa + ra, sb + rb, na);
        lemma_cancel_suffix(sa, sb, ra);
        encode_utf8_decode_utf8(a.sender@);
        encode_utf8_decode_utf8(b.sender@);
    }
    if a.sender@ == b.sender@ && a.amount == b.amount {
        lemma_cancel_suffix(sa + ra, sb + rb, na);
        lemma_cancel_prefix(sa, ra, rb);
        encode_utf8_decode_utf8(a.recipient@);
        encode_utf8_decode_utf8(b.recipient@);
    }
    if a.sender@ == b.sender@ && a.recipient@ == b.recipient@ {
        lemma_cancel_prefix(sa + ra, na, nb);
        reveal_with_fuel(pow256, 9);
        lemma_encoding_injective(a.amount as nat, b.amount as nat, 8);
    }
}

} // verus!
