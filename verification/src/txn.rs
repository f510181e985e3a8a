//! Transactions, their inputs and outputs.

use vstd::prelude::*;
use crate::error::BtcError;
use crate::hashing::{hex_lower, sha256, sha256_hex};

verus! {

/// What an input holds: the id of the transaction whose output it spends,
/// the index of that output, a signature and the spender's public key.
pub struct TxInputModel {
    pub txid: Seq<char>,
    pub vout: i32,
    pub signature: Seq<u8>,
    pub pub_key: Seq<u8>,
}

/// What an output holds: an amount and the hash of the key it is locked to.
pub struct TxOutputModel {
    pub value: i32,
    pub pub_key_hash: Seq<u8>,
}

/// What a transaction holds.
pub struct TransactionModel {
    pub id: Seq<char>,
    pub vin: Seq<TxInputModel>,
    pub vout: Seq<TxOutputModel>,
}

/// TXInput represents a transaction input
#[derive(Debug, Clone)]
pub struct TXInput {
    pub txid: String,
    pub vout: i32,
    pub signature: Vec<u8>,
    pub pub_key: Vec<u8>,
}

/// TXOutput represents a transaction output
#[derive(Debug)]
pub struct TXOutput {
    pub value: i32,
    pub pub_key_hash: Vec<u8>,
}

/// The outputs of one transaction that are still unspent.
#[derive(Debug, Clone)]
pub struct TXOutputs {
    pub outputs: Vec<TXOutput>,
}

/// Transaction represents a Bitcoin transaction
#[derive(Debug, Clone)]
pub struct Transaction {
    pub id: String,
    pub vin: Vec<TXInput>,
    pub vout: Vec<TXOutput>,
}

impl View for TXInput {
    type V = TxInputModel;

    open spec fn view(&self) -> TxInputModel {
        TxInputModel {
            txid: self.txid@,
            vout: self.vout,
            signature: self.signature@,
            pub_key: self.pub_key@,
        }
    }
}

impl View for TXOutput {
    type V = TxOutputModel;

    open spec fn view(&self) -> TxOutputModel {
        TxOutputModel { value: self.value, pub_key_hash: self.pub_key_hash@ }
    }
}

impl View for TXOutputs {
    type V = Seq<TxOutputModel>;

    open spec fn view(&self) -> Seq<TxOutputModel> {
        self.outputs@.map_values(|o: TXOutput| o@)
    }
}

impl View for Transaction {
    type V = TransactionModel;

    open spec fn view(&self) -> TransactionModel {
        TransactionModel {
            id: self.id@,
            vin: self.vin@.map_values(|i: TXInput| i@),
            vout: self.vout@.map_values(|o: TXOutput| o@),
        }
    }
}

impl Clone for TXOutput {
    fn clone(&self) -> (r: Self)
        ensures
            r@ == self@,
    {
        let pub_key_hash = self.pub_key_hash.clone();
        assert(pub_key_hash@ =~= self.pub_key_hash@);
        TXOutput { value: self.value, pub_key_hash }
    }
}

/// A coinbase transaction has a single input that refers to no transaction
/// (empty id) and no output (index -1).
pub open spec fn is_coinbase_model(tx: TransactionModel) -> bool {
    &&& tx.vin.len() == 1
    &&& tx.vin[0].txid.len() == 0
    &&& tx.vin[0].vout == -1
}

/// The transaction with its id cleared: what its hash is computed over.
pub open spec fn without_id(tx: TransactionModel) -> TransactionModel {
    TransactionModel { id: Seq::empty(), vin: tx.vin, vout: tx.vout }
}

/// The bincode serialization of a transaction: `id`, then `vin`, then
/// `vout`, each field in declaration order.
pub uninterp spec fn bincode_transaction(tx: TransactionModel) -> Seq<u8>;

/// The hash of a transaction: the lowercase hex SHA-256 digest of the
/// serialization of the transaction with its id cleared.
pub open spec fn tx_hash(tx: TransactionModel) -> Seq<char> {
    hex_lower(sha256(bincode_transaction(without_id(tx))))
}

/// `bincode::serialize` of a transaction with the given fields. The fields
/// are handed to bincode as a tuple of std values, which bincode writes
/// exactly as it writes the struct. Serializing strings, byte vectors and
/// integers with bincode's default options (no size limit) cannot fail, so
/// the `Ok` value is taken. Claimed: the bytes are the ones named
/// `bincode_transaction`.
#[verifier::external_body]
fn serialize_transaction(id: &String, vin: &Vec<TXInput>, vout: &Vec<TXOutput>) -> (r: Vec<u8>)
    ensures
        r@ == bincode_transaction(
            TransactionModel {
                id: id@,
                vin: vin@.map_values(|i: TXInput| i@),
                vout: vout@.map_values(|o: TXOutput| o@),
            },
        ),
{
    let inputs: Vec<(&String, i32, &Vec<u8>, &Vec<u8>)> =
        vin.iter().map(|i| (&i.txid, i.vout, &i.signature, &i.pub_key)).collect();
    let outputs: Vec<(i32, &Vec<u8>)> = vout.iter().map(|o| (o.value, &o.pub_key_hash)).collect();
    bincode::serialize(&(id, inputs, outputs)).unwrap()
}

impl Transaction {
    /// Whether this is a coinbase transaction, one that mints coins and
    /// spends nothing.
    pub fn is_coinbase(&self) -> (r: bool)
        ensures
            r == is_coinbase_model(self@),
    {
        self.vin.len() == 1 && self.vin[0].txid.as_str().is_empty() && self.vin[0].vout == -1
    }

    /// Hash returns the hash of the Transaction; it always succeeds.
    pub fn hash(&self) -> (r: Result<String, BtcError>)
        ensures
            r matches Ok(s) && s@ == tx_hash(self@) && s@.len() == 64,
    {
        let id = String::new();
        let data = serialize_transaction(&id, &self.vin, &self.vout);
        let h = sha256_hex(data.as_slice());
        assert(without_id(self@) == TransactionModel {
            id: id@,
            vin: self.vin@.map_values(|i: TXInput| i@),
            vout: self.vout@.map_values(|o: TXOutput| o@),
        });
        Ok(h)
    }
}

/// The hash covers the whole transaction but its id: it is the lowercase
/// hex SHA-256 of the serialization of a transaction with an empty id and
/// exactly the inputs and outputs of `tx`, all of them, in order.
pub proof fn lemma_hash_covers_inputs_and_outputs(tx: TransactionModel)
    ensures
        tx_hash(tx) == hex_lower(
            sha256(bincode_transaction(TransactionModel { id: Seq::empty(), vin: tx.vin, vout: tx.vout })),
        ),
{
}

/// Two transactions that differ at most in their ids have the same hash:
/// the id is cleared before hashing.
pub proof fn lemma_hash_ignores_id(a: TransactionModel, b: TransactionModel)
    requires
        a.vin == b.vin,
        a.vout == b.vout,
    ensures
        tx_hash(a) == tx_hash(b),
{
    assert(without_id(a) == without_id(b));
}

} // verus!
