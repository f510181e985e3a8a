use crypto::digest::Digest;
use simplified_btc::block::Block;
use simplified_btc::chain::tip_from_last;
use simplified_btc::error::BtcError;
use simplified_btc::txn::{TXInput, TXOutput, Transaction};
use simplified_btc::utxo::find_utxo;

fn input(txid: &str, vout: i32) -> TXInput {
    TXInput { txid: txid.to_string(), vout, signature: vec![1, 2], pub_key: vec![3, 4] }
}

fn output(value: i32, key: u8) -> TXOutput {
    TXOutput { value, pub_key_hash: vec![key; 20] }
}

fn tx(id: &str, vin: Vec<TXInput>, vout: Vec<TXOutput>) -> Transaction {
    Transaction { id: id.to_string(), vin, vout }
}

fn coinbase(id: &str, value: i32, key: u8) -> Transaction {
    tx(id, vec![input("", -1)], vec![output(value, key)])
}

fn block(txs: Vec<Transaction>, prev: &str, hash: &str, height: i32) -> Block {
    Block::from_parts(1_700_000_000_000, txs, prev.to_string(), hash.to_string(), 7, height)
}

fn values(outs: &simplified_btc::txn::TXOutputs) -> Vec<i32> {
    outs.outputs.iter().map(|o| o.value).collect()
}

#[test]
fn coinbase_is_recognised() {
    assert!(coinbase("c", 10, 1).is_coinbase());
    assert!(!tx("t", vec![input("c", 0)], vec![]).is_coinbase());
    assert!(!tx("t", vec![input("", 0)], vec![]).is_coinbase());
    assert!(!tx("t", vec![input("", -1), input("", -1)], vec![]).is_coinbase());
    assert!(!tx("t", vec![], vec![]).is_coinbase());
}

#[test]
fn hash_is_sha256_hex_of_serialization_without_id() {
    let t = tx("someid", vec![input("prev", 1)], vec![output(5, 9), output(6, 8)]);
    let h = t.hash().unwrap();
    let inputs: Vec<(String, i32, Vec<u8>, Vec<u8>)> =
        t.vin.iter().map(|i| (i.txid.clone(), i.vout, i.signature.clone(), i.pub_key.clone())).collect();
    let outputs: Vec<(i32, Vec<u8>)> = t.vout.iter().map(|o| (o.value, o.pub_key_hash.clone())).collect();
    let bytes = bincode::serialize(&(String::new(), inputs, outputs)).unwrap();
    let mut hasher = crypto::sha2::Sha256::new();
    hasher.input(&bytes);
    assert_eq!(h, hasher.result_str());
    assert_eq!(h.len(), 64);
    assert!(h.chars().all(|c| c.is_ascii_hexdigit() && !c.is_ascii_uppercase()));
}

#[test]
fn hash_ignores_id() {
    let a = tx("one", vec![input("prev", 0)], vec![output(3, 1)]);
    let b = tx("two", vec![input("prev", 0)], vec![output(3, 1)]);
    let c = tx("one", vec![input("prev", 0)], vec![output(4, 1)]);
    assert_eq!(a.hash().unwrap(), b.hash().unwrap());
    assert_ne!(a.hash().unwrap(), c.hash().unwrap());
}

#[test]
fn block_parts_read_back() {
    let b = block(vec![coinbase("c", 10, 1)], "prev", "this", 3);
    assert_eq!(b.get_hash(), "this");
    assert_eq!(b.get_prev_hash(), "prev");
    assert_eq!(b.get_height(), 3);
    assert_eq!(b.get_nonce(), 7);
    assert_eq!(b.get_timestamp(), 1_700_000_000_000);
    assert_eq!(b.get_transaction().len(), 1);
    assert_eq!(b.get_transaction()[0].id, "c");
}

#[test]
fn utxo_of_genesis_only() {
    let chain = vec![block(vec![coinbase("g", 10, 1)], "", "h0", 0)];
    let u = find_utxo(&chain);
    assert_eq!(u.len(), 1);
    assert_eq!(values(u.get("g").unwrap()), vec![10]);
    assert!(u.get("x").is_none());
}

#[test]
fn utxo_excludes_outputs_spent_by_newer_blocks() {
    // Newest block first: t1 spends output 0 of the genesis coinbase.
    let genesis = block(vec![coinbase("g", 10, 1)], "", "h0", 0);
    let spend = tx("t1", vec![input("g", 0)], vec![output(4, 2), output(6, 1)]);
    let b1 = block(vec![coinbase("c1", 10, 3), spend], "h0", "h1", 1);
    let u = find_utxo(&vec![b1, genesis]);
    assert!(u.get("g").is_none());
    assert_eq!(values(u.get("t1").unwrap()), vec![4, 6]);
    assert_eq!(values(u.get("c1").unwrap()), vec![10]);
    assert_eq!(u.len(), 2);
    let mut ids = u.txids();
    ids.sort();
    assert_eq!(ids, vec!["c1".to_string(), "t1".to_string()]);
}

#[test]
fn utxo_keeps_unspent_indices_in_order() {
    let genesis = block(vec![tx("g", vec![input("", -1)], vec![output(1, 1), output(2, 2), output(3, 3)])], "", "h0", 0);
    let spend = tx("t1", vec![input("g", 1)], vec![output(2, 9)]);
    let b1 = block(vec![spend], "h0", "h1", 1);
    let u = find_utxo(&vec![b1, genesis]);
    assert_eq!(values(u.get("g").unwrap()), vec![1, 3]);
}

#[test]
fn utxo_coinbase_inputs_spend_nothing() {
    // A coinbase input names no output; a transaction with id "" keeps its output.
    let odd = tx("", vec![input("x", 0)], vec![output(5, 5)]);
    let b0 = block(vec![odd], "", "h0", 0);
    let b1 = block(vec![coinbase("c", 10, 1)], "h0", "h1", 1);
    let u = find_utxo(&vec![b1, b0]);
    assert_eq!(values(u.get("").unwrap()), vec![5]);
    assert_eq!(values(u.get("c").unwrap()), vec![10]);
}

#[test]
fn utxo_spend_within_same_block_is_seen() {
    // A later transaction of the same block spends the earlier one's only
    // output, so only the later one's output is unspent.
    let a = coinbase("a", 10, 1);
    let b = tx("b", vec![input("a", 0)], vec![output(10, 2)]);
    let u = find_utxo(&vec![block(vec![a, b], "", "h0", 0)]);
    assert!(u.get("a").is_none());
    assert_eq!(values(u.get("b").unwrap()), vec![10]);
    assert_eq!(u.len(), 1);
}

#[test]
fn utxo_input_of_older_block_spends_nothing_newer() {
    // An older block's input that names a newer transaction's output spends
    // nothing: the scan only counts spends met before, from the tip back.
    let b0 = block(vec![tx("old", vec![input("new", 0)], vec![output(1, 1)])], "", "h0", 0);
    let b1 = block(vec![tx("new", vec![input("", -1)], vec![output(5, 5), output(6, 6)])], "h0", "h1", 1);
    let u = find_utxo(&vec![b1, b0]);
    assert_eq!(values(u.get("new").unwrap()), vec![5, 6]);
    assert_eq!(values(u.get("old").unwrap()), vec![1]);
}

#[test]
fn utxo_earlier_transaction_of_block_spends_nothing_later() {
    // Within a block, only a later transaction can spend an earlier one's output.
    let a = tx("a", vec![input("b", 0)], vec![output(2, 1)]);
    let b = coinbase("b", 10, 2);
    let u = find_utxo(&vec![block(vec![a, b], "", "h0", 0)]);
    assert_eq!(values(u.get("a").unwrap()), vec![2]);
    assert_eq!(values(u.get("b").unwrap()), vec![10]);
}

#[test]
fn utxo_coinbase_on_top_named_by_older_input() {
    // An older input names (c, 0) before c exists; putting c on top still
    // adds all of c's outputs.
    let genesis = block(vec![coinbase("g", 10, 1)], "", "h0", 0);
    let x = tx("x", vec![input("c", 0)], vec![output(3, 2)]);
    let b1 = block(vec![x], "h0", "h1", 1);
    let before = find_utxo(&vec![b1.clone(), genesis.clone()]);
    let top = block(vec![coinbase("c", 7, 3)], "h1", "h2", 2);
    let after = find_utxo(&vec![top, b1, genesis]);
    assert_eq!(values(after.get("c").unwrap()), vec![7]);
    assert_eq!(after.len(), before.len() + 1);
}

#[test]
fn utxo_coinbase_block_on_top_adds_one_entry() {
    let genesis = block(vec![coinbase("g", 10, 1)], "", "h0", 0);
    let spend = tx("t1", vec![input("g", 0)], vec![output(4, 2)]);
    let b1 = block(vec![spend], "h0", "h1", 1);
    let before = find_utxo(&vec![b1.clone(), genesis.clone()]);
    let top = block(vec![tx("c2", vec![input("", -1)], vec![output(10, 3), output(1, 4)])], "h1", "h2", 2);
    let after = find_utxo(&vec![top, b1, genesis]);
    assert_eq!(after.len(), before.len() + 1);
    assert_eq!(values(after.get("c2").unwrap()), vec![10, 1]);
    for id in before.txids() {
        assert_eq!(values(after.get(&id).unwrap()), values(before.get(&id).unwrap()));
    }
}

#[test]
fn utxo_of_empty_chain() {
    let u = find_utxo(&vec![]);
    assert_eq!(u.len(), 0);
    assert!(u.txids().is_empty());
}

#[test]
fn utxo_fully_spent_transaction_has_no_entry() {
    let genesis = block(vec![tx("g", vec![input("", -1)], vec![output(1, 1), output(2, 2)])], "", "h0", 0);
    let spend = tx("t", vec![input("g", 0), input("g", 1)], vec![output(3, 3)]);
    let u = find_utxo(&vec![block(vec![spend], "h0", "h1", 1), genesis]);
    assert!(u.get("g").is_none());
    assert_eq!(values(u.get("t").unwrap()), vec![3]);
}

#[test]
fn tip_from_last_record() {
    assert_eq!(tip_from_last(None), Ok(String::new()));
    assert_eq!(tip_from_last(Some(vec![])), Ok(String::new()));
    assert_eq!(tip_from_last(Some(b"00ab".to_vec())), Ok("00ab".to_string()));
    assert_eq!(tip_from_last(Some("héllo".as_bytes().to_vec())), Ok("héllo".to_string()));
    assert_eq!(tip_from_last(Some(vec![0xc3, 0x28])), Err(BtcError::InvalidUtf8));
}
