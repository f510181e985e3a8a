//! Finding the unspent transaction outputs of a chain.

use vstd::prelude::*;
use crate::block::{Block, BlockModel};
use crate::keyed::{distinct_keys, find_key, has_key, key_map, lemma_key_map_push, lemma_key_map_update};
use crate::txn::{is_coinbase_model, Transaction, TransactionModel, TXOutput, TXOutputs, TxOutputModel};

verus! {

/// The transactions of a chain in the order the scan meets them: blocks as
/// given (newest first), and within a block in the block's order.
pub open spec fn chain_transactions(blocks: Seq<BlockModel>) -> Seq<TransactionModel>
    decreases blocks.len(),
{
    if blocks.len() == 0 {
        seq![]
    } else {
        chain_transactions(blocks.drop_last()) + blocks.last().transactions
    }
}

/// The outputs, as (transaction id, output index), that the inputs of `tx`
/// spend. A coinbase transaction spends nothing.
pub open spec fn inputs_spent(tx: TransactionModel) -> Set<(Seq<char>, i32)> {
    if is_coinbase_model(tx) {
        Set::empty()
    } else {
        Set::new(
            |p: (Seq<char>, i32)|
                exists|j: int| 0 <= j < tx.vin.len() && tx.vin[j].txid == p.0 && tx.vin[j].vout == p.1,
        )
    }
}

/// The outputs spent by the inputs of any of `txs`.
pub open spec fn spent_outputs(txs: Seq<TransactionModel>) -> Set<(Seq<char>, i32)>
    decreases txs.len(),
{
    if txs.len() == 0 {
        Set::empty()
    } else {
        spent_outputs(txs.drop_last()).union(inputs_spent(txs.last()))
    }
}

/// The first `n` outputs of `tx`, in order, without those in `spent`.
pub open spec fn kept_outputs(tx: TransactionModel, spent: Set<(Seq<char>, i32)>, n: int) -> Seq<
    TxOutputModel,
>
    decreases n,
{
    if n <= 0 {
        seq![]
    } else {
        let prev = kept_outputs(tx, spent, n - 1);
        if spent.contains((tx.id, (n - 1) as i32)) {
            prev
        } else {
            prev.push(tx.vout[n - 1])
        }
    }
}

/// The outputs listed under `id`, none if there is no entry.
pub open spec fn outputs_or_empty(m: Map<Seq<char>, Seq<TxOutputModel>>, id: Seq<char>) -> Seq<
    TxOutputModel,
> {
    if m.contains_key(id) {
        m[id]
    } else {
        seq![]
    }
}

/// `m` with `kept` appended under `id`; an entry is made only for outputs.
pub open spec fn add_outputs(
    m: Map<Seq<char>, Seq<TxOutputModel>>,
    id: Seq<char>,
    kept: Seq<TxOutputModel>,
) -> Map<Seq<char>, Seq<TxOutputModel>> {
    if kept.len() == 0 {
        m
    } else {
        m.insert(id, outputs_or_empty(m, id) + kept)
    }
}

/// The outputs that the transaction at position `t` of block `b` must not
/// list: those that an input of a newer block spends (the blocks met before
/// block `b`, from the tip back), and those that an input of a later
/// transaction of block `b` itself spends.
pub open spec fn spent_for(blocks: Seq<BlockModel>, b: int, t: int) -> Set<(Seq<char>, i32)> {
    spent_outputs(chain_transactions(blocks.take(b))).union(
        spent_outputs(blocks[b].transactions.subrange(t + 1, blocks[b].transactions.len() as int)),
    )
}

/// `m` with the unspent outputs of the first `n` transactions of block `b`
/// appended, each under its transaction's id.
pub open spec fn block_unspent(
    m: Map<Seq<char>, Seq<TxOutputModel>>,
    blocks: Seq<BlockModel>,
    b: int,
    n: int,
) -> Map<Seq<char>, Seq<TxOutputModel>>
    decreases n,
{
    if n <= 0 {
        m
    } else {
        let tx = blocks[b].transactions[n - 1];
        add_outputs(
            block_unspent(m, blocks, b, n - 1),
            tx.id,
            kept_outputs(tx, spent_for(blocks, b, n - 1), tx.vout.len() as int),
        )
    }
}

/// The unspent outputs of the first `nb` blocks of the chain (from the tip
/// back), by transaction id.
pub open spec fn chain_unspent(blocks: Seq<BlockModel>, nb: int) -> Map<Seq<char>, Seq<TxOutputModel>>
    decreases nb,
{
    if nb <= 0 {
        Map::empty()
    } else {
        block_unspent(chain_unspent(blocks, nb - 1), blocks, nb - 1, blocks[nb - 1].transactions.len() as int)
    }
}

/// The unspent outputs of a chain given from its tip back, by transaction
/// id: every output that no input of a newer block, and no input of a later
/// transaction of its own block, spends.
pub open spec fn unspent_outputs(blocks: Seq<BlockModel>) -> Map<Seq<char>, Seq<TxOutputModel>> {
    chain_unspent(blocks, blocks.len() as int)
}

/// Some input of a transaction of `txs` that is not a coinbase refers to
/// output `index` of transaction `id`.
pub open spec fn spends(txs: Seq<TransactionModel>, id: Seq<char>, index: i32) -> bool {
    exists|t: int, j: int|
        0 <= t < txs.len() && !is_coinbase_model(txs[t]) && 0 <= j < txs[t].vin.len() && txs[t].vin[j].txid
            == id && txs[t].vin[j].vout == index
}

/// An input of a block newer than block `b`, or of a transaction after
/// position `t` in block `b`, spends output `index` of transaction `id`.
pub open spec fn spent_by_newer(blocks: Seq<BlockModel>, b: int, t: int, id: Seq<char>, index: i32) -> bool {
    ||| spends(chain_transactions(blocks.take(b)), id, index)
    ||| spends(blocks[b].transactions.subrange(t + 1, blocks[b].transactions.len() as int), id, index)
}

/// The set of (transaction id, output index) pairs recorded in `s`.
pub open spec fn spent_set(s: Seq<(String, i32)>) -> Set<(Seq<char>, i32)> {
    Set::new(|p: (Seq<char>, i32)| exists|i: int| 0 <= i < s.len() && s[i].0@ == p.0 && s[i].1 == p.1)
}


/// Whether `(id, index)` is recorded in `spent`.
fn is_spent(spent: &Vec<(String, i32)>, id: &String, index: i32) -> (r: bool)
    ensures
        r == spent_set(spent@).contains((id@, index)),
{
    let mut i: usize = 0;
    while i < spent.len()
        invariant
            i <= spent@.len(),
            forall|j: int| 0 <= j < i ==> !(spent@[j].0@ == id@ && spent@[j].1 == index),
        decreases spent@.len() - i,
    {
        if spent[i].1 == index && spent[i].0 == *id {
            assert(spent_set(spent@).contains((id@, index)));
            return true;
        }
        i = i + 1;
    }
    false
}

/// Appends `out` to the outputs listed under `id`, making the entry if there
/// is none.
fn add_output(entries: &mut Vec<(String, TXOutputs)>, id: &String, out: TXOutput)
    requires
        distinct_keys(old(entries)@),
    ensures
        distinct_keys(final(entries)@),
        key_map(final(entries)@) == key_map(old(entries)@).insert(
            id@,
            outputs_or_empty(key_map(old(entries)@), id@).push(out@),
        ),
{
    let ghost out_view = out@;
    match find_key(entries, id) {
        Some(i) => {
            proof { crate::keyed::lemma_key_map_at(old(entries)@, i as int); }
            let ghost before = entries@[i as int].1;
            entries[i].1.outputs.push(out);
            proof {
                let after = entries@[i as int].1;
                assert(entries@ == old(entries)@.update(i as int, (old(entries)@[i as int].0, after)));
                assert(after@ =~= before@.push(out_view));
                lemma_key_map_update(old(entries)@, i as int, after);
            }
        },
        None => {
            let mut outputs: Vec<TXOutput> = Vec::new();
            outputs.push(out);
            let fresh = TXOutputs { outputs };
            assert(fresh@ =~= seq![out_view]);
            let key = id.clone();
            proof { lemma_key_map_push(old(entries)@, key, fresh); }
            entries.push((key, fresh));
            assert(outputs_or_empty(key_map(old(entries)@), id@) =~= seq![]);
            assert(seq![].push(out_view) =~= seq![out_view]);
        },
    }
}

/// The unspent outputs of a chain, keyed by transaction id.
pub struct UtxoMap {
    entries: Vec<(String, TXOutputs)>,
}

impl UtxoMap {
    #[verifier::type_invariant]
    spec fn inv(self) -> bool {
        distinct_keys(self.entries@)
    }

    /// What the map holds.
    pub closed spec fn view(&self) -> Map<Seq<char>, Seq<TxOutputModel>> {
        key_map(self.entries@)
    }

    /// The unspent outputs of transaction `txid`, if it has any.
    pub fn get(&self, txid: &str) -> (r: Option<&TXOutputs>)
        ensures
            match r {
                Some(outs) => self.view().contains_key(txid@) && outs@ == self.view()[txid@],
                None => !self.view().contains_key(txid@),
            },
    {
        proof { use_type_invariant(self); }
        let key = txid.to_owned();
        match find_key(&self.entries, &key) {
            Some(i) => {
                proof { crate::keyed::lemma_key_map_at(self.entries@, i as int); }
                Some(&self.entries[i].1)
            },
            None => None,
        }
    }

    /// The number of transactions with unspent outputs.
    pub fn len(&self) -> (r: usize)
        ensures
            r == self.view().len(),
    {
        proof {
            use_type_invariant(self);
            crate::keyed::lemma_key_map_len(self.entries@);
        }
        self.entries.len()
    }

    /// The ids of the transactions with unspent outputs, each once.
    pub fn txids(&self) -> (r: Vec<String>)
        ensures
            r@.len() == self.view().len(),
            forall|i: int| 0 <= i < r@.len() ==> self.view().contains_key(#[trigger] r@[i]@),
            forall|i: int, j: int| 0 <= i < r@.len() && 0 <= j < r@.len() && i != j ==> r@[i]@ != r@[j]@,
    {
        proof {
            use_type_invariant(self);
            crate::keyed::lemma_key_map_len(self.entries@);
        }
        let mut r: Vec<String> = Vec::new();
        let mut i: usize = 0;
        while i < self.entries.len()
            invariant
                i <= self.entries@.len(),
                distinct_keys(self.entries@),
                r@.len() == i,
                forall|j: int| 0 <= j < i ==> #[trigger] r@[j]@ == self.entries@[j].0@,
            decreases self.entries@.len() - i,
        {
            r.push(self.entries[i].0.clone());
            i = i + 1;
        }
        assert forall|j: int| 0 <= j < r@.len() implies self.view().contains_key(#[trigger] r@[j]@) by {
            crate::keyed::lemma_key_map_at(self.entries@, j);
        }
        r
    }
}


/// Records in `spent` every output that an input of `tx` refers to.
fn record_inputs(spent: &mut Vec<(String, i32)>, tx: &Transaction)
    ensures
        spent_set(final(spent)@) == spent_set(old(spent)@).union(
            Set::new(
                |p: (Seq<char>, i32)|
                    exists|j: int|
                        0 <= j < tx@.vin.len() && tx@.vin[j].txid == p.0 && tx@.vin[j].vout == p.1,
            ),
        ),
{
    let ghost all_inputs = Set::new(
        |p: (Seq<char>, i32)|
            exists|j: int| 0 <= j < tx@.vin.len() && tx@.vin[j].txid == p.0 && tx@.vin[j].vout == p.1,
    );
    let mut k: usize = 0;
    while k < tx.vin.len()
        invariant
            k <= tx.vin@.len(),
            spent_set(spent@) == spent_set(old(spent)@).union(
                Set::new(
                    |p: (Seq<char>, i32)|
                        exists|j: int|
                            0 <= j < k && tx@.vin[j].txid == p.0 && tx@.vin[j].vout == p.1,
                ),
            ),
        decreases tx.vin@.len() - k,
    {
        let ghost before = spent@;
        let txid = tx.vin[k].txid.clone();
        let vout = tx.vin[k].vout;
        spent.push((txid, vout));
        proof {
            let prev_part = Set::new(
                |p: (Seq<char>, i32)|
                    exists|j: int| 0 <= j < k && tx@.vin[j].txid == p.0 && tx@.vin[j].vout == p.1,
            );
            let next_part = Set::new(
                |p: (Seq<char>, i32)|
                    exists|j: int| 0 <= j < k + 1 && tx@.vin[j].txid == p.0 && tx@.vin[j].vout == p.1,
            );
            assert(tx@.vin[k as int] == tx.vin@[k as int]@);
            assert forall|p: (Seq<char>, i32)| #[trigger] spent_set(spent@).contains(p)
                == spent_set(before).union(next_part).contains(p) by {
                if spent_set(spent@).contains(p) {
                    let i = choose|i: int| 0 <= i < spent@.len() && spent@[i].0@ == p.0 && spent@[i].1 == p.1;
                    if i < before.len() {
                        assert(before[i] == spent@[i]);
                    } else {
                        assert(next_part.contains(p));
                    }
                }
                if spent_set(before).contains(p) {
                    let i = choose|i: int| 0 <= i < before.len() && before[i].0@ == p.0 && before[i].1 == p.1;
                    assert(spent@[i] == before[i]);
                }
                if next_part.contains(p) {
                    let j = choose|j: int| 0 <= j < k + 1 && tx@.vin[j].txid == p.0 && tx@.vin[j].vout == p.1;
                    if j == k {
                        assert(spent@[before.len() as int].0@ == p.0);
                    } else {
                        assert(prev_part.contains(p));
                    }
                }
            }
            assert(spent_set(spent@) =~= spent_set(before).union(next_part));
            assert(spent_set(before).union(next_part) =~= spent_set(old(spent)@).union(next_part)) by {
                assert forall|p: (Seq<char>, i32)| #[trigger] prev_part.contains(p) implies next_part.contains(p) by {
                    let j = choose|j: int| 0 <= j < k && tx@.vin[j].txid == p.0 && tx@.vin[j].vout == p.1;
                }
            }
        }
        k = k + 1;
    }
    assert(Set::new(
        |p: (Seq<char>, i32)|
            exists|j: int| 0 <= j < k && tx@.vin[j].txid == p.0 && tx@.vin[j].vout == p.1,
    ) =~= all_inputs);
}

/// Whether an input of `tx` refers to output `index` of transaction `id`.
fn names_output(tx: &Transaction, id: &String, index: i32) -> (r: bool)
    ensures
        r == exists|k: int| 0 <= k < tx@.vin.len() && tx@.vin[k].txid == id@ && tx@.vin[k].vout == index,
{
    let mut k: usize = 0;
    while k < tx.vin.len()
        invariant
            k <= tx.vin@.len(),
            forall|m: int| 0 <= m < k ==> !(#[trigger] tx@.vin[m].txid == id@ && tx@.vin[m].vout == index),
        decreases tx.vin@.len() - k,
    {
        assert(tx@.vin[k as int] == tx.vin@[k as int]@);
        if tx.vin[k].vout == index && tx.vin[k].txid == *id {
            return true;
        }
        k = k + 1;
    }
    false
}

/// Whether an input of a transaction of `txs` from position `from` on,
/// other than a coinbase's, spends output `index` of transaction `id`.
fn spent_later(txs: &Vec<Transaction>, from: usize, id: &String, index: i32) -> (r: bool)
    requires
        from <= txs@.len(),
    ensures
        r == spends(
            txs@.map_values(|x: Transaction| x@).subrange(from as int, txs@.len() as int),
            id@,
            index,
        ),
{
    let ghost models = txs@.map_values(|x: Transaction| x@);
    let ghost later = models.subrange(from as int, txs@.len() as int);
    let mut j: usize = from;
    while j < txs.len()
        invariant
            from <= j <= txs@.len(),
            models == txs@.map_values(|x: Transaction| x@),
            later == models.subrange(from as int, txs@.len() as int),
            forall|t: int, k: int|
                0 <= t < j - from && !is_coinbase_model(later[t]) && 0 <= k < later[t].vin.len() ==> !(
                #[trigger] later[t].vin[k].txid == id@ && later[t].vin[k].vout == index),
        decreases txs@.len() - j,
    {
        let tx = &txs[j];
        assert(later[j - from] == tx@);
        if !tx.is_coinbase() && names_output(tx, id, index) {
            proof {
                let k = choose|k: int| 0 <= k < tx@.vin.len() && tx@.vin[k].txid == id@ && tx@.vin[k].vout == index;
                assert(later[j - from].vin[k].txid == id@);
            }
            return true;
        }
        j = j + 1;
    }
    false
}

/// Lists the outputs of transaction `t` of `txs` that `spent` does not
/// record and that no later transaction of `txs` spends.
fn collect_transaction(
    entries: &mut Vec<(String, TXOutputs)>,
    spent: &Vec<(String, i32)>,
    txs: &Vec<Transaction>,
    t: usize,
    Ghost(skip): Ghost<Set<(Seq<char>, i32)>>,
)
    requires
        t < txs@.len(),
        distinct_keys(old(entries)@),
        skip == spent_set(spent@).union(
            spent_outputs(txs@.map_values(|x: Transaction| x@).subrange(t + 1, txs@.len() as int)),
        ),
    ensures
        distinct_keys(final(entries)@),
        key_map(final(entries)@) == add_outputs(
            key_map(old(entries)@),
            txs@[t as int]@.id,
            kept_outputs(txs@[t as int]@, skip, txs@[t as int]@.vout.len() as int),
        ),
{
    let tx = &txs[t];
    let count = txs.len();
    assert(t < count);
    let next_t: usize = t + 1;
    let ghost before = key_map(entries@);
    let ghost later = txs@.map_values(|x: Transaction| x@).subrange(t + 1, txs@.len() as int);
    assert(add_outputs(before, tx@.id, kept_outputs(tx@, skip, 0)) =~= before);
    let mut index: usize = 0;
    while index < tx.vout.len()
        invariant
            index <= tx.vout@.len(),
            t < txs@.len(),
            next_t == t + 1,
            tx == &txs@[t as int],
            later == txs@.map_values(|x: Transaction| x@).subrange(t + 1, txs@.len() as int),
            skip == spent_set(spent@).union(spent_outputs(later)),
            distinct_keys(entries@),
            key_map(entries@) == add_outputs(before, tx@.id, kept_outputs(tx@, skip, index as int)),
        decreases tx.vout@.len() - index,
    {
        let ghost kept = kept_outputs(tx@, skip, index as int);
        let here = is_spent(spent, &tx.id, index as i32);
        let after = spent_later(txs, next_t, &tx.id, index as i32);
        proof {
            lemma_spent_outputs(later, tx@.id, index as i32);
        }
        if !here && !after {
            let out = tx.vout[index].clone();
            let ghost prior = key_map(entries@);
            add_output(entries, &tx.id, out);
            proof {
                assert(tx@.vout[index as int] == tx.vout@[index as int]@);
                let next = kept_outputs(tx@, skip, index + 1);
                assert(next == kept.push(tx@.vout[index as int]));
                assert(outputs_or_empty(prior, tx@.id) == outputs_or_empty(before, tx@.id) + kept);
                assert(outputs_or_empty(before, tx@.id) + next =~= (outputs_or_empty(before, tx@.id) + kept).push(tx@.vout[index as int]));
                assert(key_map(entries@) =~= add_outputs(before, tx@.id, next));
            }
        }
        index = index + 1;
    }
}

/// Records every output that an input of a transaction of `txs`, other than
/// a coinbase, spends.
fn record_block_spends(spent: &mut Vec<(String, i32)>, txs: &Vec<Transaction>, Ghost(done): Ghost<Seq<TransactionModel>>)
    requires
        spent_set(old(spent)@) == spent_outputs(done),
    ensures
        spent_set(final(spent)@) == spent_outputs(done + txs@.map_values(|x: Transaction| x@)),
{
    let ghost models = txs@.map_values(|x: Transaction| x@);
    let mut t: usize = 0;
    assert(done + models.take(0) =~= done);
    while t < txs.len()
        invariant
            t <= txs@.len(),
            models == txs@.map_values(|x: Transaction| x@),
            spent_set(spent@) == spent_outputs(done + models.take(t as int)),
        decreases txs@.len() - t,
    {
        let tx = &txs[t];
        let ghost cur = done + models.take(t as int);
        let ghost spent_before = spent_outputs(cur);
        if !tx.is_coinbase() {
            record_inputs(spent, tx);
            proof {
                assert(inputs_spent(tx@) =~= Set::new(
                    |p: (Seq<char>, i32)|
                        exists|j: int|
                            0 <= j < tx@.vin.len() && tx@.vin[j].txid == p.0 && tx@.vin[j].vout == p.1,
                ));
            }
        }
        proof {
            let all = cur.push(tx@);
            assert(all.drop_last() =~= cur);
            assert(spent_outputs(all) == spent_before.union(inputs_spent(tx@)));
            if is_coinbase_model(tx@) {
                assert(spent_before.union(inputs_spent(tx@)) =~= spent_before);
            }
            assert(models[t as int] == txs@[t as int]@);
            assert(all =~= done + models.take(t + 1));
        }
        t = t + 1;
    }
    assert(models.take(t as int) =~= models);
}

/// FindUTXO finds and returns all unspent transaction outputs: `blocks` is
/// the chain from its tip back to the genesis block. Going from the tip
/// back, each block lists the outputs of its transactions that no newer
/// block and no later transaction of the block spends; then the block's own
/// spends are recorded for the older blocks.
pub fn find_utxo(blocks: &Vec<Block>) -> (r: UtxoMap)
    ensures
        r.view() == unspent_outputs(blocks@.map_values(|b: Block| b@)),
{
    let ghost models = blocks@.map_values(|b: Block| b@);
    let mut spent: Vec<(String, i32)> = Vec::new();
    let mut entries: Vec<(String, TXOutputs)> = Vec::new();
    proof {
        assert(models.take(0) =~= seq![]);
        assert(key_map(entries@) =~= Map::empty());
        assert(spent_set(spent@) =~= Set::empty());
    }
    let mut b: usize = 0;
    while b < blocks.len()
        invariant
            b <= blocks@.len(),
            models == blocks@.map_values(|b: Block| b@),
            spent_set(spent@) == spent_outputs(chain_transactions(models.take(b as int))),
            distinct_keys(entries@),
            key_map(entries@) == chain_unspent(models, b as int),
        decreases blocks@.len() - b,
    {
        let txs = blocks[b].get_transaction();
        let ghost base = chain_unspent(models, b as int);
        let ghost tm = txs@.map_values(|x: Transaction| x@);
        assert(tm == models[b as int].transactions);
        let mut t: usize = 0;
        while t < txs.len()
            invariant
                t <= txs@.len(),
                b < blocks@.len(),
                models == blocks@.map_values(|b: Block| b@),
                tm == txs@.map_values(|x: Transaction| x@),
                tm == models[b as int].transactions,
                spent_set(spent@) == spent_outputs(chain_transactions(models.take(b as int))),
                distinct_keys(entries@),
                key_map(entries@) == block_unspent(base, models, b as int, t as int),
            decreases txs@.len() - t,
        {
            collect_transaction(&mut entries, &spent, txs, t, Ghost(spent_for(models, b as int, t as int)));
            proof {
                assert(tm[t as int] == txs@[t as int]@);
            }
            t = t + 1;
        }
        record_block_spends(&mut spent, txs, Ghost(chain_transactions(models.take(b as int))));
        proof {
            assert(models.take(b + 1).drop_last() =~= models.take(b as int));
            assert(models.take(b + 1).last() == models[b as int]);
        }
        b = b + 1;
    }
    proof {
        assert(models.take(b as int) =~= models);
    }
    UtxoMap { entries }
}

} // verus!

verus! {

/// What `kept_outputs` holds: each kept output is one among the first `n`
/// that `spent` does not hold, and each such output is kept.
pub proof fn lemma_kept_outputs(tx: TransactionModel, spent: Set<(Seq<char>, i32)>, n: int)
    requires
        0 <= n <= tx.vout.len(),
    ensures
        forall|k: int|
            0 <= k < kept_outputs(tx, spent, n).len() ==> exists|i: int|
                0 <= i < n && !spent.contains((tx.id, i as i32)) && tx.vout[i] == #[trigger] kept_outputs(
                    tx,
                    spent,
                    n,
                )[k],
        forall|i: int|
            0 <= i < n && !spent.contains((tx.id, i as i32)) ==> kept_outputs(tx, spent, n).contains(
                #[trigger] tx.vout[i],
            ),
    decreases n,
{
    if n > 0 {
        lemma_kept_outputs(tx, spent, n - 1);
        let prev = kept_outputs(tx, spent, n - 1);
        let cur = kept_outputs(tx, spent, n);
        assert forall|k: int| 0 <= k < cur.len() implies exists|i: int|
            0 <= i < n && !spent.contains((tx.id, i as i32)) && tx.vout[i] == #[trigger] cur[k] by {
            if k < prev.len() {
                assert(cur[k] == prev[k]);
                let i = choose|i: int|
                    0 <= i < n - 1 && !spent.contains((tx.id, i as i32)) && tx.vout[i] == #[trigger] prev[k];
                assert(tx.vout[i] == cur[k]);
            } else {
                assert(tx.vout[n - 1] == cur[k]);
            }
        }
        assert forall|i: int| 0 <= i < n && !spent.contains((tx.id, i as i32)) implies cur.contains(
            #[trigger] tx.vout[i],
        ) by {
            if i < n - 1 {
                assert(prev.contains(tx.vout[i]));
                let k = choose|k: int| 0 <= k < prev.len() && prev[k] == tx.vout[i];
                assert(cur[k] == prev[k]);
            } else {
                assert(cur[cur.len() - 1] == tx.vout[i]);
            }
        }
    }
}

/// When `spent` holds none of the first `n` outputs of `tx`, all of them are
/// kept.
proof fn lemma_kept_all(tx: TransactionModel, spent: Set<(Seq<char>, i32)>, n: int)
    requires
        0 <= n <= tx.vout.len(),
        forall|i: int| 0 <= i < n ==> !#[trigger] spent.contains((tx.id, i as i32)),
    ensures
        kept_outputs(tx, spent, n) == tx.vout.take(n),
    decreases n,
{
    if n > 0 {
        lemma_kept_all(tx, spent, n - 1);
        assert(tx.vout.take(n - 1).push(tx.vout[n - 1]) =~= tx.vout.take(n));
    } else {
        assert(tx.vout.take(0) =~= seq![]);
    }
}

/// `spent_outputs` holds exactly the outputs that some input of a
/// transaction other than a coinbase refers to.
pub proof fn lemma_spent_outputs(txs: Seq<TransactionModel>, id: Seq<char>, index: i32)
    ensures
        spent_outputs(txs).contains((id, index)) == spends(txs, id, index),
    decreases txs.len(),
{
    if txs.len() > 0 {
        let p = txs.drop_last();
        let tx = txs.last();
        lemma_spent_outputs(p, id, index);
        if spends(p, id, index) {
            let (t, j) = choose|t: int, j: int|
                0 <= t < p.len() && !is_coinbase_model(p[t]) && 0 <= j < p[t].vin.len() && p[t].vin[j].txid
                    == id && p[t].vin[j].vout == index;
            assert(txs[t] == p[t]);
        }
        if inputs_spent(tx).contains((id, index)) {
            let j = choose|j: int| 0 <= j < tx.vin.len() && tx.vin[j].txid == id && tx.vin[j].vout == index;
            assert(txs[txs.len() - 1] == tx);
        }
        if spends(txs, id, index) {
            let (t, j) = choose|t: int, j: int|
                0 <= t < txs.len() && !is_coinbase_model(txs[t]) && 0 <= j < txs[t].vin.len()
                    && txs[t].vin[j].txid == id && txs[t].vin[j].vout == index;
            if t < p.len() {
                assert(p[t] == txs[t]);
            } else {
                assert(inputs_spent(tx).contains((id, index)));
            }
        }
    }
}

/// The outputs the transaction at `(b, t)` must not list are exactly those
/// that a newer block or a later transaction of its block spends.
pub proof fn lemma_spent_for(blocks: Seq<BlockModel>, b: int, t: int, id: Seq<char>, index: i32)
    ensures
        spent_for(blocks, b, t).contains((id, index)) == spent_by_newer(blocks, b, t, id, index),
{
    lemma_spent_outputs(chain_transactions(blocks.take(b)), id, index);
    lemma_spent_outputs(
        blocks[b].transactions.subrange(t + 1, blocks[b].transactions.len() as int),
        id,
        index,
    );
}

/// The positions, among the first `n` outputs of `tx`, of the outputs that
/// `kept_outputs` keeps: one per output that `spent` does not hold, in
/// increasing order.
proof fn kept_positions(tx: TransactionModel, spent: Set<(Seq<char>, i32)>, n: int) -> (idx: Seq<int>)
    requires
        0 <= n <= tx.vout.len(),
    ensures
        idx.len() == kept_outputs(tx, spent, n).len(),
        forall|k: int| 0 <= k < idx.len() ==> 0 <= #[trigger] idx[k] < n && !spent.contains((tx.id, idx[k] as i32))
            && kept_outputs(tx, spent, n)[k] == tx.vout[idx[k]],
        forall|k1: int, k2: int| 0 <= k1 < k2 < idx.len() ==> #[trigger] idx[k1] < #[trigger] idx[k2],
        forall|i: int| 0 <= i < n && !spent.contains((tx.id, i as i32)) ==> #[trigger] idx.contains(i),
    decreases n,
{
    if n <= 0 {
        Seq::empty()
    } else {
        let prev = kept_positions(tx, spent, n - 1);
        if spent.contains((tx.id, (n - 1) as i32)) {
            assert forall|i: int| 0 <= i < n && !spent.contains((tx.id, i as i32)) implies #[trigger] prev.contains(i) by {
                assert(i < n - 1);
            }
            prev
        } else {
            let idx = prev.push(n - 1);
            let kept = kept_outputs(tx, spent, n);
            assert(kept == kept_outputs(tx, spent, n - 1).push(tx.vout[n - 1]));
            assert forall|k: int| 0 <= k < idx.len() implies 0 <= #[trigger] idx[k] < n && !spent.contains(
                (tx.id, idx[k] as i32),
            ) && kept[k] == tx.vout[idx[k]] by {
                if k < prev.len() {
                    assert(idx[k] == prev[k]);
                }
            }
            assert forall|k1: int, k2: int| 0 <= k1 < k2 < idx.len() implies #[trigger] idx[k1] < #[trigger] idx[k2] by {
                assert(idx[k1] == prev[k1]);
                if k2 < prev.len() {
                    assert(idx[k2] == prev[k2]);
                }
            }
            assert forall|i: int| 0 <= i < n && !spent.contains((tx.id, i as i32)) implies #[trigger] idx.contains(i) by {
                if i < n - 1 {
                    assert(prev.contains(i));
                    let k = choose|k: int| 0 <= k < prev.len() && prev[k] == i;
                    assert(idx[k] == i);
                } else {
                    assert(idx[prev.len() as int] == i);
                }
            }
            idx
        }
    }
}

/// A block whose first `n` transactions all have other ids leaves the
/// entry under `id` as it was.
proof fn lemma_block_other_id(
    m: Map<Seq<char>, Seq<TxOutputModel>>,
    blocks: Seq<BlockModel>,
    b: int,
    n: int,
    id: Seq<char>,
)
    requires
        0 <= n <= blocks[b].transactions.len(),
        forall|t: int| 0 <= t < n ==> #[trigger] blocks[b].transactions[t].id != id,
    ensures
        block_unspent(m, blocks, b, n).contains_key(id) == m.contains_key(id),
        m.contains_key(id) ==> block_unspent(m, blocks, b, n)[id] == m[id],
    decreases n,
{
    if n > 0 {
        lemma_block_other_id(m, blocks, b, n - 1, id);
        assert(blocks[b].transactions[n - 1].id != id);
    }
}

/// Where transaction `t0` is the only one of the first `n` of block `b`
/// with its id, and `m` has no entry under that id, the block lists under
/// it what `kept_outputs` keeps of that transaction.
proof fn lemma_block_one_id(
    m: Map<Seq<char>, Seq<TxOutputModel>>,
    blocks: Seq<BlockModel>,
    b: int,
    n: int,
    t0: int,
)
    requires
        0 <= t0 < n <= blocks[b].transactions.len(),
        !m.contains_key(blocks[b].transactions[t0].id),
        forall|t: int| 0 <= t < n && t != t0 ==> #[trigger] blocks[b].transactions[t].id
            != blocks[b].transactions[t0].id,
    ensures
        ({
            let tx = blocks[b].transactions[t0];
            let kept = kept_outputs(tx, spent_for(blocks, b, t0), tx.vout.len() as int);
            &&& block_unspent(m, blocks, b, n).contains_key(tx.id) == (kept.len() > 0)
            &&& block_unspent(m, blocks, b, n).contains_key(tx.id) ==> block_unspent(m, blocks, b, n)[tx.id] == kept
        }),
    decreases n,
{
    let tx = blocks[b].transactions[t0];
    let kept = kept_outputs(tx, spent_for(blocks, b, t0), tx.vout.len() as int);
    if n - 1 == t0 {
        lemma_block_other_id(m, blocks, b, n - 1, tx.id);
        let prev = block_unspent(m, blocks, b, n - 1);
        assert(outputs_or_empty(prev, tx.id) == Seq::<TxOutputModel>::empty());
        assert(Seq::<TxOutputModel>::empty() + kept =~= kept);
    } else {
        lemma_block_one_id(m, blocks, b, n - 1, t0);
        assert(blocks[b].transactions[n - 1].id != tx.id);
    }
}

/// Where transaction `t0` of block `b0` is the only one of the chain with
/// its id, the first `nb` blocks list under that id nothing before block
/// `b0` is reached, and from then on what `kept_outputs` keeps of it.
proof fn lemma_chain_one_id(blocks: Seq<BlockModel>, nb: int, b0: int, t0: int)
    requires
        0 <= nb <= blocks.len(),
        0 <= b0 < blocks.len(),
        0 <= t0 < blocks[b0].transactions.len(),
        forall|b: int, t: int|
            0 <= b < blocks.len() && 0 <= t < blocks[b].transactions.len() && (b != b0 || t != t0)
                ==> #[trigger] blocks[b].transactions[t].id != blocks[b0].transactions[t0].id,
    ensures
        ({
            let tx = blocks[b0].transactions[t0];
            let kept = kept_outputs(tx, spent_for(blocks, b0, t0), tx.vout.len() as int);
            &&& nb <= b0 ==> !chain_unspent(blocks, nb).contains_key(tx.id)
            &&& nb > b0 ==> chain_unspent(blocks, nb).contains_key(tx.id) == (kept.len() > 0)
            &&& nb > b0 && chain_unspent(blocks, nb).contains_key(tx.id) ==> chain_unspent(blocks, nb)[tx.id] == kept
        }),
    decreases nb,
{
    let id = blocks[b0].transactions[t0].id;
    if nb > 0 {
        lemma_chain_one_id(blocks, nb - 1, b0, t0);
        let m = chain_unspent(blocks, nb - 1);
        let n = blocks[nb - 1].transactions.len() as int;
        if nb - 1 == b0 {
            lemma_block_one_id(m, blocks, b0, n, t0);
        } else {
            assert forall|t: int| 0 <= t < n implies #[trigger] blocks[nb - 1].transactions[t].id != id by {}
            lemma_block_other_id(m, blocks, nb - 1, n, id);
        }
    }
}

/// Where a transaction of the chain's transaction list comes from: a block
/// and a position in it.
proof fn chain_position_origin(blocks: Seq<BlockModel>, p: int) -> (bt: (int, int))
    requires
        0 <= p < chain_transactions(blocks).len(),
    ensures
        0 <= bt.0 < blocks.len(),
        0 <= bt.1 < blocks[bt.0].transactions.len(),
        chain_transactions(blocks)[p] == blocks[bt.0].transactions[bt.1],
    decreases blocks.len(),
{
    let init = blocks.drop_last();
    let pre = chain_transactions(init);
    assert(chain_transactions(blocks) == pre + blocks.last().transactions);
    if p < pre.len() {
        let bt = chain_position_origin(init, p);
        assert(init[bt.0] == blocks[bt.0]);
        bt
    } else {
        ((blocks.len() - 1) as int, p - pre.len())
    }
}

/// Where a transaction of a block stands in the chain's transaction list.
proof fn chain_position_of(blocks: Seq<BlockModel>, b: int, t: int) -> (p: int)
    requires
        0 <= b < blocks.len(),
        0 <= t < blocks[b].transactions.len(),
    ensures
        0 <= p < chain_transactions(blocks).len(),
        chain_transactions(blocks)[p] == blocks[b].transactions[t],
    decreases blocks.len(),
{
    let init = blocks.drop_last();
    let pre = chain_transactions(init);
    assert(chain_transactions(blocks) == pre + blocks.last().transactions);
    if b < init.len() {
        assert(init[b] == blocks[b]);
        chain_position_of(init, b, t)
    } else {
        pre.len() + t
    }
}

/// An input of a transaction other than a coinbase, in a block before `b` (a
/// newer one) or after position `t` in block `b`, names output `index` of
/// transaction `id`.
spec fn named_by_newer_input(blocks: Seq<BlockModel>, b: int, t: int, id: Seq<char>, index: i32) -> bool {
    exists|b2: int, t2: int, j: int|
        0 <= b2 <= b && 0 <= t2 < blocks[b2].transactions.len() && (b2 < b || t2 > t) && !is_coinbase_model(
            blocks[b2].transactions[t2],
        ) && 0 <= j < blocks[b2].transactions[t2].vin.len() && #[trigger] blocks[b2].transactions[t2].vin[j].txid
            == id && blocks[b2].transactions[t2].vin[j].vout == index
}

proof fn lemma_spent_by_newer_sound(blocks: Seq<BlockModel>, b: int, t: int, id: Seq<char>, index: i32)
    requires
        0 <= b < blocks.len(),
        0 <= t < blocks[b].transactions.len(),
        spent_by_newer(blocks, b, t, id, index),
    ensures
        named_by_newer_input(blocks, b, t, id, index),
{
    let newer = blocks.take(b);
    let ct = chain_transactions(newer);
    let txs = blocks[b].transactions;
    let later = txs.subrange(t + 1, txs.len() as int);
    if spends(ct, id, index) {
        let (p, j) = choose|p: int, j: int|
            0 <= p < ct.len() && !is_coinbase_model(ct[p]) && 0 <= j < ct[p].vin.len() && ct[p].vin[j].txid == id
                && ct[p].vin[j].vout == index;
        let bt = chain_position_origin(newer, p);
        assert(newer[bt.0] == blocks[bt.0]);
        assert(blocks[bt.0].transactions[bt.1].vin[j].txid == id);
    } else {
        let (q, j) = choose|q: int, j: int|
            0 <= q < later.len() && !is_coinbase_model(later[q]) && 0 <= j < later[q].vin.len() && later[q].vin[j].txid
                == id && later[q].vin[j].vout == index;
        assert(later[q] == txs[t + 1 + q]);
        assert(blocks[b].transactions[t + 1 + q].vin[j].txid == id);
    }
}

proof fn lemma_spent_by_newer_complete(blocks: Seq<BlockModel>, b: int, t: int, id: Seq<char>, index: i32)
    requires
        0 <= b < blocks.len(),
        0 <= t < blocks[b].transactions.len(),
        named_by_newer_input(blocks, b, t, id, index),
    ensures
        spent_by_newer(blocks, b, t, id, index),
{
    let newer = blocks.take(b);
    let ct = chain_transactions(newer);
    let txs = blocks[b].transactions;
    let later = txs.subrange(t + 1, txs.len() as int);
    let (b2, t2, j) = choose|b2: int, t2: int, j: int|
        0 <= b2 <= b && 0 <= t2 < blocks[b2].transactions.len() && (b2 < b || t2 > t) && !is_coinbase_model(
            blocks[b2].transactions[t2],
        ) && 0 <= j < blocks[b2].transactions[t2].vin.len() && #[trigger] blocks[b2].transactions[t2].vin[j].txid
            == id && blocks[b2].transactions[t2].vin[j].vout == index;
    if b2 < b {
        assert(newer[b2] == blocks[b2]);
        let p = chain_position_of(newer, b2, t2);
        assert(ct[p].vin[j].txid == id);
        assert(spends(ct, id, index));
    } else {
        assert(later[t2 - t - 1] == txs[t2]);
        assert(later[t2 - t - 1].vin[j].txid == id);
        assert(spends(later, id, index));
    }
}

/// Each output of a transaction is listed once, and only if unspent: where
/// no other transaction of the chain has its id, the map lists under that
/// id the outputs at the positions `idx` and nothing else, where `idx`
/// holds, in increasing order and each once, exactly the positions of the
/// transaction's outputs that no input of a newer block (one before `b`),
/// and no input of a later transaction of block `b`, names, inputs of
/// coinbase transactions aside. The entry exists exactly when there is such
/// an output.
pub proof fn lemma_unspent_lists_each_output_once(blocks: Seq<BlockModel>, b: int, t: int)
    requires
        0 <= b < blocks.len(),
        0 <= t < blocks[b].transactions.len(),
        forall|b2: int, t2: int|
            0 <= b2 < blocks.len() && 0 <= t2 < blocks[b2].transactions.len() && (b2 != b || t2 != t)
                ==> #[trigger] blocks[b2].transactions[t2].id != blocks[b].transactions[t].id,
    ensures
        exists|idx: Seq<int>|
            #![trigger idx.len()]
            {
            let tx = blocks[b].transactions[t];
            let u = unspent_outputs(blocks);
            &&& forall|k: int| 0 <= k < idx.len() ==> 0 <= #[trigger] idx[k] < tx.vout.len()
                && !(exists|b2: int, t2: int, j: int|
                    0 <= b2 <= b && 0 <= t2 < blocks[b2].transactions.len() && (b2 < b || t2 > t)
                        && !is_coinbase_model(blocks[b2].transactions[t2]) && 0 <= j < blocks[b2].transactions[t2].vin.len()
                        && #[trigger] blocks[b2].transactions[t2].vin[j].txid == tx.id
                        && blocks[b2].transactions[t2].vin[j].vout == idx[k] as i32)
            &&& forall|k1: int, k2: int| 0 <= k1 < k2 < idx.len() ==> #[trigger] idx[k1] < #[trigger] idx[k2]
            &&& forall|i: int| 0 <= i < tx.vout.len() && !(exists|b2: int, t2: int, j: int|
                    0 <= b2 <= b && 0 <= t2 < blocks[b2].transactions.len() && (b2 < b || t2 > t)
                        && !is_coinbase_model(blocks[b2].transactions[t2]) && 0 <= j < blocks[b2].transactions[t2].vin.len()
                        && #[trigger] blocks[b2].transactions[t2].vin[j].txid == tx.id
                        && blocks[b2].transactions[t2].vin[j].vout == i as i32)
                ==> #[trigger] idx.contains(i)
            &&& u.contains_key(tx.id) == (idx.len() > 0)
            &&& u.contains_key(tx.id) ==> u[tx.id].len() == idx.len()
            &&& forall|k: int| 0 <= k < idx.len() && u.contains_key(tx.id) ==> u[tx.id][k] == tx.vout[#[trigger] idx[k]]
        },
{
    let tx = blocks[b].transactions[t];
    let spent = spent_for(blocks, b, t);
    let n = tx.vout.len() as int;
    lemma_chain_one_id(blocks, blocks.len() as int, b, t);
    let idx = kept_positions(tx, spent, n);
    let u = unspent_outputs(blocks);
    assert forall|k: int| 0 <= k < idx.len() implies 0 <= #[trigger] idx[k] < tx.vout.len()
        && !named_by_newer_input(blocks, b, t, tx.id, idx[k] as i32) by {
        lemma_spent_for(blocks, b, t, tx.id, idx[k] as i32);
        if named_by_newer_input(blocks, b, t, tx.id, idx[k] as i32) {
            lemma_spent_by_newer_complete(blocks, b, t, tx.id, idx[k] as i32);
        }
    }
    assert forall|i: int| 0 <= i < tx.vout.len() && !named_by_newer_input(blocks, b, t, tx.id, i as i32)
        implies #[trigger] idx.contains(i) by {
        lemma_spent_for(blocks, b, t, tx.id, i as i32);
        if spent_by_newer(blocks, b, t, tx.id, i as i32) {
            lemma_spent_by_newer_sound(blocks, b, t, tx.id, i as i32);
        }
    }
}

/// The entries of `m` stay, each list a prefix of what it becomes.
proof fn lemma_block_keeps(
    m: Map<Seq<char>, Seq<TxOutputModel>>,
    blocks: Seq<BlockModel>,
    b: int,
    n: int,
    id: Seq<char>,
)
    requires
        m.contains_key(id),
    ensures
        block_unspent(m, blocks, b, n).contains_key(id),
        block_unspent(m, blocks, b, n)[id].len() >= m[id].len(),
        forall|k: int| 0 <= k < m[id].len() ==> block_unspent(m, blocks, b, n)[id][k] == m[id][k],
    decreases n,
{
    if n > 0 {
        lemma_block_keeps(m, blocks, b, n - 1, id);
        let prev = block_unspent(m, blocks, b, n - 1);
        let tx = blocks[b].transactions[n - 1];
        let kept = kept_outputs(tx, spent_for(blocks, b, n - 1), tx.vout.len() as int);
        if kept.len() != 0 && id == tx.id {
            assert forall|k: int| 0 <= k < m[id].len() implies block_unspent(m, blocks, b, n)[id][k] == m[id][k] by {
                assert((prev[id] + kept)[k] == prev[id][k]);
            }
        }
    }
}

/// Each output that block `b` adds to `m` is an output of one of its first
/// `n` transactions that nothing newer spends.
proof fn lemma_block_sound(
    m: Map<Seq<char>, Seq<TxOutputModel>>,
    blocks: Seq<BlockModel>,
    b: int,
    n: int,
    id: Seq<char>,
    k: int,
)
    requires
        0 <= n <= blocks[b].transactions.len(),
        block_unspent(m, blocks, b, n).contains_key(id),
        0 <= k < block_unspent(m, blocks, b, n)[id].len(),
    ensures
        (m.contains_key(id) && k < m[id].len() && block_unspent(m, blocks, b, n)[id][k] == m[id][k])
            || exists|t: int, i: int|
            0 <= t < n && blocks[b].transactions[t].id == id && 0 <= i < blocks[b].transactions[t].vout.len()
                && blocks[b].transactions[t].vout[i] == block_unspent(m, blocks, b, n)[id][k]
                && !spent_for(blocks, b, t).contains((id, i as i32)),
    decreases n,
{
    if n > 0 {
        let prev = block_unspent(m, blocks, b, n - 1);
        let tx = blocks[b].transactions[n - 1];
        let spent = spent_for(blocks, b, n - 1);
        let kept = kept_outputs(tx, spent, tx.vout.len() as int);
        let o = block_unspent(m, blocks, b, n)[id][k];
        if kept.len() == 0 || id != tx.id || (prev.contains_key(id) && k < prev[id].len()) {
            lemma_block_sound(m, blocks, b, n - 1, id, k);
        } else {
            let base = outputs_or_empty(prev, id);
            assert(o == kept[k - base.len()]);
            lemma_kept_outputs(tx, spent, tx.vout.len() as int);
            let i = choose|i: int|
                0 <= i < tx.vout.len() && !spent.contains((tx.id, i as i32)) && tx.vout[i] == kept[k - base.len()];
        }
    }
}

/// Each output of one of the first `n` transactions of block `b` that
/// nothing newer spends is listed under its transaction's id.
proof fn lemma_block_complete(
    m: Map<Seq<char>, Seq<TxOutputModel>>,
    blocks: Seq<BlockModel>,
    b: int,
    n: int,
    t: int,
    i: int,
)
    requires
        0 <= t < n <= blocks[b].transactions.len(),
        0 <= i < blocks[b].transactions[t].vout.len(),
        !spent_for(blocks, b, t).contains((blocks[b].transactions[t].id, i as i32)),
    ensures
        block_unspent(m, blocks, b, n).contains_key(blocks[b].transactions[t].id),
        block_unspent(m, blocks, b, n)[blocks[b].transactions[t].id].contains(blocks[b].transactions[t].vout[i]),
    decreases n,
{
    let prev = block_unspent(m, blocks, b, n - 1);
    let tx = blocks[b].transactions[n - 1];
    let spent = spent_for(blocks, b, n - 1);
    let kept = kept_outputs(tx, spent, tx.vout.len() as int);
    let id = blocks[b].transactions[t].id;
    let o = blocks[b].transactions[t].vout[i];
    if t == n - 1 {
        lemma_kept_outputs(tx, spent, tx.vout.len() as int);
        assert(kept.contains(o));
        let k = choose|k: int| 0 <= k < kept.len() && kept[k] == o;
        let base = outputs_or_empty(prev, id);
        assert((base + kept)[base.len() + k] == o);
    } else {
        lemma_block_complete(m, blocks, b, n - 1, t, i);
        let k = choose|k: int| 0 <= k < prev[id].len() && prev[id][k] == o;
        if kept.len() != 0 && id == tx.id {
            assert((prev[id] + kept)[k] == o);
        }
    }
}

/// Block `b` adds no empty entry.
proof fn lemma_block_nonempty(
    m: Map<Seq<char>, Seq<TxOutputModel>>,
    blocks: Seq<BlockModel>,
    b: int,
    n: int,
    id: Seq<char>,
)
    requires
        block_unspent(m, blocks, b, n).contains_key(id),
        m.contains_key(id) ==> m[id].len() > 0,
    ensures
        block_unspent(m, blocks, b, n)[id].len() > 0,
    decreases n,
{
    if n > 0 {
        let tx = blocks[b].transactions[n - 1];
        let kept = kept_outputs(tx, spent_for(blocks, b, n - 1), tx.vout.len() as int);
        if kept.len() == 0 || id != tx.id {
            lemma_block_nonempty(m, blocks, b, n - 1, id);
        }
    }
}

proof fn lemma_chain_sound(blocks: Seq<BlockModel>, nb: int, id: Seq<char>, k: int)
    requires
        0 <= nb <= blocks.len(),
        chain_unspent(blocks, nb).contains_key(id),
        0 <= k < chain_unspent(blocks, nb)[id].len(),
    ensures
        exists|b: int, t: int, i: int|
            0 <= b < nb && 0 <= t < blocks[b].transactions.len() && blocks[b].transactions[t].id == id && 0 <= i
                < blocks[b].transactions[t].vout.len() && blocks[b].transactions[t].vout[i] == chain_unspent(
                blocks,
                nb,
            )[id][k] && !spent_for(blocks, b, t).contains((id, i as i32)),
    decreases nb,
{
    let m = chain_unspent(blocks, nb - 1);
    let n = blocks[nb - 1].transactions.len() as int;
    lemma_block_sound(m, blocks, nb - 1, n, id, k);
    if m.contains_key(id) && k < m[id].len() && chain_unspent(blocks, nb)[id][k] == m[id][k] {
        lemma_chain_sound(blocks, nb - 1, id, k);
    }
}

proof fn lemma_chain_complete(blocks: Seq<BlockModel>, nb: int, b: int, t: int, i: int)
    requires
        0 <= b < nb <= blocks.len(),
        0 <= t < blocks[b].transactions.len(),
        0 <= i < blocks[b].transactions[t].vout.len(),
        !spent_for(blocks, b, t).contains((blocks[b].transactions[t].id, i as i32)),
    ensures
        chain_unspent(blocks, nb).contains_key(blocks[b].transactions[t].id),
        chain_unspent(blocks, nb)[blocks[b].transactions[t].id].contains(blocks[b].transactions[t].vout[i]),
    decreases nb,
{
    let m = chain_unspent(blocks, nb - 1);
    let n = blocks[nb - 1].transactions.len() as int;
    let id = blocks[b].transactions[t].id;
    let o = blocks[b].transactions[t].vout[i];
    if b == nb - 1 {
        lemma_block_complete(m, blocks, b, n, t, i);
    } else {
        lemma_chain_complete(blocks, nb - 1, b, t, i);
        lemma_block_keeps(m, blocks, nb - 1, n, id);
        let k = choose|k: int| 0 <= k < m[id].len() && m[id][k] == o;
        assert(chain_unspent(blocks, nb)[id][k] == o);
    }
}

proof fn lemma_chain_nonempty(blocks: Seq<BlockModel>, nb: int, id: Seq<char>)
    requires
        0 <= nb <= blocks.len(),
        chain_unspent(blocks, nb).contains_key(id),
    ensures
        chain_unspent(blocks, nb)[id].len() > 0,
    decreases nb,
{
    let m = chain_unspent(blocks, nb - 1);
    if m.contains_key(id) {
        lemma_chain_nonempty(blocks, nb - 1, id);
    }
    lemma_block_nonempty(m, blocks, nb - 1, blocks[nb - 1].transactions.len() as int, id);
}

/// Every entry of the unspent-output map lists at least one output.
pub proof fn lemma_unspent_entries_nonempty(blocks: Seq<BlockModel>, id: Seq<char>)
    requires
        unspent_outputs(blocks).contains_key(id),
    ensures
        unspent_outputs(blocks)[id].len() > 0,
{
    lemma_chain_nonempty(blocks, blocks.len() as int, id);
}

/// Soundness of the scan: every output listed under `id` is an output of a
/// transaction with that id that no input of a newer block, and no input of
/// a later transaction of its own block, spends.
pub proof fn lemma_unspent_sound(blocks: Seq<BlockModel>, id: Seq<char>, k: int)
    requires
        unspent_outputs(blocks).contains_key(id),
        0 <= k < unspent_outputs(blocks)[id].len(),
    ensures
        exists|b: int, t: int, i: int|
            0 <= b < blocks.len() && 0 <= t < blocks[b].transactions.len() && blocks[b].transactions[t].id == id
                && 0 <= i < blocks[b].transactions[t].vout.len() && blocks[b].transactions[t].vout[i]
                == unspent_outputs(blocks)[id][k] && !spent_by_newer(blocks, b, t, id, i as i32),
{
    lemma_chain_sound(blocks, blocks.len() as int, id, k);
    let (b, t, i) = choose|b: int, t: int, i: int|
        0 <= b < blocks.len() && 0 <= t < blocks[b].transactions.len() && blocks[b].transactions[t].id == id && 0 <= i
            < blocks[b].transactions[t].vout.len() && blocks[b].transactions[t].vout[i] == unspent_outputs(
            blocks,
        )[id][k] && !spent_for(blocks, b, t).contains((id, i as i32));
    lemma_spent_for(blocks, b, t, id, i as i32);
}

/// Completeness of the scan: an output that no input of a newer block, and
/// no input of a later transaction of its own block, spends is listed under
/// its transaction's id.
pub proof fn lemma_unspent_complete(blocks: Seq<BlockModel>, b: int, t: int, i: int)
    requires
        0 <= b < blocks.len(),
        0 <= t < blocks[b].transactions.len(),
        0 <= i < blocks[b].transactions[t].vout.len(),
        !spent_by_newer(blocks, b, t, blocks[b].transactions[t].id, i as i32),
    ensures
        unspent_outputs(blocks).contains_key(blocks[b].transactions[t].id),
        unspent_outputs(blocks)[blocks[b].transactions[t].id].contains(blocks[b].transactions[t].vout[i]),
{
    lemma_spent_for(blocks, b, t, blocks[b].transactions[t].id, i as i32);
    lemma_chain_complete(blocks, blocks.len() as int, b, t, i);
}

/// The transactions of a block put on top of a chain come first.
proof fn lemma_chain_prepend(top: BlockModel, blocks: Seq<BlockModel>)
    ensures
        chain_transactions(seq![top] + blocks) == top.transactions + chain_transactions(blocks),
    decreases blocks.len(),
{
    let all = seq![top] + blocks;
    if blocks.len() == 0 {
        assert(all.drop_last() =~= Seq::<BlockModel>::empty());
        assert(all.last() == top);
        assert(chain_transactions(all.drop_last()) == Seq::<TransactionModel>::empty());
        assert(top.transactions + Seq::<TransactionModel>::empty() =~= top.transactions);
        assert(Seq::<TransactionModel>::empty() + top.transactions =~= top.transactions);
    } else {
        assert(all.drop_last() =~= seq![top] + blocks.drop_last());
        lemma_chain_prepend(top, blocks.drop_last());
        assert(all.last() == blocks.last());
        assert(top.transactions + chain_transactions(blocks.drop_last()) + blocks.last().transactions
            =~= top.transactions + (chain_transactions(blocks.drop_last()) + blocks.last().transactions));
    }
}

/// A coinbase put first spends nothing.
proof fn lemma_spent_after_coinbase(c: TransactionModel, txs: Seq<TransactionModel>)
    requires
        is_coinbase_model(c),
    ensures
        spent_outputs(seq![c] + txs) == spent_outputs(txs),
{
    let all = seq![c] + txs;
    assert forall|p: (Seq<char>, i32)| #[trigger] spent_outputs(all).contains(p) == spent_outputs(txs).contains(p) by {
        lemma_spent_outputs(all, p.0, p.1);
        lemma_spent_outputs(txs, p.0, p.1);
        if spends(all, p.0, p.1) {
            let (t, j) = choose|t: int, j: int|
                0 <= t < all.len() && !is_coinbase_model(all[t]) && 0 <= j < all[t].vin.len() && all[t].vin[j].txid
                    == p.0 && all[t].vin[j].vout == p.1;
            assert(t != 0);
            assert(all[t] == txs[t - 1]);
        }
        if spends(txs, p.0, p.1) {
            let (t, j) = choose|t: int, j: int|
                0 <= t < txs.len() && !is_coinbase_model(txs[t]) && 0 <= j < txs[t].vin.len() && txs[t].vin[j].txid
                    == p.0 && txs[t].vin[j].vout == p.1;
            assert(all[t + 1] == txs[t]);
        }
    }
    assert(spent_outputs(all) =~= spent_outputs(txs));
}

/// Under a coinbase-only block put on top, the blocks below see the same
/// outputs as spent as before.
proof fn lemma_spent_for_below(top: BlockModel, blocks: Seq<BlockModel>, b: int, t: int)
    requires
        top.transactions.len() == 1,
        is_coinbase_model(top.transactions[0]),
        0 <= b < blocks.len(),
    ensures
        spent_for(seq![top] + blocks, b + 1, t) == spent_for(blocks, b, t),
{
    let blocks2 = seq![top] + blocks;
    assert(blocks2.take(b + 1) =~= seq![top] + blocks.take(b));
    assert(blocks2[b + 1] == blocks[b]);
    lemma_chain_prepend(top, blocks.take(b));
    assert(top.transactions =~= seq![top.transactions[0]]);
    lemma_spent_after_coinbase(top.transactions[0], chain_transactions(blocks.take(b)));
}

/// With a coinbase-only block on top, each block below adds what it added
/// before, and the coinbase's entry stays.
proof fn lemma_block_below(
    top: BlockModel,
    blocks: Seq<BlockModel>,
    m: Map<Seq<char>, Seq<TxOutputModel>>,
    b: int,
    n: int,
)
    requires
        top.transactions.len() == 1,
        is_coinbase_model(top.transactions[0]),
        0 <= b < blocks.len(),
        0 <= n <= blocks[b].transactions.len(),
        forall|t: int| 0 <= t < blocks[b].transactions.len() ==> #[trigger] blocks[b].transactions[t].id
            != top.transactions[0].id,
    ensures
        block_unspent(m.insert(top.transactions[0].id, top.transactions[0].vout), seq![top] + blocks, b + 1, n)
            == block_unspent(m, blocks, b, n).insert(top.transactions[0].id, top.transactions[0].vout),
    decreases n,
{
    let c = top.transactions[0];
    let blocks2 = seq![top] + blocks;
    if n > 0 {
        lemma_block_below(top, blocks, m, b, n - 1);
        lemma_spent_for_below(top, blocks, b, n - 1);
        assert(blocks2[b + 1] == blocks[b]);
        let tx = blocks[b].transactions[n - 1];
        assert(tx.id != c.id);
        let prev = block_unspent(m, blocks, b, n - 1);
        assert(outputs_or_empty(prev.insert(c.id, c.vout), tx.id) == outputs_or_empty(prev, tx.id));
        let kept = kept_outputs(tx, spent_for(blocks, b, n - 1), tx.vout.len() as int);
        assert(add_outputs(prev.insert(c.id, c.vout), tx.id, kept) =~= add_outputs(prev, tx.id, kept).insert(
            c.id,
            c.vout,
        ));
    }
}

/// With a coinbase-only block on top, the first `nb + 1` blocks make what
/// the first `nb` made before, plus the coinbase's entry.
proof fn lemma_chain_below(top: BlockModel, blocks: Seq<BlockModel>, nb: int)
    requires
        0 <= nb <= blocks.len(),
        top.transactions.len() == 1,
        is_coinbase_model(top.transactions[0]),
        chain_unspent(seq![top] + blocks, 1) == Map::<Seq<char>, Seq<TxOutputModel>>::empty().insert(
            top.transactions[0].id,
            top.transactions[0].vout,
        ),
        forall|b: int, t: int|
            0 <= b < blocks.len() && 0 <= t < blocks[b].transactions.len() ==> #[trigger] blocks[b].transactions[t].id
                != top.transactions[0].id,
    ensures
        chain_unspent(seq![top] + blocks, nb + 1) == chain_unspent(blocks, nb).insert(
            top.transactions[0].id,
            top.transactions[0].vout,
        ),
    decreases nb,
{
    let c = top.transactions[0];
    let blocks2 = seq![top] + blocks;
    if nb == 0 {
        assert(chain_unspent(blocks, 0) == Map::<Seq<char>, Seq<TxOutputModel>>::empty());
    } else {
        lemma_chain_below(top, blocks, nb - 1);
        let n = blocks[nb - 1].transactions.len() as int;
        assert(blocks2[nb] == blocks[nb - 1]);
        assert forall|t: int| 0 <= t < blocks[nb - 1].transactions.len() implies #[trigger] blocks[nb
            - 1].transactions[t].id != c.id by {}
        lemma_block_below(top, blocks, chain_unspent(blocks, nb - 1), nb - 1, n);
    }
}

/// A block put on top of a chain whose only transaction is a coinbase with
/// outputs and an id that no transaction of the chain has adds exactly one
/// entry to the unspent outputs: the coinbase's id with all its outputs.
pub proof fn lemma_coinbase_block_on_top(top: BlockModel, blocks: Seq<BlockModel>)
    requires
        top.transactions.len() == 1,
        is_coinbase_model(top.transactions[0]),
        top.transactions[0].vout.len() > 0,
        forall|b: int, t: int|
            0 <= b < blocks.len() && 0 <= t < blocks[b].transactions.len() ==> #[trigger] blocks[b].transactions[t].id
                != top.transactions[0].id,
    ensures
        unspent_outputs(seq![top] + blocks) == unspent_outputs(blocks).insert(
            top.transactions[0].id,
            top.transactions[0].vout,
        ),
{
    let c = top.transactions[0];
    let blocks2 = seq![top] + blocks;
    // The coinbase sees nothing spent: no block is newer, and it is alone in its block.
    assert(blocks2.take(0) =~= Seq::<BlockModel>::empty());
    assert(chain_transactions(blocks2.take(0)) == Seq::<TransactionModel>::empty());
    assert(blocks2[0] == top);
    assert(top.transactions.subrange(1, 1) =~= Seq::<TransactionModel>::empty());
    assert(spent_for(blocks2, 0, 0) =~= Set::<(Seq<char>, i32)>::empty());
    lemma_kept_all(c, spent_for(blocks2, 0, 0), c.vout.len() as int);
    assert(c.vout.take(c.vout.len() as int) =~= c.vout);
    assert(chain_unspent(blocks2, 0) == Map::<Seq<char>, Seq<TxOutputModel>>::empty());
    assert(block_unspent(Map::empty(), blocks2, 0, 0) == Map::<Seq<char>, Seq<TxOutputModel>>::empty());
    assert(outputs_or_empty(Map::empty(), c.id) == Seq::<TxOutputModel>::empty());
    assert(Seq::<TxOutputModel>::empty() + c.vout =~= c.vout);
    assert(chain_unspent(blocks2, 1) =~= Map::<Seq<char>, Seq<TxOutputModel>>::empty().insert(c.id, c.vout));
    lemma_chain_below(top, blocks, blocks.len() as int);
    assert(blocks2.len() == blocks.len() + 1);
}

} // verus!
