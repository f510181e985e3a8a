//! server of Blockchain

use vstd::prelude::*;
use crate::config::localhost_prefix;
use crate::error::BtcError;
use crate::txn::Transaction;
use crate::block::Block;

verus! {

/// A JSON document, as `serde_json` reads one: numbers are kept as their
/// text, and an object's entries are in key order with distinct keys.
#[derive(Debug)]
pub enum JsonValue {
    Null,
    Bool(bool),
    Number(String),
    Str(String),
    Array(Vec<JsonValue>),
    Object(Vec<(String, JsonValue)>),
}

#[verifier::external_type_specification]
#[verifier::external_body]
pub struct ExJsonValue(serde_json::Value);

/// The document that `serde_json` reads from `text`, if `text` is one JSON
/// document (surrounding white space aside).
pub uninterp spec fn json_document(text: Seq<char>) -> Option<JsonValue>;

/// A value of `serde_json`, as the library's document type: variant by
/// variant, numbers by their text.
#[verifier::external_body]
fn json_from_serde(v: &serde_json::Value) -> JsonValue {
    match v {
        serde_json::Value::Null => JsonValue::Null,
        serde_json::Value::Bool(b) => JsonValue::Bool(*b),
        serde_json::Value::Number(n) => JsonValue::Number(n.to_string()),
        serde_json::Value::String(x) => JsonValue::Str(x.clone()),
        serde_json::Value::Array(items) => JsonValue::Array(items.iter().map(json_from_serde).collect()),
        serde_json::Value::Object(obj) => JsonValue::Object(obj.iter().map(|(k, x)| (k.clone(), json_from_serde(x))).collect()),
    }
}

/// `serde_json::from_str` into a `serde_json::Value`: the document `text`
/// holds, or `None` where `serde_json` refuses the text. What it returns
/// depends on `text` alone; this contract names it and says nothing of
/// which texts are accepted.
#[verifier::external_body]
pub fn parse_json_document(text: &str) -> (r: Option<JsonValue>)
    ensures
        r == json_document(text@),
{
    serde_json::from_str::<serde_json::Value>(text).ok().map(|v| json_from_serde(&v))
}

/// The key of the seed list in a seeds document.
pub open spec fn seeds_key() -> Seq<char> {
    seq!['s', 'e', 'e', 'd', 's']
}

/// The value stored under `key` in an object's entries.
pub open spec fn object_get(entries: Seq<(String, JsonValue)>, key: Seq<char>) -> Option<JsonValue>
    decreases entries.len(),
{
    if entries.len() == 0 {
        None
    } else if entries[0].0@ == key {
        Some(entries[0].1)
    } else {
        object_get(entries.drop_first(), key)
    }
}

/// `v` is the string `s`.
pub open spec fn is_string(v: JsonValue, s: Seq<char>) -> bool {
    match v {
        JsonValue::Str(x) => x@ == s,
        _ => false,
    }
}

/// The strings among `items`.
pub open spec fn strings_in(items: Seq<JsonValue>) -> Set<Seq<char>> {
    Set::new(|s: Seq<char>| exists|i: int| 0 <= i < items.len() && is_string(items[i], s))
}

/// The seed nodes a seeds document names: the strings in the array under
/// `"seeds"` of the top-level object; none if the document has no such
/// array.
pub open spec fn seed_nodes(doc: JsonValue) -> Set<Seq<char>> {
    match doc {
        JsonValue::Object(entries) => match object_get(entries@, seeds_key()) {
            Some(JsonValue::Array(items)) => strings_in(items@),
            _ => Set::empty(),
        },
        _ => Set::empty(),
    }
}

/// The text of a list of strings, as a set.
pub open spec fn string_set(s: Seq<String>) -> Set<Seq<char>> {
    Set::new(|k: Seq<char>| exists|i: int| 0 <= i < s.len() && s[i]@ == k)
}

/// No two strings of the list have the same text.
pub open spec fn distinct_strings(s: Seq<String>) -> bool {
    forall|i: int, j: int| 0 <= i < s.len() && 0 <= j < s.len() && i != j ==> s[i]@ != s[j]@
}

/// Adds `addr` to `nodes` unless it is there.
fn insert_node(nodes: &mut Vec<String>, addr: String)
    requires
        distinct_strings(old(nodes)@),
    ensures
        distinct_strings(final(nodes)@),
        string_set(final(nodes)@) == string_set(old(nodes)@).insert(addr@),
{
    let mut i: usize = 0;
    while i < nodes.len()
        invariant
            i <= nodes@.len(),
            nodes@ == old(nodes)@,
            distinct_strings(nodes@),
            forall|j: int| 0 <= j < i ==> nodes@[j]@ != addr@,
        decreases nodes@.len() - i,
    {
        if nodes[i] == addr {
            assert(string_set(nodes@).contains(addr@));
            assert(string_set(nodes@).insert(addr@) =~= string_set(nodes@));
            return;
        }
        i = i + 1;
    }
    let ghost before = nodes@;
    nodes.push(addr);
    proof {
        assert forall|k: Seq<char>| #[trigger] string_set(nodes@).contains(k) == string_set(before).insert(
            addr@,
        ).contains(k) by {
            if string_set(before).contains(k) {
                let j = choose|j: int| 0 <= j < before.len() && before[j]@ == k;
                assert(nodes@[j] == before[j]);
            }
            if k == addr@ {
                assert(nodes@[before.len() as int]@ == k);
            }
            if string_set(nodes@).contains(k) && k != addr@ {
                let j = choose|j: int| 0 <= j < nodes@.len() && nodes@[j]@ == k;
                assert(before[j] == nodes@[j]);
            }
        }
        assert(string_set(nodes@) =~= string_set(before).insert(addr@));
    }
}

/// Removes `addr` from `nodes` if it is there.
fn delete_node(nodes: &mut Vec<String>, addr: String)
    requires
        distinct_strings(old(nodes)@),
    ensures
        distinct_strings(final(nodes)@),
        string_set(final(nodes)@) == string_set(old(nodes)@).remove(addr@),
{
    let mut i: usize = 0;
    while i < nodes.len()
        invariant
            i <= nodes@.len(),
            nodes@ == old(nodes)@,
            distinct_strings(nodes@),
            forall|j: int| 0 <= j < i ==> nodes@[j]@ != addr@,
        decreases nodes@.len() - i,
    {
        if nodes[i] == addr {
            let ghost before = nodes@;
            let ghost at = i as int;
            nodes.remove(i);
            proof {
                assert(nodes@ =~= before.subrange(0, at) + before.subrange(at + 1, before.len() as int));
                assert forall|a: int, b: int| 0 <= a < nodes@.len() && 0 <= b < nodes@.len() && a != b implies nodes@[a]@ != nodes@[b]@ by {
                    let a2 = if a < at { a } else { a + 1 };
                    let b2 = if b < at { b } else { b + 1 };
                    assert(nodes@[a] == before[a2]);
                    assert(nodes@[b] == before[b2]);
                }
                assert forall|k: Seq<char>| #[trigger] string_set(nodes@).contains(k) == string_set(before).remove(
                    addr@,
                ).contains(k) by {
                    if string_set(nodes@).contains(k) {
                        let j = choose|j: int| 0 <= j < nodes@.len() && nodes@[j]@ == k;
                        if j < at {
                            assert(nodes@[j] == before[j]);
                        } else {
                            assert(nodes@[j] == before[j + 1]);
                        }
                    }
                    if string_set(before).contains(k) && k != addr@ {
                        let j = choose|j: int| 0 <= j < before.len() && before[j]@ == k;
                        if j < at {
                            assert(nodes@[j] == before[j]);
                        } else {
                            assert(j != at);
                            assert(nodes@[j - 1] == before[j]);
                        }
                    }
                }
                assert(string_set(nodes@) =~= string_set(before).remove(addr@));
            }
            return;
        }
        i = i + 1;
    }
    assert(string_set(nodes@).remove(addr@) =~= string_set(nodes@));
}

/// The value stored under `key` in an object's entries.
fn object_lookup<'a>(entries: &'a Vec<(String, JsonValue)>, key: &String) -> (r: Option<&'a JsonValue>)
    ensures
        match r {
            Some(v) => object_get(entries@, key@) == Some(*v),
            None => object_get(entries@, key@) is None,
        },
{
    let mut i: usize = 0;
    assert(entries@.skip(0) =~= entries@);
    while i < entries.len()
        invariant
            i <= entries@.len(),
            object_get(entries@, key@) == object_get(entries@.skip(i as int), key@),
        decreases entries@.len() - i,
    {
        if entries[i].0 == *key {
            return Some(&entries[i].1);
        }
        assert(entries@.skip(i as int).drop_first() =~= entries@.skip(i + 1));
        i = i + 1;
    }
    None
}

/// A message between nodes, by command.
#[derive(Debug, Clone)]
pub enum Message {
    Addr(Vec<String>),
    Version(Versionmsg),
    Tx(Txmsg),
    GetData(GetDatamsg),
    GetBlock(GetBlocksmsg),
    Inv(Invmsg),
    Block(Blockmsg),
}

/// A block sent by a node.
#[derive(Debug, Clone)]
pub struct Blockmsg {
    pub addr_from: String,
    pub block: Block,
}

/// A request for the hashes of a node's blocks.
#[derive(Debug, Clone)]
pub struct GetBlocksmsg {
    pub addr_from: String,
}

/// A request for a block or a transaction.
#[derive(Debug, Clone)]
pub struct GetDatamsg {
    pub addr_from: String,
    pub kind: String,
    pub id: String,
}

/// An inventory of blocks or transactions a node has.
#[derive(Debug, Clone)]
pub struct Invmsg {
    pub addr_from: String,
    pub kind: String,
    pub items: Vec<String>,
}

/// A transaction sent by a node.
#[derive(Debug, Clone)]
pub struct Txmsg {
    pub addr_from: String,
    pub transaction: Transaction,
}

/// A node's version and chain height.
#[derive(Debug, Clone, PartialEq)]
pub struct Versionmsg {
    pub addr_from: String,
    pub version: i32,
    pub best_height: i32,
}

/// The part of a node's state that its connections share.
struct ServerInner {
    /// neighbor nodes: will be updated dynamically by communication with other nodes
    known_nodes: Vec<String>,
    /// blocks need to be fetched back
    blocks_in_transit: Vec<String>,
    /// memory pool: storing tx of one block time range
    mempool: Vec<(String, Transaction)>,
}

impl ServerInner {
    #[verifier::type_invariant]
    spec fn inv(self) -> bool {
        distinct_strings(self.known_nodes@)
    }
}

/// A node of the network.
pub struct Server {
    /// current node address(ip:port)
    node_address: String,
    /// current node mining wallet addr
    mining_address: String,
    /// commonly shared instance
    inner: ServerInner,
}

impl Server {
    /// The nodes this node knows of.
    pub closed spec fn known(&self) -> Set<Seq<char>> {
        string_set(self.inner.known_nodes@)
    }

    /// This node's address.
    pub closed spec fn address(&self) -> Seq<char> {
        self.node_address@
    }

    /// The wallet address this node mines for.
    pub closed spec fn miner(&self) -> Seq<char> {
        self.mining_address@
    }

    /// The hashes of the blocks this node waits for.
    pub closed spec fn in_transit(&self) -> Seq<String> {
        self.inner.blocks_in_transit@
    }

    /// The transactions in this node's memory pool, by id.
    pub closed spec fn mempool(&self) -> Seq<(String, Transaction)> {
        self.inner.mempool@
    }

    /// A node listening on `localhost:<port>` that mines for `miner_address`
    /// and starts out knowing the seed nodes of `seeds`.
    pub fn new(port: &str, miner_address: &str, seeds: &JsonValue) -> (r: Result<Server, BtcError>)
        ensures
            r matches Ok(s) && s.address() == localhost_prefix() + port@ && s.miner() == miner_address@
                && s.known() == seed_nodes(*seeds) && s.in_transit().len() == 0 && s.mempool().len() == 0,
    {
        let mut node_set: Vec<String> = Vec::new();
        let mut key = String::new();
        proof { reveal_strlit("seeds"); }
        key.append("seeds");
        assert(key@ == seeds_key());
        if let JsonValue::Object(obj) = seeds {
            if let Some(JsonValue::Array(items)) = object_lookup(obj, &key) {
                let mut i: usize = 0;
                while i < items.len()
                    invariant
                        i <= items@.len(),
                        distinct_strings(node_set@),
                        string_set(node_set@) == Set::new(
                            |s: Seq<char>|
                                exists|j: int| 0 <= j < i && is_string(items@[j], s),
                        ),
                    decreases items@.len() - i,
                {
                    if let JsonValue::Str(addr) = &items[i] {
                        insert_node(&mut node_set, addr.clone());
                        proof {
                            assert(string_set(node_set@) =~= Set::new(
                                |s: Seq<char>|
                                    exists|j: int|
                                        0 <= j < i + 1 && is_string(items@[j], s),
                            ));
                        }
                    } else {
                        proof {
                            assert(string_set(node_set@) =~= Set::new(
                                |s: Seq<char>|
                                    exists|j: int|
                                        0 <= j < i + 1 && is_string(items@[j], s),
                            ));
                        }
                    }
                    i = i + 1;
                }
                assert(string_set(node_set@) =~= strings_in(items@));
            } else {
                assert(string_set(node_set@) =~= Set::empty());
            }
        } else {
            assert(string_set(node_set@) =~= Set::empty());
        }
        assert(string_set(node_set@) == seed_nodes(*seeds));
        let mut node_address = String::new();
        proof { reveal_strlit("localhost:"); }
        node_address.append("localhost:");
        node_address.append(port);
        assert(node_address@ == localhost_prefix() + port@);
        let mining_address = miner_address.to_owned();
        Ok(Server {
            node_address,
            mining_address,
            inner: ServerInner { known_nodes: node_set, blocks_in_transit: Vec::new(), mempool: Vec::new() },
        })
    }

    /// A node listening on `localhost:<port>` that mines for `miner_address`
    /// and starts out knowing the seed nodes that the JSON text `text` lists;
    /// `Decoding` where `text` is no JSON document.
    pub fn from_seed_text(port: &str, miner_address: &str, text: &str) -> (r: Result<Server, BtcError>)
        ensures
            match json_document(text@) {
                Some(doc) => r matches Ok(s) && s.known() == seed_nodes(doc) && s.address() == localhost_prefix()
                    + port@ && s.miner() == miner_address@ && s.in_transit().len() == 0 && s.mempool().len() == 0,
                None => r == Err::<Server, BtcError>(BtcError::Decoding),
            },
    {
        match parse_json_document(text) {
            Some(doc) => Server::new(port, miner_address, &doc),
            None => Err(BtcError::Decoding),
        }
    }

    /// recieve sender's node_set
    pub fn handle_addr(&mut self, msg: Vec<String>) -> (r: Result<(), BtcError>)
        ensures
            r is Ok,
            final(self).known() == old(self).known().union(string_set(msg@)),
            final(self).address() == old(self).address(),
            final(self).miner() == old(self).miner(),
            final(self).in_transit() == old(self).in_transit(),
            final(self).mempool() == old(self).mempool(),
    {
        let mut i: usize = 0;
        while i < msg.len()
            invariant
                i <= msg@.len(),
                self.known() == old(self).known().union(string_set(msg@.take(i as int))),
                self.address() == old(self).address(),
                self.miner() == old(self).miner(),
                self.in_transit() == old(self).in_transit(),
                self.mempool() == old(self).mempool(),
            decreases msg@.len() - i,
        {
            self.add_nodes(msg[i].as_str());
            proof {
                assert(string_set(msg@.take(i + 1)) =~= string_set(msg@.take(i as int)).insert(msg@[i as int]@)) by {
                    assert forall|k: Seq<char>| string_set(msg@.take(i + 1)).contains(k) implies string_set(
                        msg@.take(i as int),
                    ).insert(msg@[i as int]@).contains(k) by {
                        let t = msg@.take(i + 1);
                        let j = choose|j: int| 0 <= j < t.len() && t[j]@ == k;
                        if j < i {
                            assert(msg@.take(i as int)[j] == msg@[j]);
                        }
                    }
                    assert forall|k: Seq<char>| string_set(msg@.take(i as int)).insert(msg@[i as int]@).contains(k)
                        implies string_set(msg@.take(i + 1)).contains(k) by {
                        if k == msg@[i as int]@ {
                            assert(msg@.take(i + 1)[i as int] == msg@[i as int]);
                        } else {
                            let t = msg@.take(i as int);
                            let j = choose|j: int| 0 <= j < t.len() && t[j]@ == k;
                            assert(msg@.take(i + 1)[j] == msg@[j]);
                        }
                    }
                }
                assert(old(self).known().union(string_set(msg@.take(i + 1))) =~= old(self).known().union(
                    string_set(msg@.take(i as int)),
                ).insert(msg@[i as int]@));
            }
            i = i + 1;
        }
        assert(msg@.take(i as int) =~= msg@);
        Ok(())
    }

    /// Acts on a message a connection delivered: an `addr` message makes the
    /// node learn of the nodes it lists; the others change nothing.
    pub fn handle_message(&mut self, msg: Message) -> (r: Result<(), BtcError>)
        ensures
            r is Ok,
            match msg {
                Message::Addr(list) => final(self).known() == old(self).known().union(string_set(list@)),
                _ => final(self).known() == old(self).known(),
            },
            final(self).address() == old(self).address(),
            final(self).miner() == old(self).miner(),
            final(self).in_transit() == old(self).in_transit(),
            final(self).mempool() == old(self).mempool(),
    {
        match msg {
            Message::Addr(data) => self.handle_addr(data)?,
            Message::Block(_) => (),
            Message::Inv(_) => (),
            Message::GetBlock(_) => (),
            Message::GetData(_) => (),
            Message::Tx(_) => (),
            Message::Version(_) => (),
        }
        Ok(())
    }

    /// Forgets the node `addr`.
    pub fn remove_node(&mut self, addr: &str)
        ensures
            final(self).known() == old(self).known().remove(addr@),
            final(self).address() == old(self).address(),
            final(self).miner() == old(self).miner(),
            final(self).in_transit() == old(self).in_transit(),
            final(self).mempool() == old(self).mempool(),
    {
        proof { use_type_invariant(&self.inner); }
        let mut nodes: Vec<String> = Vec::new();
        std::mem::swap(&mut nodes, &mut self.inner.known_nodes);
        delete_node(&mut nodes, addr.to_owned());
        self.inner.known_nodes = nodes;
    }

    /// Learns of the node `addr`.
    pub fn add_nodes(&mut self, addr: &str)
        ensures
            final(self).known() == old(self).known().insert(addr@),
            final(self).address() == old(self).address(),
            final(self).miner() == old(self).miner(),
            final(self).in_transit() == old(self).in_transit(),
            final(self).mempool() == old(self).mempool(),
    {
        proof { use_type_invariant(&self.inner); }
        let mut nodes: Vec<String> = Vec::new();
        std::mem::swap(&mut nodes, &mut self.inner.known_nodes);
        insert_node(&mut nodes, addr.to_owned());
        self.inner.known_nodes = nodes;
    }

    /// The nodes this node knows of, each once.
    pub fn known_nodes(&self) -> (r: Vec<String>)
        ensures
            string_set(r@) == self.known(),
            distinct_strings(r@),
    {
        proof { use_type_invariant(&self.inner); }
        self.inner.known_nodes.clone()
    }

    /// This node's address.
    pub fn node_address(&self) -> (r: String)
        ensures
            r@ == self.address(),
    {
        self.node_address.clone()
    }

    /// The wallet address this node mines for.
    pub fn mining_address(&self) -> (r: String)
        ensures
            r@ == self.miner(),
    {
        self.mining_address.clone()
    }
}

} // verus!

verus! {

/// Looking a key up in an object's entries finds the value of the first
/// entry with that key, and nothing where no entry has it.
pub proof fn lemma_object_get_first(entries: Seq<(String, JsonValue)>, key: Seq<char>)
    ensures
        forall|i: int|
            0 <= i < entries.len() && entries[i].0@ == key && (forall|j: int| 0 <= j < i ==> entries[j].0@ != key)
                ==> object_get(entries, key) == Some(#[trigger] entries[i].1),
        (forall|j: int| 0 <= j < entries.len() ==> entries[j].0@ != key) ==> object_get(entries, key) is None,
    decreases entries.len(),
{
    if entries.len() > 0 {
        let rest = entries.drop_first();
        lemma_object_get_first(rest, key);
        assert forall|i: int|
            0 <= i < entries.len() && entries[i].0@ == key && (forall|j: int| 0 <= j < i ==> entries[j].0@ != key)
                implies object_get(entries, key) == Some(#[trigger] entries[i].1) by {
            if i > 0 {
                assert(entries[0].0@ != key);
                assert(rest[i - 1] == entries[i]);
                assert forall|j: int| 0 <= j < i - 1 implies rest[j].0@ != key by {
                    assert(rest[j] == entries[j + 1]);
                }
            }
        }
        if forall|j: int| 0 <= j < entries.len() ==> entries[j].0@ != key {
            assert(entries[0].0@ != key);
            assert forall|j: int| 0 <= j < rest.len() implies rest[j].0@ != key by {
                assert(rest[j] == entries[j + 1]);
            }
        }
    }
}

/// The seed nodes of a document whose top-level object holds an array under
/// `"seeds"` are exactly the strings of that array: each string element, at
/// any position, is one, and each one is a string element.
pub proof fn lemma_seed_nodes_are_seed_strings(doc: JsonValue, entries: Vec<(String, JsonValue)>, items: Vec<JsonValue>)
    requires
        doc == JsonValue::Object(entries),
        object_get(entries@, seeds_key()) == Some(JsonValue::Array(items)),
    ensures
        forall|i: int, x: String| 0 <= i < items@.len() && items@[i] == JsonValue::Str(x) ==> seed_nodes(doc).contains(x@),
        forall|s: Seq<char>| seed_nodes(doc).contains(s) ==> exists|i: int, x: String|
            0 <= i < items@.len() && items@[i] == JsonValue::Str(x) && x@ == s,
{
    assert forall|i: int, x: String| 0 <= i < items@.len() && items@[i] == JsonValue::Str(x) implies seed_nodes(doc).contains(x@) by {
        assert(is_string(items@[i], x@));
    }
    assert forall|s: Seq<char>| seed_nodes(doc).contains(s) implies exists|i: int, x: String|
        0 <= i < items@.len() && items@[i] == JsonValue::Str(x) && x@ == s by {
        let i = choose|i: int| 0 <= i < items@.len() && is_string(items@[i], s);
        match items@[i] {
            JsonValue::Str(x) => { assert(items@[i] == JsonValue::Str(x) && x@ == s); },
            _ => {},
        }
    }
}

/// A document that is not an object, or whose object has no array under
/// `"seeds"`, names no seed node.
pub proof fn lemma_no_seed_array_no_seeds(doc: JsonValue)
    requires
        !(doc matches JsonValue::Object(entries) && object_get(entries@, seeds_key()) matches Some(JsonValue::Array(_))),
    ensures
        seed_nodes(doc) == Set::<Seq<char>>::empty(),
{
}

/// Forgetting a node right after learning of it leaves the other known
/// nodes as they were, and the node unknown.
pub proof fn lemma_add_then_remove(
    start: Set<Seq<char>>,
    added: Set<Seq<char>>,
    removed: Set<Seq<char>>,
    addr: Seq<char>,
)
    requires
        added == start.insert(addr),
        removed == added.remove(addr),
    ensures
        removed == start.remove(addr),
        !removed.contains(addr),
        added.contains(addr),
{
    assert(removed =~= start.remove(addr));
}

/// Learning of a node twice is the same as learning of it once.
pub proof fn lemma_add_idempotent(start: Set<Seq<char>>, addr: Seq<char>)
    ensures
        start.insert(addr).insert(addr) == start.insert(addr),
{
    assert(start.insert(addr).insert(addr) =~= start.insert(addr));
}

} // verus!
