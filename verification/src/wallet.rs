//! Wallets: Ed25519 key pairs and the addresses derived from them.

use vstd::prelude::*;
use crate::hashing::{
    base58_address, ed25519_keypair, ed25519_public_key, encode_address, random_seed, AddressKind, AddressNetwork,
    ripemd160, ripemd160_digest, sha256, sha256_digest,
};
use vstd::utf8::{decode_utf8, valid_utf8};
use crate::error::BtcError;
use crate::text::string_from_utf8;
use crate::keyed::{distinct_keys, find_key, has_key, key_map, lemma_key_map_at, lemma_key_map_push, lemma_key_map_update};

verus! {

/// What a wallet holds.
pub struct WalletModel {
    pub secret_key: Seq<u8>,
    pub public_key: Seq<u8>,
}

/// An Ed25519 key pair.
#[derive(Debug, Clone, PartialEq)]
pub struct Wallet {
    pub secret_key: Vec<u8>,
    pub public_key: Vec<u8>,
}

impl View for Wallet {
    type V = WalletModel;

    open spec fn view(&self) -> WalletModel {
        WalletModel { secret_key: self.secret_key@, public_key: self.public_key@ }
    }
}

/// The key pair that `crypto::ed25519::keypair` makes from a seed: the secret
/// key is the seed followed by the public key.
pub open spec fn keys_match(w: WalletModel) -> bool {
    &&& w.secret_key.len() == 64
    &&& w.public_key == w.secret_key.subrange(32, 64)
    &&& w.public_key == ed25519_public_key(w.secret_key.subrange(0, 32))
}

/// The public key hash of `pub_key` (Bitcoin's HASH160): RIPEMD-160 of its
/// SHA-256 digest.
pub open spec fn pub_key_hash(pub_key: Seq<u8>) -> Seq<u8> {
    ripemd160(sha256(pub_key))
}

/// The address of a public key: a pay-to-public-key-hash Base58Check
/// address of the main network whose payload is the key's hash.
pub open spec fn address_of(pub_key: Seq<u8>) -> Seq<char> {
    base58_address(AddressKind::KeyHash, AddressNetwork::Main, pub_key_hash(pub_key))
}

fn bytes_to_vec<const N: usize>(a: &[u8; N]) -> (r: Vec<u8>)
    ensures
        r@ == a@,
{
    let mut v: Vec<u8> = Vec::new();
    let mut i: usize = 0;
    while i < N
        invariant
            i <= N,
            a@.len() == N,
            v@ == a@.subrange(0, i as int),
        decreases N - i,
    {
        v.push(a[i]);
        i = i + 1;
        assert(v@ =~= a@.subrange(0, i as int));
    }
    assert(a@.subrange(0, N as int) =~= a@);
    v
}

impl Wallet {
    /// NewWallet creates and returns a Wallet
    pub fn new() -> (r: Wallet)
        ensures
            keys_match(r@),
    {
        let seed = random_seed();
        Wallet::from_seed(&seed)
    }

    /// The wallet whose key pair `crypto::ed25519::keypair` derives from
    /// `seed`.
    pub fn from_seed(seed: &[u8; 32]) -> (r: Wallet)
        ensures
            r@.secret_key == seed@ + ed25519_public_key(seed@),
            r@.public_key == ed25519_public_key(seed@),
            keys_match(r@),
    {
        let (secret_key, public_key) = ed25519_keypair(seed);
        let secret_key = bytes_to_vec(&secret_key);
        let public_key = bytes_to_vec(&public_key);
        assert(secret_key@.subrange(0, 32) =~= seed@);
        assert(secret_key@.subrange(32, 64) =~= public_key@);
        Wallet { secret_key, public_key }
    }

    /// GetAddress returns wallet address
    pub fn get_address(&self) -> (r: String)
        ensures
            r@ == address_of(self.public_key@),
    {
        let mut pub_hash: Vec<u8> = self.public_key.clone();
        assert(pub_hash@ =~= self.public_key@);
        hash_pub_key(&mut pub_hash);
        encode_address(AddressKind::KeyHash, AddressNetwork::Main, pub_hash.as_slice())
    }
}

/// HashPubKey hashes public key: the key is replaced by its 20-byte HASH160.
pub fn hash_pub_key(pub_key: &mut Vec<u8>)
    ensures
        final(pub_key)@ == pub_key_hash(old(pub_key)@),
        final(pub_key)@.len() == 20,
{
    let digest = sha256_digest(pub_key.as_slice());
    let hash = ripemd160_digest(&digest);
    pub_key.clear();
    let mut j: usize = 0;
    while j < 20
        invariant
            j <= 20,
            hash@.len() == 20,
            hash@ == pub_key_hash(old(pub_key)@),
            pub_key@ == hash@.subrange(0, j as int),
        decreases 20 - j,
    {
        pub_key.push(hash[j]);
        j = j + 1;
        assert(pub_key@ =~= hash@.subrange(0, j as int));
    }
    assert(hash@.subrange(0, 20) =~= hash@);
}

/// The wallets of this node, by address.
pub struct Wallets {
    wallets: Vec<(String, Wallet)>,
}

/// The map that storing `records` in order makes, each key decoded from
/// UTF-8: a later record under the same address replaces an earlier one.
pub open spec fn records_map(records: Seq<(Vec<u8>, Wallet)>) -> Map<Seq<char>, WalletModel>
    decreases records.len(),
{
    if records.len() == 0 {
        Map::empty()
    } else {
        records_map(records.drop_last()).insert(decode_utf8(records.last().0@), records.last().1@)
    }
}

/// Every record's key is UTF-8 text.
pub open spec fn keys_are_utf8(records: Seq<(Vec<u8>, Wallet)>) -> bool {
    forall|i: int| 0 <= i < records.len() ==> valid_utf8(#[trigger] records[i].0@)
}

impl Wallets {
    #[verifier::type_invariant]
    spec fn inv(self) -> bool {
        distinct_keys(self.wallets@)
    }

    /// The wallets, by address.
    pub closed spec fn view(&self) -> Map<Seq<char>, WalletModel> {
        key_map(self.wallets@)
    }

    /// No wallets.
    pub fn empty() -> (r: Wallets)
        ensures
            r.view() == Map::<Seq<char>, WalletModel>::empty(),
    {
        let r = Wallets { wallets: Vec::new() };
        assert(r.view() =~= Map::<Seq<char>, WalletModel>::empty());
        r
    }

    /// The wallets stored as `records` (address bytes, wallet) in order, as a
    /// wallet store holds them: fails if an address is not UTF-8 text.
    pub fn from_records(records: Vec<(Vec<u8>, Wallet)>) -> (r: Result<Wallets, BtcError>)
        ensures
            keys_are_utf8(records@) ==> (r matches Ok(w) && w.view() == records_map(records@)),
            !keys_are_utf8(records@) ==> r == Err::<Wallets, BtcError>(BtcError::InvalidUtf8),
    {
        let mut r = Wallets::empty();
        let ghost all = records@;
        let mut rest = records;
        let ghost mut n: int = 0;
        let mut reversed: Vec<(Vec<u8>, Wallet)> = Vec::new();
        while rest.len() > 0
            invariant
                all == records@,
                all.len() == rest@.len() + reversed@.len(),
                forall|i: int| 0 <= i < rest@.len() ==> rest@[i] == all[i],
                forall|i: int| 0 <= i < reversed@.len() ==> #[trigger] reversed@[i] == all[all.len() - 1 - i],
            decreases rest@.len(),
        {
            let e = rest.pop().unwrap();
            reversed.push(e);
        }
        while reversed.len() > 0
            invariant
                all == records@,
                all.len() == n + reversed@.len(),
                0 <= n <= all.len(),
                forall|i: int| 0 <= i < reversed@.len() ==> #[trigger] reversed@[i] == all[all.len() - 1 - i],
                forall|i: int| 0 <= i < n ==> valid_utf8(#[trigger] all[i].0@),
                r.view() == records_map(all.take(n)),
            decreases reversed@.len(),
        {
            let e = reversed.pop().unwrap();
            proof {
                assert(e == all[n]);
                assert(all.take(n + 1).drop_last() =~= all.take(n));
            }
            let (key, wallet) = e;
            match string_from_utf8(key.as_slice()) {
                Some(address) => {
                    r.insert(address, wallet);
                    proof { n = n + 1; }
                },
                None => {
                    assert(key@ == all[n].0@);
                    assert(!valid_utf8(all[n].0@));
                    assert(!keys_are_utf8(all));
                    assert(all == records@);
                    return Err(BtcError::InvalidUtf8);
                },
            }
        }
        proof {
            assert(all.take(n) =~= all);
        }
        Ok(r)
    }

    /// Stores `wallet` under `address`, replacing any wallet stored there.
    fn insert(&mut self, address: String, wallet: Wallet)
        ensures
            final(self).view() == old(self).view().insert(address@, wallet@),
    {
        proof { use_type_invariant(&*self); }
        let mut entries: Vec<(String, Wallet)> = Vec::new();
        std::mem::swap(&mut entries, &mut self.wallets);
        insert_entry(&mut entries, address, wallet);
        self.wallets = entries;
    }

    /// CreateWallet adds a Wallet to Wallets
    pub fn create_wallet(&mut self) -> (address: String)
        ensures
            final(self).view() == old(self).view().insert(address@, final(self).view()[address@]),
            keys_match(final(self).view()[address@]),
            address@ == address_of(final(self).view()[address@].public_key),
    {
        let wallet = Wallet::new();
        let address = wallet.get_address();
        self.insert(address.clone(), wallet);
        address
    }

    /// GetAddresses returns an array of addresses stored in the wallet file
    pub fn get_all_addresses(&self) -> (r: Vec<String>)
        ensures
            r@.len() == self.view().dom().len(),
            forall|i: int| 0 <= i < r@.len() ==> self.view().contains_key(#[trigger] r@[i]@),
            forall|k: Seq<char>| #[trigger] self.view().contains_key(k) ==> exists|i: int| 0 <= i < r@.len() && r@[i]@ == k,
            forall|i: int, j: int| 0 <= i < r@.len() && 0 <= j < r@.len() && i != j ==> r@[i]@ != r@[j]@,
    {
        proof {
            use_type_invariant(self);
            crate::keyed::lemma_key_map_len(self.wallets@);
        }
        let mut r: Vec<String> = Vec::new();
        let mut i: usize = 0;
        while i < self.wallets.len()
            invariant
                i <= self.wallets@.len(),
                distinct_keys(self.wallets@),
                r@.len() == i,
                forall|j: int| 0 <= j < i ==> #[trigger] r@[j]@ == self.wallets@[j].0@,
            decreases self.wallets@.len() - i,
        {
            r.push(self.wallets[i].0.clone());
            i = i + 1;
        }
        assert forall|j: int| 0 <= j < r@.len() implies self.view().contains_key(#[trigger] r@[j]@) by {
            lemma_key_map_at(self.wallets@, j);
        }
        assert forall|k: Seq<char>| #[trigger] self.view().contains_key(k) implies exists|j: int|
            0 <= j < r@.len() && r@[j]@ == k by {
            let j = choose|j: int| 0 <= j < self.wallets@.len() && self.wallets@[j].0@ == k;
            assert(r@[j]@ == k);
        }
        r
    }

    /// GetWallet returns a Wallet by its address
    pub fn get_wallet(&self, address: &str) -> (r: Option<&Wallet>)
        ensures
            match r {
                Some(w) => self.view().contains_key(address@) && w@ == self.view()[address@],
                None => !self.view().contains_key(address@),
            },
    {
        proof { use_type_invariant(self); }
        let key = address.to_owned();
        match find_key(&self.wallets, &key) {
            Some(i) => {
                proof { lemma_key_map_at(self.wallets@, i as int); }
                Some(&self.wallets[i].1)
            },
            None => None,
        }
    }
}

/// Stores `wallet` under `address` in `entries`, replacing the entry there.
fn insert_entry(entries: &mut Vec<(String, Wallet)>, address: String, wallet: Wallet)
    requires
        distinct_keys(old(entries)@),
    ensures
        distinct_keys(final(entries)@),
        key_map(final(entries)@) == key_map(old(entries)@).insert(address@, wallet@),
{
    match find_key(entries, &address) {
        Some(i) => {
            proof { lemma_key_map_update(entries@, i as int, wallet); }
            let ghost old_key = entries@[i as int].0;
            entries[i].1 = wallet;
            assert(entries@ == old(entries)@.update(i as int, (old_key, wallet)));
        },
        None => {
            proof { lemma_key_map_push(entries@, address, wallet); }
            entries.push((address, wallet));
        },
    }
}

} // verus!

verus! {

/// Every address is a main-network pay-to-public-key-hash address: the
/// Base58Check encoding of RIPEMD-160 of SHA-256 of the whole public key,
/// with the same kind and network whatever the key.
pub proof fn lemma_address_is_main_p2pkh(pub_key: Seq<u8>)
    ensures
        address_of(pub_key) == base58_address(AddressKind::KeyHash, AddressNetwork::Main, ripemd160(sha256(pub_key))),
{
}

/// Two keys with the same HASH160 have the same address: the address
/// depends on the key through its hash alone.
pub proof fn lemma_address_depends_on_hash(a: Seq<u8>, b: Seq<u8>)
    requires
        ripemd160(sha256(a)) == ripemd160(sha256(b)),
    ensures
        address_of(a) == address_of(b),
{
}

/// A wallet stored under an address is what a lookup of that address gives
/// back, and storing it leaves every other address as it was.
pub proof fn lemma_lookup_after_store(
    before: Map<Seq<char>, WalletModel>,
    after: Map<Seq<char>, WalletModel>,
    address: Seq<char>,
    wallet: WalletModel,
    other: Seq<char>,
)
    requires
        after == before.insert(address, wallet),
        other != address,
    ensures
        after.contains_key(address),
        after[address] == wallet,
        after.contains_key(other) == before.contains_key(other),
        before.contains_key(other) ==> after[other] == before[other],
{
}

/// Loading the records that saving a set of wallets writes (each address
/// as its UTF-8 bytes, with its wallet), in any order, gives back the same
/// wallets.
pub proof fn lemma_reload_records(entries: Seq<(String, Wallet)>, records: Seq<(Vec<u8>, Wallet)>)
    requires
        distinct_keys(entries),
        records.len() == entries.len(),
        forall|i: int|
            0 <= i < records.len() ==> #[trigger] records[i].0@ == vstd::utf8::encode_utf8(entries[i].0@)
                && records[i].1 == entries[i].1,
    ensures
        keys_are_utf8(records),
        records_map(records) == key_map(entries),
    decreases entries.len(),
{
    assert forall|i: int| 0 <= i < records.len() implies valid_utf8(#[trigger] records[i].0@) by {
        vstd::utf8::encode_utf8_valid_utf8(entries[i].0@);
    }
    if entries.len() > 0 {
        let p = entries.drop_last();
        let q = records.drop_last();
        assert(distinct_keys(p));
        assert forall|i: int| 0 <= i < q.len() implies #[trigger] q[i].0@ == vstd::utf8::encode_utf8(p[i].0@)
            && q[i].1 == p[i].1 by {
            assert(q[i] == records[i]);
            assert(p[i] == entries[i]);
        }
        lemma_reload_records(p, q);
        assert(!has_key(p, entries.last().0@)) by {
            if has_key(p, entries.last().0@) {
                let i = choose|i: int| 0 <= i < p.len() && p[i].0@ == entries.last().0@;
                assert(entries[i] == p[i]);
            }
        }
        lemma_key_map_push(p, entries.last().0, entries.last().1);
        assert(p.push((entries.last().0, entries.last().1)) =~= entries);
        vstd::utf8::encode_utf8_decode_utf8(entries.last().0@);
        assert(records.last() == records[records.len() - 1]);
    } else {
        assert(key_map(entries) =~= Map::empty());
    }
}

} // verus!
