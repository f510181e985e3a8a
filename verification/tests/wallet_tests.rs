use bitcoincash_addr::Address;
use crypto::digest::Digest;
use crypto::ed25519;
use simplified_btc::error::BtcError;
use simplified_btc::wallet::{hash_pub_key, Wallet, Wallets};

fn sha256_of(data: &[u8]) -> Vec<u8> {
    let mut h = crypto::sha2::Sha256::new();
    h.input(data);
    let mut out = vec![0u8; 32];
    h.result(&mut out);
    out
}

fn ripemd160_of(data: &[u8]) -> Vec<u8> {
    let mut h = crypto::ripemd160::Ripemd160::new();
    h.input(data);
    let mut out = vec![0u8; 20];
    h.result(&mut out);
    out
}

const SEED: [u8; 32] = [
    0x26, 0x27, 0xf6, 0x85, 0x97, 0x15, 0xad, 0x1d, 0xd2, 0x94, 0xdd, 0xc4, 0x76, 0x19, 0x39, 0x31,
    0xf1, 0xad, 0xb5, 0x58, 0xf0, 0x93, 0x97, 0x32, 0x19, 0x2b, 0xd1, 0xc0, 0xfd, 0x16, 0x8e, 0x4e,
];

const PUBLIC: [u8; 32] = [
    0x5d, 0x6d, 0x23, 0x6b, 0x52, 0xd1, 0x8e, 0x3a, 0xb6, 0xd6, 0x07, 0x2f, 0xb6, 0xe4, 0xc7, 0xd4,
    0x6b, 0xd5, 0x9a, 0xd9, 0xcc, 0x19, 0x47, 0x26, 0x5f, 0x00, 0xb7, 0x20, 0xfa, 0x2c, 0x8f, 0x66,
];

#[test]
fn test_create_wallet_and_hash() {
    let w1 = Wallet::new();
    let w2 = Wallet::new();
    assert_ne!(w1, w2);
    assert_ne!(w1.get_address(), w2.get_address());

    let mut p2 = w2.public_key.clone();
    hash_pub_key(&mut p2);
    assert_eq!(p2.len(), 20);
    let pub_key_hash = Address::decode(&w2.get_address()).unwrap().body;
    assert_eq!(pub_key_hash, p2);
}

#[test]
fn test_wallets_not_exist_in_memory() {
    let mut ws = Wallets::empty();
    ws.create_wallet();
    let w3 = Wallet::new();
    assert!(ws.get_wallet(&w3.get_address()).is_none());
}

#[test]
#[should_panic]
fn test_wallets_not_exist() {
    let w3 = Wallet::new();
    let mut ws2 = Wallets::empty();
    ws2.create_wallet();
    ws2.get_wallet(&w3.get_address()).unwrap();
}

#[test]
fn test_signature() {
    let w = Wallet::new();
    let signature = ed25519::signature("test".as_bytes(), &w.secret_key);
    assert!(ed25519::verify("test".as_bytes(), &w.public_key, &signature));
}

#[test]
fn wallet_from_known_seed() {
    let w = Wallet::from_seed(&SEED);
    assert_eq!(w.public_key, PUBLIC.to_vec());
    let mut secret = SEED.to_vec();
    secret.extend_from_slice(&PUBLIC);
    assert_eq!(w.secret_key, secret);
}

#[test]
fn new_wallet_keys_are_consistent() {
    let w = Wallet::new();
    assert_eq!(w.secret_key.len(), 64);
    assert_eq!(w.public_key.len(), 32);
    assert_eq!(&w.secret_key[32..], &w.public_key[..]);
    let seed: [u8; 32] = w.secret_key[..32].try_into().unwrap();
    let again = Wallet::from_seed(&seed);
    assert_eq!(again, w);
}

#[test]
fn hash_pub_key_is_ripemd_of_sha() {
    let mut key = PUBLIC.to_vec();
    hash_pub_key(&mut key);
    assert_eq!(key, ripemd160_of(&sha256_of(&PUBLIC)));
}

#[test]
fn hash_pub_key_hashes_whole_long_key() {
    let long: Vec<u8> = (0u8..33).collect();
    let mut key = long.clone();
    hash_pub_key(&mut key);
    assert_eq!(key, ripemd160_of(&sha256_of(&long)));
    assert_eq!(key.len(), 20);
}

#[test]
fn hash_pub_key_of_short_and_empty_keys() {
    let mut key = vec![1u8, 2, 3];
    hash_pub_key(&mut key);
    assert_eq!(key, ripemd160_of(&sha256_of(&[1, 2, 3])));
    let mut empty: Vec<u8> = Vec::new();
    hash_pub_key(&mut empty);
    assert_eq!(empty, ripemd160_of(&sha256_of(&[])));
}

#[test]
fn address_encodes_key_hash() {
    let w = Wallet::from_seed(&SEED);
    let address = w.get_address();
    let expected = Address {
        body: ripemd160_of(&sha256_of(&PUBLIC)),
        scheme: bitcoincash_addr::Scheme::Base58,
        hash_type: bitcoincash_addr::HashType::Key,
        ..Default::default()
    }
    .encode()
    .unwrap();
    assert_eq!(address, expected);
    assert!(address.starts_with('1'));
    let decoded = Address::decode(&address).unwrap();
    assert_eq!(decoded.hash_type, bitcoincash_addr::HashType::Key);
    assert_eq!(decoded.body, ripemd160_of(&sha256_of(&PUBLIC)));
}

#[test]
fn create_wallet_stores_under_its_address() {
    let mut ws = Wallets::empty();
    let a1 = ws.create_wallet();
    let a2 = ws.create_wallet();
    assert_ne!(a1, a2);
    let w1 = ws.get_wallet(&a1).unwrap().clone();
    assert_eq!(w1.get_address(), a1);
    let mut all = ws.get_all_addresses();
    all.sort();
    let mut expected = vec![a1.clone(), a2.clone()];
    expected.sort();
    assert_eq!(all, expected);
}

/// The (address bytes, wallet) records that saving writes out.
fn saved_records(ws: &Wallets) -> Vec<(Vec<u8>, Wallet)> {
    ws.get_all_addresses()
        .into_iter()
        .map(|a| {
            let w = ws.get_wallet(&a).unwrap().clone();
            (a.into_bytes(), w)
        })
        .collect()
}

#[test]
fn test_wallets() {
    let mut ws = Wallets::empty();
    let wa1 = ws.create_wallet();
    let w1 = ws.get_wallet(&wa1).unwrap().clone();
    let saved = saved_records(&ws);

    let ws2 = Wallets::from_records(saved).unwrap();
    let w2 = ws2.get_wallet(&wa1).unwrap();
    assert_eq!(&w1, w2);
}

#[test]
fn wallets_round_trip_keeps_every_wallet() {
    let mut ws = Wallets::empty();
    let a1 = ws.create_wallet();
    let a2 = ws.create_wallet();
    let reloaded = Wallets::from_records(saved_records(&ws)).unwrap();
    assert_eq!(reloaded.get_wallet(&a1), ws.get_wallet(&a1));
    assert_eq!(reloaded.get_wallet(&a2), ws.get_wallet(&a2));
    assert_eq!(reloaded.get_all_addresses().len(), 2);
}

#[test]
fn from_records_later_record_wins() {
    let w1 = Wallet::from_seed(&SEED);
    let w2 = Wallet::new();
    let ws = Wallets::from_records(vec![(b"a".to_vec(), w1.clone()), (b"a".to_vec(), w2.clone())]).unwrap();
    assert_eq!(ws.get_wallet("a"), Some(&w2));
    assert_eq!(ws.get_all_addresses(), vec!["a".to_string()]);
    assert!(ws.get_wallet("b").is_none());
}

#[test]
fn from_records_refuses_non_utf8_address() {
    let w1 = Wallet::from_seed(&SEED);
    let r = Wallets::from_records(vec![(b"a".to_vec(), w1.clone()), (vec![0xff, 0x00], w1)]);
    assert_eq!(r.err(), Some(BtcError::InvalidUtf8));
}
