//! What the chain database records besides blocks.

use vstd::prelude::*;
use vstd::utf8::{decode_utf8, valid_utf8};
use crate::error::BtcError;
use crate::text::string_from_utf8;

verus! {

/// The tip hash that the database's `LAST` record gives: none recorded, or
/// an empty record, means an empty tip; otherwise the record must be UTF-8.
pub open spec fn tip_of(last: Option<Seq<u8>>) -> Result<Seq<char>, BtcError> {
    match last {
        None => Ok(Seq::empty()),
        Some(bytes) => if bytes.len() == 0 {
            Ok(Seq::empty())
        } else if valid_utf8(bytes) {
            Ok(decode_utf8(bytes))
        } else {
            Err(BtcError::InvalidUtf8)
        },
    }
}

/// The bytes a record holds, if there is one.
pub open spec fn bytes_view(record: Option<Vec<u8>>) -> Option<Seq<u8>> {
    match record {
        Some(v) => Some(v@),
        None => None,
    }
}

/// The hash of the chain's last block, from the `LAST` record of the
/// database.
pub fn tip_from_last(last: Option<Vec<u8>>) -> (r: Result<String, BtcError>)
    ensures
        match tip_of(bytes_view(last)) {
            Ok(tip) => r matches Ok(s) && s@ == tip,
            Err(e) => r == Err::<String, BtcError>(e),
        },
{
    let hash = match last {
        Some(l) => l,
        None => Vec::new(),
    };
    if hash.len() == 0 {
        Ok(String::new())
    } else {
        match string_from_utf8(hash.as_slice()) {
            Some(s) => Ok(s),
            None => Err(BtcError::InvalidUtf8),
        }
    }
}

} // verus!

verus! {

/// Reopening a chain gives back its tip: the `LAST` record written as the
/// tip's UTF-8 bytes reads back as that tip.
pub proof fn lemma_tip_round_trip(tip: Seq<char>)
    ensures
        tip_of(Some(vstd::utf8::encode_utf8(tip))) == Ok::<Seq<char>, BtcError>(tip),
{
    let bytes = vstd::utf8::encode_utf8(tip);
    vstd::utf8::encode_utf8_valid_utf8(tip);
    vstd::utf8::encode_utf8_decode_utf8(tip);
    if bytes.len() == 0 {
        assert(decode_utf8(bytes) == tip);
        assert(bytes =~= Seq::<u8>::empty());
        assert(decode_utf8(Seq::<u8>::empty()) == Seq::<char>::empty());
    }
}

} // verus!
