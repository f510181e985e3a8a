//! The framing of node messages: a 12-byte command header, zero-padded,
//! followed by a bincode payload.

use vstd::prelude::*;
use vstd::utf8::{decode_utf8, encode_utf8, is_ascii_chars, valid_utf8};
use vstd::string::StringSliceAdditionalSpecFns;
use crate::error::BtcError;
use crate::text::string_from_utf8;

verus! {

/// The length of the command header of a message.
pub const CMD_LEN: usize = 12;

/// The protocol version a node announces.
pub const VERSION: i32 = 1;

/// The commands a node understands.
#[derive(Debug, Clone, Copy, PartialEq, Eq, Structural)]
pub enum CmdKind {
    Addr,
    Block,
    Inv,
    GetBlocks,
    GetData,
    Tx,
    Version,
}

/// The name of a command, as it is written in a header.
pub open spec fn cmd_name(k: CmdKind) -> Seq<char> {
    match k {
        CmdKind::Addr => seq!['a', 'd', 'd', 'r'],
        CmdKind::Block => seq!['b', 'l', 'o', 'c', 'k'],
        CmdKind::Inv => seq!['i', 'n', 'v'],
        CmdKind::GetBlocks => seq!['g', 'e', 't', 'b', 'l', 'o', 'c', 'k', 's'],
        CmdKind::GetData => seq!['g', 'e', 't', 'd', 'a', 't', 'a'],
        CmdKind::Tx => seq!['t', 'x'],
        CmdKind::Version => seq!['v', 'e', 'r', 's', 'i', 'o', 'n'],
    }
}

/// The bytes of ASCII text.
pub open spec fn ascii_bytes(s: Seq<char>) -> Seq<u8> {
    Seq::new(s.len(), |i: int| s[i] as u8)
}

/// `n` zero bytes.
pub open spec fn zeros(n: int) -> Seq<u8> {
    Seq::new(n as nat, |i: int| 0u8)
}

/// The header that names a command given as UTF-8 bytes: the bytes, then
/// zeros up to the header's length.
pub open spec fn cmd_header(cmd: Seq<u8>) -> Seq<u8> {
    cmd + zeros(CMD_LEN - cmd.len())
}

/// `s` without its zero bytes.
pub open spec fn strip_zeros(s: Seq<u8>) -> Seq<u8>
    decreases s.len(),
{
    if s.len() == 0 {
        seq![]
    } else if s.last() == 0 {
        strip_zeros(s.drop_last())
    } else {
        strip_zeros(s.drop_last()).push(s.last())
    }
}

/// The command a message names: the non-zero bytes of its header.
pub open spec fn header_command(msg: Seq<u8>) -> Seq<u8> {
    strip_zeros(msg.take(CMD_LEN as int))
}

/// What reading the header of `msg` gives: an error if the command is not
/// UTF-8, else the command it names, else an error for an unknown command.
pub open spec fn parse_cmd_result(msg: Seq<u8>) -> Result<CmdKind, BtcError> {
    let c = header_command(msg);
    if !valid_utf8(c) {
        Err(BtcError::InvalidUtf8)
    } else if c == ascii_bytes(cmd_name(CmdKind::Addr)) {
        Ok(CmdKind::Addr)
    } else if c == ascii_bytes(cmd_name(CmdKind::Block)) {
        Ok(CmdKind::Block)
    } else if c == ascii_bytes(cmd_name(CmdKind::Inv)) {
        Ok(CmdKind::Inv)
    } else if c == ascii_bytes(cmd_name(CmdKind::GetBlocks)) {
        Ok(CmdKind::GetBlocks)
    } else if c == ascii_bytes(cmd_name(CmdKind::GetData)) {
        Ok(CmdKind::GetData)
    } else if c == ascii_bytes(cmd_name(CmdKind::Tx)) {
        Ok(CmdKind::Tx)
    } else if c == ascii_bytes(cmd_name(CmdKind::Version)) {
        Ok(CmdKind::Version)
    } else {
        Err(BtcError::UnknownCommand)
    }
}

/// The bincode deserialization of a list of strings from `data` (trailing
/// bytes ignored), or `None` where it fails.
pub uninterp spec fn bincode_string_list(data: Seq<u8>) -> Option<Seq<Seq<char>>>;

/// `bincode::deserialize::<Vec<String>>` of the bytes of `bytes` from
/// `offset` on. Claimed: the result is the one named `bincode_string_list`
/// (an `Err` of bincode becomes `None`).
#[verifier::external_body]
fn deserialize_string_list(bytes: &[u8], offset: usize) -> (r: Option<Vec<String>>)
    requires
        offset <= bytes@.len(),
    ensures
        match r {
            Some(v) => bincode_string_list(bytes@.subrange(offset as int, bytes@.len() as int)) == Some(
                v.deep_view(),
            ),
            None => bincode_string_list(bytes@.subrange(offset as int, bytes@.len() as int)) is None,
        },
{
    bincode::deserialize::<Vec<String>>(&bytes[offset..]).ok()
}

fn name_bytes(k: CmdKind) -> (r: &'static [u8])
    ensures
        r@ == ascii_bytes(cmd_name(k)),
{
    let s: &'static str = match k {
        CmdKind::Addr => {
            proof { reveal_strlit("addr"); }
            "addr"
        },
        CmdKind::Block => {
            proof { reveal_strlit("block"); }
            "block"
        },
        CmdKind::Inv => {
            proof { reveal_strlit("inv"); }
            "inv"
        },
        CmdKind::GetBlocks => {
            proof { reveal_strlit("getblocks"); }
            "getblocks"
        },
        CmdKind::GetData => {
            proof { reveal_strlit("getdata"); }
            "getdata"
        },
        CmdKind::Tx => {
            proof { reveal_strlit("tx"); }
            "tx"
        },
        CmdKind::Version => {
            proof { reveal_strlit("version"); }
            "version"
        },
    };
    assert(s@ == cmd_name(k));
    proof {
        assert(is_ascii_chars(s@));
        vstd::utf8::is_ascii_chars_encode_utf8(s@);
    }
    let r = s.as_bytes();
    assert(r@ =~= ascii_bytes(cmd_name(k)));
    r
}

fn bytes_equal(a: &[u8], b: &[u8]) -> (r: bool)
    ensures
        r == (a@ == b@),
{
    if a.len() != b.len() {
        return false;
    }
    let mut i: usize = 0;
    while i < a.len()
        invariant
            i <= a@.len(),
            a@.len() == b@.len(),
            forall|j: int| 0 <= j < i ==> a@[j] == b@[j],
        decreases a@.len() - i,
    {
        if a[i] != b[i] {
            return false;
        }
        i = i + 1;
    }
    assert(a@ =~= b@);
    true
}

/// The header naming `cmd`: its UTF-8 bytes padded with zeros to 12 bytes.
/// A command longer than the header is refused by `requires` (indexing past
/// the header panics).
pub fn cmd_to_bytes(cmd: &str) -> (r: [u8; CMD_LEN])
    requires
        cmd.spec_bytes().len() <= CMD_LEN,
    ensures
        r@ == cmd_header(cmd.spec_bytes()),
{
    let mut data: [u8; CMD_LEN] = [0u8; CMD_LEN];
    let bytes = cmd.as_bytes();
    let mut i: usize = 0;
    while i < bytes.len()
        invariant
            i <= bytes@.len(),
            bytes@ == cmd.spec_bytes(),
            bytes@.len() <= CMD_LEN,
            data@.len() == CMD_LEN,
            forall|j: int| 0 <= j < i ==> data@[j] == bytes@[j],
            forall|j: int| i <= j < CMD_LEN ==> data@[j] == 0u8,
        decreases bytes@.len() - i,
    {
        data[i] = bytes[i];
        i = i + 1;
    }
    assert(data@ =~= cmd_header(cmd.spec_bytes()));
    data
}

/// Reads the command of a message from its header. A message shorter than
/// the header is refused by `requires` (slicing it panics).
pub fn parse_cmd(bytes: &[u8]) -> (r: Result<CmdKind, BtcError>)
    requires
        bytes@.len() >= CMD_LEN,
    ensures
        r == parse_cmd_result(bytes@),
{
    let mut cmd: Vec<u8> = Vec::new();
    let mut i: usize = 0;
    while i < CMD_LEN
        invariant
            i <= CMD_LEN,
            bytes@.len() >= CMD_LEN,
            cmd@ == strip_zeros(bytes@.take(i as int)),
        decreases CMD_LEN - i,
    {
        proof {
            assert(bytes@.take(i + 1).drop_last() =~= bytes@.take(i as int));
        }
        if bytes[i] != 0 {
            cmd.push(bytes[i]);
        }
        i = i + 1;
    }
    if string_from_utf8(cmd.as_slice()).is_none() {
        return Err(BtcError::InvalidUtf8);
    }
    if bytes_equal(cmd.as_slice(), name_bytes(CmdKind::Addr)) {
        Ok(CmdKind::Addr)
    } else if bytes_equal(cmd.as_slice(), name_bytes(CmdKind::Block)) {
        Ok(CmdKind::Block)
    } else if bytes_equal(cmd.as_slice(), name_bytes(CmdKind::Inv)) {
        Ok(CmdKind::Inv)
    } else if bytes_equal(cmd.as_slice(), name_bytes(CmdKind::GetBlocks)) {
        Ok(CmdKind::GetBlocks)
    } else if bytes_equal(cmd.as_slice(), name_bytes(CmdKind::GetData)) {
        Ok(CmdKind::GetData)
    } else if bytes_equal(cmd.as_slice(), name_bytes(CmdKind::Tx)) {
        Ok(CmdKind::Tx)
    } else if bytes_equal(cmd.as_slice(), name_bytes(CmdKind::Version)) {
        Ok(CmdKind::Version)
    } else {
        Err(BtcError::UnknownCommand)
    }
}

/// The node addresses an `addr` message carries: its payload, after the
/// header, read as a bincode list of strings.
pub fn decode_addr_payload(bytes: &[u8]) -> (r: Result<Vec<String>, BtcError>)
    requires
        bytes@.len() >= CMD_LEN,
    ensures
        match bincode_string_list(bytes@.subrange(CMD_LEN as int, bytes@.len() as int)) {
            Some(list) => r matches Ok(v) && v.deep_view() == list,
            None => r == Err::<Vec<String>, BtcError>(BtcError::Decoding),
        },
{
    match deserialize_string_list(bytes, CMD_LEN) {
        Some(v) => Ok(v),
        None => Err(BtcError::Decoding),
    }
}

/// Reading the header that `cmd_to_bytes` writes for a command gives that
/// command back, whatever payload follows.
pub proof fn lemma_header_round_trip(k: CmdKind, payload: Seq<u8>)
    ensures
        parse_cmd_result(cmd_header(ascii_bytes(cmd_name(k))) + payload) == Ok::<CmdKind, BtcError>(k),
{
    let name = cmd_name(k);
    let nb = ascii_bytes(name);
    let msg = cmd_header(nb) + payload;
    assert(msg.take(CMD_LEN as int) =~= cmd_header(nb));
    lemma_strip_padded(nb, CMD_LEN - nb.len());
    assert(is_ascii_chars(name));
    vstd::utf8::is_ascii_chars_encode_utf8(name);
    assert(encode_utf8(name) =~= nb);
    vstd::utf8::encode_utf8_valid_utf8(name);
    assert(header_command(msg) == nb);
    reveal_with_fuel(strip_zeros, 1);
    let a = ascii_bytes(cmd_name(CmdKind::Addr));
    let b = ascii_bytes(cmd_name(CmdKind::Block));
    let i = ascii_bytes(cmd_name(CmdKind::Inv));
    let gb = ascii_bytes(cmd_name(CmdKind::GetBlocks));
    let gd = ascii_bytes(cmd_name(CmdKind::GetData));
    let t = ascii_bytes(cmd_name(CmdKind::Tx));
    let v = ascii_bytes(cmd_name(CmdKind::Version));
    assert(a[0] == 97u8 && b[0] == 98u8 && i[0] == 105u8 && gb[0] == 103u8 && gd[0] == 103u8
        && t[0] == 116u8 && v[0] == 118u8);
    assert(gb.len() == 9 && gd.len() == 7);
    assert(a.len() == 4 && b.len() == 5 && i.len() == 3 && t.len() == 2 && v.len() == 7);
}

/// Stripping zeros from bytes with no zero byte, padded with zeros, gives the
/// bytes back.
proof fn lemma_strip_padded(s: Seq<u8>, n: int)
    requires
        n >= 0,
        forall|i: int| 0 <= i < s.len() ==> s[i] != 0,
    ensures
        strip_zeros(s + zeros(n)) == s,
    decreases s.len() + n,
{
    if n > 0 {
        assert((s + zeros(n)).drop_last() =~= s + zeros(n - 1));
        lemma_strip_padded(s, n - 1);
    } else if s.len() > 0 {
        assert(s + zeros(0) =~= s);
        assert(s.drop_last() + zeros(0) =~= s.drop_last());
        lemma_strip_padded(s.drop_last(), 0);
        assert(s.drop_last().push(s.last()) =~= s);
    } else {
        assert(s + zeros(0) =~= s);
    }
}

} // verus!
