use simplified_btc::cli::Cli;
use simplified_btc::config::AppConfig;
use simplified_btc::error::BtcError;
use simplified_btc::framing::{cmd_to_bytes, decode_addr_payload, parse_cmd, CmdKind, CMD_LEN};
use simplified_btc::server::{parse_json_document, GetBlocksmsg, JsonValue, Message, Server, Versionmsg};

fn framed(cmd: &str, payload: &[u8]) -> Vec<u8> {
    let mut v = cmd_to_bytes(cmd).to_vec();
    v.extend_from_slice(payload);
    v
}

fn seeds_doc(items: Vec<JsonValue>) -> JsonValue {
    JsonValue::Object(vec![
        ("other".to_string(), JsonValue::Null),
        ("seeds".to_string(), JsonValue::Array(items)),
    ])
}

fn sorted(mut v: Vec<String>) -> Vec<String> {
    v.sort();
    v
}

#[test]
fn current_node_formats_port() {
    assert_eq!(AppConfig { port: 3000 }.current_node(), "localhost:3000");
    assert_eq!(AppConfig { port: 0 }.current_node(), "localhost:0");
    assert_eq!(AppConfig { port: 7 }.current_node(), "localhost:7");
    assert_eq!(AppConfig { port: u32::MAX }.current_node(), "localhost:4294967295");
}

#[test]
fn cli_new_succeeds() {
    assert!(Cli::new().is_ok());
}

#[test]
fn cmd_to_bytes_pads_with_zeros() {
    assert_eq!(cmd_to_bytes("addr"), [97, 100, 100, 114, 0, 0, 0, 0, 0, 0, 0, 0]);
    assert_eq!(cmd_to_bytes(""), [0u8; 12]);
    assert_eq!(cmd_to_bytes("abcdefghijkl"), *b"abcdefghijkl");
    assert_eq!(CMD_LEN, 12);
}

#[test]
fn parse_cmd_reads_every_command_back() {
    let cases = [
        ("addr", CmdKind::Addr),
        ("block", CmdKind::Block),
        ("inv", CmdKind::Inv),
        ("getblocks", CmdKind::GetBlocks),
        ("getdata", CmdKind::GetData),
        ("tx", CmdKind::Tx),
        ("version", CmdKind::Version),
    ];
    for (name, kind) in cases {
        assert_eq!(parse_cmd(&framed(name, &[1, 2, 3])), Ok(kind));
        assert_eq!(parse_cmd(&framed(name, &[])), Ok(kind));
    }
}

#[test]
fn parse_cmd_ignores_zero_bytes_anywhere_in_header() {
    let mut msg = vec![0u8, b'a', 0, b'd', b'd', 0, b'r', 0, 0, 0, 0, 0];
    msg.push(9);
    assert_eq!(parse_cmd(&msg), Ok(CmdKind::Addr));
}

#[test]
fn parse_cmd_errors() {
    assert_eq!(parse_cmd(&framed("hello", &[])), Err(BtcError::UnknownCommand));
    assert_eq!(parse_cmd(&framed("", &[])), Err(BtcError::UnknownCommand));
    assert_eq!(parse_cmd(&framed("ADDR", &[])), Err(BtcError::UnknownCommand));
    let mut bad = vec![0xffu8, 0xfe];
    bad.extend_from_slice(&[0u8; 10]);
    assert_eq!(parse_cmd(&bad), Err(BtcError::InvalidUtf8));
}

#[test]
fn addr_payload_decodes() {
    let list = vec!["localhost:3001".to_string(), "localhost:3002".to_string()];
    let msg = framed("addr", &bincode::serialize(&list).unwrap());
    assert_eq!(decode_addr_payload(&msg), Ok(list));
    let truncated = framed("addr", &[5, 0, 0]);
    assert_eq!(decode_addr_payload(&truncated), Err(BtcError::Decoding));
}

#[test]
fn server_new_reads_seeds() {
    let doc = seeds_doc(vec![
        JsonValue::Str("localhost:3001".to_string()),
        JsonValue::Number("5".to_string()),
        JsonValue::Str("localhost:3002".to_string()),
        JsonValue::Str("localhost:3001".to_string()),
    ]);
    let s = Server::new("3000", "miner", &doc).unwrap();
    assert_eq!(s.node_address(), "localhost:3000");
    assert_eq!(s.mining_address(), "miner");
    assert_eq!(sorted(s.known_nodes()), vec!["localhost:3001".to_string(), "localhost:3002".to_string()]);
}

#[test]
fn server_new_without_seed_array() {
    let s = Server::new("1", "m", &JsonValue::Array(vec![])).unwrap();
    assert!(s.known_nodes().is_empty());
    let doc = JsonValue::Object(vec![("seeds".to_string(), JsonValue::Str("x".to_string()))]);
    assert!(Server::new("1", "m", &doc).unwrap().known_nodes().is_empty());
    let doc = JsonValue::Object(vec![("seed".to_string(), JsonValue::Array(vec![JsonValue::Str("x".to_string())]))]);
    assert!(Server::new("1", "m", &doc).unwrap().known_nodes().is_empty());
}

#[test]
fn server_tracks_known_nodes() {
    let mut s = Server::new("3000", "m", &seeds_doc(vec![])).unwrap();
    s.add_nodes("a");
    s.add_nodes("b");
    s.add_nodes("a");
    assert_eq!(sorted(s.known_nodes()), vec!["a".to_string(), "b".to_string()]);
    s.remove_node("a");
    assert_eq!(s.known_nodes(), vec!["b".to_string()]);
    s.remove_node("zzz");
    assert_eq!(s.known_nodes(), vec!["b".to_string()]);
    assert!(s.handle_addr(vec!["c".to_string(), "b".to_string(), "d".to_string()]).is_ok());
    assert_eq!(sorted(s.known_nodes()), vec!["b".to_string(), "c".to_string(), "d".to_string()]);
}

#[test]
fn handle_message_dispatches_addr_only() {
    let mut s = Server::new("3000", "m", &seeds_doc(vec![])).unwrap();
    assert!(s.handle_message(Message::Addr(vec!["x".to_string(), "y".to_string()])).is_ok());
    assert_eq!(sorted(s.known_nodes()), vec!["x".to_string(), "y".to_string()]);
    let v = Versionmsg { addr_from: "z".to_string(), version: 1, best_height: 3 };
    assert!(s.handle_message(Message::Version(v)).is_ok());
    assert!(s.handle_message(Message::GetBlock(GetBlocksmsg { addr_from: "z".to_string() })).is_ok());
    assert_eq!(sorted(s.known_nodes()), vec!["x".to_string(), "y".to_string()]);
}

#[test]
fn error_messages() {
    assert_eq!(BtcError::UnknownCommand.message(), "Unknown command in the server");
    assert_eq!(BtcError::InvalidUtf8.message(), "invalid utf-8 sequence");
    assert_eq!(BtcError::Decoding.message(), "could not decode the data");
}

#[test]
fn server_from_seed_text_reads_json() {
    let text = r#" { "other": 1, "seeds": ["localhost:3001", 7, "localhost:3002", "localhost:3001"] } "#;
    let s = Server::from_seed_text("3000", "miner", text).unwrap();
    assert_eq!(s.node_address(), "localhost:3000");
    assert_eq!(s.mining_address(), "miner");
    assert_eq!(sorted(s.known_nodes()), vec!["localhost:3001".to_string(), "localhost:3002".to_string()]);
    let none = Server::from_seed_text("1", "m", r#"{"seeds": "x"}"#).unwrap();
    assert!(none.known_nodes().is_empty());
    let nested = Server::from_seed_text("1", "m", r#"{"seeds": [["a"], {"b": "c"}, "d"]}"#).unwrap();
    assert_eq!(nested.known_nodes(), vec!["d".to_string()]);
}

#[test]
fn server_from_seed_text_refuses_bad_json() {
    assert!(matches!(Server::from_seed_text("1", "m", "{\"seeds\": [}"), Err(BtcError::Decoding)));
    assert!(matches!(Server::from_seed_text("1", "m", ""), Err(BtcError::Decoding)));
    assert!(matches!(Server::from_seed_text("1", "m", "{} {}"), Err(BtcError::Decoding)));
}

#[test]
fn parse_json_document_converts_each_variant() {
    let doc = parse_json_document(r#"{"b": [null, true, 1.5, "s"], "a": {}}"#).unwrap();
    match doc {
        JsonValue::Object(entries) => {
            assert_eq!(entries.len(), 2);
            assert_eq!(entries[0].0, "a");
            assert!(matches!(&entries[0].1, JsonValue::Object(inner) if inner.is_empty()));
            assert_eq!(entries[1].0, "b");
            match &entries[1].1 {
                JsonValue::Array(items) => {
                    assert!(matches!(items[0], JsonValue::Null));
                    assert!(matches!(items[1], JsonValue::Bool(true)));
                    assert!(matches!(&items[2], JsonValue::Number(n) if n == "1.5"));
                    assert!(matches!(&items[3], JsonValue::Str(x) if x == "s"));
                }
                _ => panic!("expected an array"),
            }
        }
        _ => panic!("expected an object"),
    }
    assert!(parse_json_document("nope").is_none());
}
