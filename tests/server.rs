use kvwire::dispatch::{execute, serve_at};
use kvwire::store::{Db, DbValue};
use kvwire::text::parse_u128;
use kvwire::token::Token::{Array, BulkString, Command, Error, Integer, NullBulkString, SimpleString};
use kvwire::token::{CommandIdent, Token};

fn bulk(s: &str) -> Token {
    BulkString(s.len() as i32, s.to_string())
}

#[test]
fn ping_replies_pong() {
    let mut db = Db::new();
    assert_eq!(serve_at(&mut db, "*1\r\n$4\r\nPING\r\n".to_string(), 0), "+PONG\r\n");
}

#[test]
fn ping_in_any_case() {
    let mut db = Db::new();
    assert_eq!(serve_at(&mut db, "*1\r\n$4\r\npInG\r\n".to_string(), 0), "+PONG\r\n");
}

#[test]
fn echo_replies_argument() {
    let mut db = Db::new();
    assert_eq!(
        serve_at(&mut db, "*2\r\n$4\r\nECHO\r\n$3\r\nhey\r\n".to_string(), 0),
        "$3\r\nhey\r\n"
    );
}

#[test]
fn echo_without_argument_is_an_error_reply() {
    let mut db = Db::new();
    assert_eq!(
        serve_at(&mut db, "*1\r\n$4\r\nECHO\r\n".to_string(), 0),
        "-ERR wrong number of arguments\r\n"
    );
}

#[test]
fn set_then_get() {
    let mut db = Db::new();
    assert_eq!(
        serve_at(&mut db, "*3\r\n$3\r\nSET\r\n$3\r\nfoo\r\n$3\r\nbar\r\n".to_string(), 10),
        "+OK\r\n"
    );
    assert_eq!(
        serve_at(&mut db, "*2\r\n$3\r\nGET\r\n$3\r\nfoo\r\n".to_string(), 20),
        "$3\r\nbar\r\n"
    );
}

#[test]
fn set_and_get_in_one_buffer() {
    let mut db = Db::new();
    let input = "*3\r\n$3\r\nSET\r\n$3\r\nfoo\r\n$3\r\nbar\r\n*2\r\n$3\r\nGET\r\n$3\r\nfoo\r\n";
    assert_eq!(serve_at(&mut db, input.to_string(), 0), "+OK\r\n$3\r\nbar\r\n");
}

#[test]
fn px_expires_after_ttl() {
    let mut db = Db::new();
    let set = "*5\r\n$3\r\nSET\r\n$1\r\nk\r\n$1\r\nv\r\n$2\r\nPX\r\n$3\r\n100\r\n";
    assert_eq!(serve_at(&mut db, set.to_string(), 1000), "+OK\r\n");
    let get = "*2\r\n$3\r\nGET\r\n$1\r\nk\r\n";
    assert_eq!(serve_at(&mut db, get.to_string(), 1099), "$1\r\nv\r\n");
    assert_eq!(serve_at(&mut db, get.to_string(), 1100), "$-1\r\n");
    assert_eq!(serve_at(&mut db, get.to_string(), 1150), "$-1\r\n");
}

#[test]
fn get_missing_key_is_null() {
    let mut db = Db::new();
    assert_eq!(serve_at(&mut db, "*2\r\n$3\r\nGET\r\n$1\r\nk\r\n".to_string(), 0), "$-1\r\n");
}

#[test]
fn second_set_wins() {
    let mut db = Db::new();
    let k = bulk("k");
    execute(&mut db, &Array(3, vec![Command(CommandIdent::SetKey), k.clone(), bulk("v")]), 0);
    execute(&mut db, &Array(3, vec![Command(CommandIdent::SetKey), k.clone(), bulk("v2")]), 1);
    let r = execute(&mut db, &Array(2, vec![Command(CommandIdent::Get), k.clone()]), 2);
    assert_eq!(r, Some(bulk("v2")));
}

#[test]
fn px_zero_is_gone_right_after() {
    let mut db = Db::new();
    let k = bulk("k");
    let set = Array(
        5,
        vec![Command(CommandIdent::SetKey), k.clone(), bulk("v"), Command(CommandIdent::Px), Integer(0)],
    );
    assert_eq!(execute(&mut db, &set, 500), Some(SimpleString("OK".to_string())));
    let get = Array(2, vec![Command(CommandIdent::Get), k.clone()]);
    assert_eq!(execute(&mut db, &get, 501), Some(NullBulkString));
}

#[test]
fn no_px_never_expires() {
    let mut db = Db::new();
    let k = bulk("k");
    execute(&mut db, &Array(3, vec![Command(CommandIdent::SetKey), k.clone(), bulk("v")]), 0);
    let get = Array(2, vec![Command(CommandIdent::Get), k.clone()]);
    assert_eq!(execute(&mut db, &get, u128::MAX), Some(bulk("v")));
}

#[test]
fn bad_expiry_is_an_error_reply() {
    let mut db = Db::new();
    let k = bulk("k");
    let neg = Array(
        5,
        vec![Command(CommandIdent::SetKey), k.clone(), bulk("v"), Command(CommandIdent::Px), Integer(-1)],
    );
    assert_eq!(execute(&mut db, &neg, 0), Some(Error("ERR invalid expire time".to_string())));
    let word = Array(
        5,
        vec![Command(CommandIdent::SetKey), k.clone(), bulk("v"), Command(CommandIdent::Px), bulk("soon")],
    );
    assert_eq!(execute(&mut db, &word, 0), Some(Error("ERR invalid expire time".to_string())));
    let overflow = Array(
        5,
        vec![Command(CommandIdent::SetKey), k.clone(), bulk("v"), Command(CommandIdent::Px), Integer(1)],
    );
    assert_eq!(
        execute(&mut db, &overflow, u128::MAX),
        Some(Error("ERR invalid expire time".to_string()))
    );
    let missing = Array(4, vec![Command(CommandIdent::SetKey), k.clone(), bulk("v"), Command(CommandIdent::Px)]);
    assert_eq!(
        execute(&mut db, &missing, 0),
        Some(Error("ERR wrong number of arguments".to_string()))
    );
    let get = Array(2, vec![Command(CommandIdent::Get), k.clone()]);
    assert_eq!(execute(&mut db, &get, 0), Some(NullBulkString));
}

#[test]
fn other_expiry_token_means_no_expiry() {
    let mut db = Db::new();
    let k = bulk("k");
    let set = Array(
        5,
        vec![Command(CommandIdent::SetKey), k.clone(), bulk("v"), Command(CommandIdent::Px), NullBulkString],
    );
    assert_eq!(execute(&mut db, &set, 0), Some(SimpleString("OK".to_string())));
    let get = Array(2, vec![Command(CommandIdent::Get), k.clone()]);
    assert_eq!(execute(&mut db, &get, 1 << 100), Some(bulk("v")));
}

#[test]
fn arity_errors() {
    let mut db = Db::new();
    for req in [
        Array(0, vec![]),
        Array(1, vec![Command(CommandIdent::Get)]),
        Array(2, vec![Command(CommandIdent::SetKey), bulk("k")]),
    ] {
        assert_eq!(
            execute(&mut db, &req, 0),
            Some(Error("ERR wrong number of arguments".to_string()))
        );
    }
}

#[test]
fn unknown_commands_get_ok_and_non_arrays_no_reply() {
    let mut db = Db::new();
    let req = Array(1, vec![bulk("hello")]);
    assert_eq!(execute(&mut db, &req, 0), Some(SimpleString("OK".to_string())));
    let px = Array(1, vec![Command(CommandIdent::Px)]);
    assert_eq!(execute(&mut db, &px, 0), Some(SimpleString("OK".to_string())));
    assert_eq!(execute(&mut db, &SimpleString("hi".to_string()), 0), None);
}

#[test]
fn malformed_buffer_replies_protocol_error() {
    let mut db = Db::new();
    let input = "*1\r\n$4\r\nPING\r\n!oops\r\n*1\r\n$4\r\nPING\r\n";
    assert_eq!(
        serve_at(&mut db, input.to_string(), 0),
        "+PONG\r\n-ERR protocol error\r\n"
    );
}

#[test]
fn store_get_and_set() {
    let mut db = Db::new();
    let k = bulk("k");
    assert_eq!(db.get_at(&k, 0), NullBulkString);
    db.set(k.clone(), DbValue { value: bulk("v"), ttl: Some(10) });
    assert_eq!(db.get_at(&k, 9), bulk("v"));
    assert_eq!(db.get_at(&k, 10), NullBulkString);
    db.set(k.clone(), DbValue { value: bulk("w"), ttl: None });
    assert_eq!(db.get_at(&k, 1000), bulk("w"));
    assert_eq!(db.get(&k), bulk("w"));
}

#[test]
fn unsigned_text_parsing() {
    assert_eq!(parse_u128("150"), Some(150));
    assert_eq!(parse_u128("+7"), Some(7));
    assert_eq!(parse_u128("-0"), None);
    assert_eq!(parse_u128(""), None);
    assert_eq!(parse_u128("340282366920938463463374607431768211455"), Some(u128::MAX));
    assert_eq!(parse_u128("340282366920938463463374607431768211456"), None);
}
