use std::collections::VecDeque;

use kvwire::codec::{decode, DecodeError, Parser};
use kvwire::token::Token::{Array, BulkString, Command, Error, Integer, NullBulkString, SimpleString};
use kvwire::token::{same_token, CommandIdent, Token};

fn lines(input: &str) -> VecDeque<String> {
    input.split("\r\n").map(|s| s.to_string()).collect()
}

#[test]
fn test_parser() {
    let input = "*1\r\n$4\r\nPING\r\n".to_string();
    let mut sp_input: VecDeque<String> = input.split("\r\n").map(|s| s.to_string()).collect();

    let token = Token::next_token(&mut sp_input);

    assert_eq!(token, Ok(Array(1, vec![Command(CommandIdent::Ping)])));
}

#[test]
fn test_parser_with_more_complicated_string() {
    let input = "*2\r\n$4\r\nECHO\r\n$4\r\nPING\r\n".to_string();
    let mut sp_input: VecDeque<String> = input.split("\r\n").map(|s| s.to_string()).collect();

    let token = Token::next_token(&mut sp_input);

    assert_eq!(
        token,
        Ok(Array(
            2,
            vec![Command(CommandIdent::Echo), Command(CommandIdent::Ping)]
        ))
    );
}

#[test]
fn test_into_vec() {
    let input =
        "*2\r\n$4\r\nECHO\r\n$4\r\nPING\r\n*3\r\n$4\r\nECHO\r\n$4\r\nPING\r\n$4\r\nPING\r\n"
            .to_string();
    let parser = Parser::new(input);

    let tokens: Vec<Token> = parser.collect_tokens().unwrap();

    assert_eq!(
        tokens,
        vec![
            Array(
                2,
                vec![Command(CommandIdent::Echo), Command(CommandIdent::Ping)]
            ),
            Array(
                3,
                vec![
                    Command(CommandIdent::Echo),
                    Command(CommandIdent::Ping),
                    Command(CommandIdent::Ping)
                ]
            )
        ]
    );
}

#[test]
fn test_get_set() {
    let input =
        "*3\r\n$3\r\nSET\r\n$3\r\nkey\r\n$5\r\nvalue\r\n*2\r\n$3\r\nGET\r\n$3\r\nkey\r\n"
            .to_string();

    let parser = Parser::new(input);

    let tokens: Vec<Token> = parser.collect_tokens().unwrap();

    assert_eq!(
        tokens,
        vec![
            Array(
                3,
                vec![
                    Command(CommandIdent::SetKey),
                    BulkString(3, "key".to_string()),
                    BulkString(5, "value".to_string())
                ]
            ),
            Array(
                2,
                vec![Command(CommandIdent::Get), BulkString(3, "key".to_string())]
            )
        ]
    );
}

#[test]
fn command_names_ignore_case() {
    for name in ["ping", "PING", "PiNg"] {
        assert_eq!(CommandIdent::from_str(name), Some(CommandIdent::Ping));
    }
    assert_eq!(CommandIdent::from_str("echo"), Some(CommandIdent::Echo));
    assert_eq!(CommandIdent::from_str("gEt"), Some(CommandIdent::Get));
    assert_eq!(CommandIdent::from_str("Set"), Some(CommandIdent::SetKey));
    assert_eq!(CommandIdent::from_str("px"), Some(CommandIdent::Px));
    assert_eq!(CommandIdent::from_str("pings"), None);
    assert_eq!(CommandIdent::from_str(""), None);
}

#[test]
fn decodes_each_scalar_kind() {
    let tokens = decode("+OK\r\n-ERR bad\r\n:-42\r\n$-1\r\n$3\r\nfoo\r\n".to_string()).unwrap();
    assert_eq!(
        tokens,
        vec![
            SimpleString("OK".to_string()),
            Error("ERR bad".to_string()),
            Integer(-42),
            NullBulkString,
            BulkString(3, "foo".to_string()),
        ]
    );
}

#[test]
fn bulk_length_is_not_checked_on_decode() {
    let tokens = decode("$7\r\nhey\r\n".to_string()).unwrap();
    assert_eq!(tokens, vec![BulkString(7, "hey".to_string())]);
}

#[test]
fn blank_buffer_has_no_tokens() {
    assert_eq!(decode("".to_string()), Ok(vec![]));
    assert_eq!(decode(" \r\n\t".to_string()), Ok(vec![]));
}

#[test]
fn malformed_frames_are_errors() {
    assert_eq!(decode("?what\r\n".to_string()), Err(DecodeError));
    assert_eq!(decode(":12x\r\n".to_string()), Err(DecodeError));
    assert_eq!(decode(":9223372036854775808\r\n".to_string()), Err(DecodeError));
    assert_eq!(decode("*2147483648\r\n".to_string()), Err(DecodeError));
    assert_eq!(decode("*2\r\n$4\r\nECHO\r\n".to_string()), Err(DecodeError));
    assert_eq!(decode("$3\r\n".to_string()), Err(DecodeError));
    let mut empty: VecDeque<String> = VecDeque::new();
    assert_eq!(Token::next_token(&mut empty), Err(DecodeError));
}

#[test]
fn integer_bounds_decode() {
    let tokens = decode(":2147483647\r\n:-2147483648\r\n:+7\r\n".to_string()).unwrap();
    assert_eq!(tokens, vec![Integer(2147483647), Integer(-2147483648), Integer(7)]);
}

#[test]
fn negative_array_count_is_empty() {
    assert_eq!(decode("*-1\r\n".to_string()), Ok(vec![Array(-1, vec![])]));
}

#[test]
fn next_token_leaves_following_lines() {
    let mut q = lines("+a\r\n:1\r\n");
    assert_eq!(Token::next_token(&mut q), Ok(SimpleString("a".to_string())));
    assert_eq!(q, lines(":1\r\n"));
}

#[test]
fn parser_items_then_none() {
    let mut p = Parser::new("+a\r\n?\r\n".to_string());
    assert_eq!(p.next_item(), Some(Ok(SimpleString("a".to_string()))));
    assert_eq!(p.next_item(), Some(Err(DecodeError)));
    assert_eq!(p.next_item(), None);
    assert_eq!(p.next_item(), None);
}

#[test]
fn encodes_each_kind() {
    assert_eq!(SimpleString("PONG".to_string()).to_wire(), "+PONG\r\n");
    assert_eq!(Error("ERR x".to_string()).to_wire(), "-ERR x\r\n");
    assert_eq!(Integer(-12).to_wire(), ":-12\r\n");
    assert_eq!(Integer(0).to_wire(), ":0\r\n");
    assert_eq!(NullBulkString.to_wire(), "$-1\r\n");
    assert_eq!(BulkString(99, "hey".to_string()).to_wire(), "$3\r\nhey\r\n");
    assert_eq!(BulkString(0, "é".to_string()).to_wire(), "$2\r\né\r\n");
    assert_eq!(Command(CommandIdent::Ping).to_wire(), "$4\r\nPING\r\n");
    assert_eq!(
        Array(2, vec![Integer(1), BulkString(1, "a".to_string())]).to_wire(),
        "*2\r\n:1\r\n$1\r\na\r\n"
    );
}

#[test]
fn decode_of_encode_gives_the_token_back() {
    let t = Array(
        4,
        vec![
            BulkString(3, "foo".to_string()),
            Integer(-5),
            Array(1, vec![SimpleString("x y".to_string())]),
            NullBulkString,
        ],
    );
    let back = decode(t.to_wire()).unwrap();
    assert_eq!(back, vec![t.clone()]);
    assert!(same_token(&back[0], &t));
    let stale = BulkString(10, "foo".to_string());
    assert_eq!(decode(stale.to_wire()).unwrap(), vec![BulkString(3, "foo".to_string())]);
}

#[test]
fn structural_equality() {
    let a = Array(1, vec![BulkString(1, "a".to_string())]);
    assert!(same_token(&a, &a.clone()));
    assert!(!same_token(&a, &Array(1, vec![BulkString(1, "b".to_string())])));
    assert!(!same_token(&Integer(1), &Integer(2)));
    assert!(!same_token(&NullBulkString, &BulkString(0, "".to_string())));
}

#[test]
fn integers_span_sixty_four_bits() {
    let tokens = decode(":3000000000\r\n:-9223372036854775808\r\n:9223372036854775807\r\n".to_string())
        .unwrap();
    assert_eq!(
        tokens,
        vec![Integer(3000000000), Integer(i64::MIN), Integer(i64::MAX)]
    );
    assert_eq!(Integer(i64::MIN).to_wire(), ":-9223372036854775808\r\n");
    assert_eq!(Integer(3000000000).to_wire(), ":3000000000\r\n");
}

#[test]
fn command_names_use_unicode_upper_case() {
    assert_eq!(CommandIdent::from_str("p\u{131}ng"), Some(CommandIdent::Ping));
    assert_eq!(CommandIdent::from_str("\u{17f}et"), Some(CommandIdent::SetKey));
    assert_eq!(decode("$4\r\np\u{131}ng\r\n".to_string()), Ok(vec![Command(CommandIdent::Ping)]));
}

#[test]
fn several_tokens_round_trip() {
    let a = SimpleString("OK".to_string());
    let b = Array(2, vec![BulkString(0, "key".to_string()), Integer(-3000000000)]);
    let mut text = a.to_wire();
    text.push_str(&b.to_wire());
    assert_eq!(
        decode(text).unwrap(),
        vec![a, Array(2, vec![BulkString(3, "key".to_string()), Integer(-3000000000)])]
    );
}
