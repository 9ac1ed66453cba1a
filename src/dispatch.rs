//! Interpreting decoded requests as commands against the store.

use vstd::prelude::*;
use vstd::string::StringExecFns;
use crate::codec::{decode_one, lines_view, lines_of, wire, Parser};
use crate::store::{lookup, Db, DbValue, EntryV};
use crate::text::{parse_u128, u128_value};
use crate::token::{CommandIdent, Token, TokenV};

verus! {

pub open spec fn ok_reply() -> TokenV {
    TokenV::SimpleString("OK"@)
}

pub open spec fn pong_reply() -> TokenV {
    TokenV::SimpleString("PONG"@)
}

pub open spec fn arity_error() -> TokenV {
    TokenV::Error("ERR wrong number of arguments"@)
}

pub open spec fn expire_error() -> TokenV {
    TokenV::Error("ERR invalid expire time"@)
}

pub open spec fn protocol_error() -> TokenV {
    TokenV::Error("ERR protocol error"@)
}

/// The absolute expiry `now + ttl`, or `None` where it exceeds the range of
/// `u128`.
pub open spec fn expiry_after(now: int, ttl: int) -> Option<u128> {
    if now + ttl <= u128::MAX {
        Some((now + ttl) as u128)
    } else {
        None
    }
}

/// The expiry that the arguments of a `SET` ask for at time `now`: no expiry
/// unless the fourth element is `PX`; then the fifth is the time to live in
/// milliseconds, an integer or a bulk string of digits. `Err` holds the
/// error reply.
pub open spec fn set_expiry(args: Seq<TokenV>, now: int) -> Result<Option<u128>, TokenV> {
    if args.len() >= 4 && args[3] == TokenV::Command(CommandIdent::Px) {
        if args.len() < 5 {
            Err(arity_error())
        } else {
            match args[4] {
                TokenV::Integer(n) => if n < 0 {
                    Err(expire_error())
                } else {
                    match expiry_after(now, n) {
                        Some(t) => Ok(Some(t)),
                        None => Err(expire_error()),
                    }
                },
                TokenV::BulkString(_, s) => match u128_value(s) {
                    None => Err(expire_error()),
                    Some(n) => match expiry_after(now, n) {
                        Some(t) => Ok(Some(t)),
                        None => Err(expire_error()),
                    },
                },
                _ => Ok(None),
            }
        }
    } else {
        Ok(None)
    }
}

/// The reply to a request at time `now`, and the store after it. Only an
/// array is a request; anything else gets no reply.
pub open spec fn respond(m: Map<TokenV, EntryV>, req: TokenV, now: int) -> (
    Option<TokenV>,
    Map<TokenV, EntryV>,
) {
    match req {
        TokenV::Array(_, args) => if args.len() == 0 {
            (Some(arity_error()), m)
        } else {
            match args[0] {
                TokenV::Command(CommandIdent::Ping) => (Some(pong_reply()), m),
                TokenV::Command(CommandIdent::Echo) => if args.len() < 2 {
                    (Some(arity_error()), m)
                } else {
                    (Some(args[1]), m)
                },
                TokenV::Command(CommandIdent::Get) => if args.len() < 2 {
                    (Some(arity_error()), m)
                } else {
                    (Some(lookup(m, args[1], now)), m)
                },
                TokenV::Command(CommandIdent::SetKey) => if args.len() < 3 {
                    (Some(arity_error()), m)
                } else {
                    match set_expiry(args, now) {
                        Err(e) => (Some(e), m),
                        Ok(x) => (Some(ok_reply()), m.insert(args[1], (args[2], x))),
                    }
                },
                _ => (Some(ok_reply()), m),
            }
        },
        _ => (None, m),
    }
}

fn error_token(msg: &str) -> (r: Token)
    ensures
        r@ == TokenV::Error(msg@),
{
    Token::Error(String::from_str(msg))
}

fn simple_token(msg: &str) -> (r: Token)
    ensures
        r@ == TokenV::SimpleString(msg@),
{
    Token::SimpleString(String::from_str(msg))
}

fn expiry_after_exec(now: u128, ttl: u128) -> (r: Option<u128>)
    ensures
        r == expiry_after(now as int, ttl as int),
{
    now.checked_add(ttl)
}

/// The expiry that the arguments of a `SET` ask for at time `now`.
fn set_expiry_exec(args: &Vec<Token>, now: u128) -> (r: Result<Option<u128>, Token>)
    ensures
        match set_expiry(crate::token::views_of(args@), now as int) {
            Ok(x) => r == Ok::<Option<u128>, Token>(x),
            Err(e) => r matches Err(t) && t@ == e,
        },
{
    let ghost vs = crate::token::views_of(args@);
    if args.len() >= 4 && (match &args[3] {
        Token::Command(CommandIdent::Px) => true,
        _ => false,
    }) {
        if args.len() < 5 {
            return Err(error_token("ERR wrong number of arguments"));
        }
        match &args[4] {
            Token::Integer(n) => {
                if *n < 0 {
                    Err(error_token("ERR invalid expire time"))
                } else {
                    match expiry_after_exec(now, *n as u128) {
                        Some(t) => Ok(Some(t)),
                        None => Err(error_token("ERR invalid expire time")),
                    }
                }
            },
            Token::BulkString(_, s) => match parse_u128(s.as_str()) {
                None => Err(error_token("ERR invalid expire time")),
                Some(n) => match expiry_after_exec(now, n) {
                    Some(t) => Ok(Some(t)),
                    None => Err(error_token("ERR invalid expire time")),
                },
            },
            _ => Ok(None),
        }
    } else {
        assert(!(vs.len() >= 4 && vs[3] == TokenV::Command(CommandIdent::Px)));
        Ok(None)
    }
}

/// The reply to a malformed frame.
pub fn protocol_error_reply() -> (r: Token)
    ensures
        r@ == protocol_error(),
{
    error_token("ERR protocol error")
}

/// Executes one request against the store at time `now` and returns the
/// reply, if the request calls for one.
pub fn execute(db: &mut Db, request: &Token, now: u128) -> (r: Option<Token>)
    requires
        old(db).wf(),
    ensures
        final(db).wf(),
        final(db)@ == respond(old(db)@, request@, now as int).1,
        match respond(old(db)@, request@, now as int).0 {
            Some(t) => r matches Some(x) && x@ == t,
            None => r is None,
        },
{
    let args = match request {
        Token::Array(_, args) => args,
        _ => {
            return None;
        },
    };
    let ghost vs = request@->Array_1;
    assert(vs == crate::token::views_of(args@));
    if args.len() == 0 {
        return Some(error_token("ERR wrong number of arguments"));
    }
    match &args[0] {
        Token::Command(CommandIdent::Ping) => Some(simple_token("PONG")),
        Token::Command(CommandIdent::Echo) => {
            if args.len() < 2 {
                Some(error_token("ERR wrong number of arguments"))
            } else {
                Some(args[1].duplicate())
            }
        },
        Token::Command(CommandIdent::Get) => {
            if args.len() < 2 {
                Some(error_token("ERR wrong number of arguments"))
            } else {
                Some(db.get_at(&args[1], now))
            }
        },
        Token::Command(CommandIdent::SetKey) => {
            if args.len() < 3 {
                Some(error_token("ERR wrong number of arguments"))
            } else {
                match set_expiry_exec(args, now) {
                    Err(e) => Some(e),
                    Ok(x) => {
                        let key = args[1].duplicate();
                        let value = args[2].duplicate();
                        db.set(key, DbValue { value, ttl: x });
                        Some(simple_token("OK"))
                    },
                }
            }
        },
        _ => Some(simple_token("OK")),
    }
}

/// Serving the lines `ls` of a buffer at time `now`: the reply text, and the
/// store after it. Each request is decoded and executed in turn; at a
/// malformed frame a protocol error is replied and the rest of the buffer is
/// dropped.
pub open spec fn serve_lines(m: Map<TokenV, EntryV>, ls: Seq<Seq<char>>, now: int) -> (
    Seq<char>,
    Map<TokenV, EntryV>,
)
    decreases ls.len(),
{
    if ls.len() == 0 {
        (Seq::empty(), m)
    } else {
        match decode_one(ls) {
            None => (wire(protocol_error()), m),
            Some(p) => if p.1.len() < ls.len() {
                let step = respond(m, p.0, now);
                let here = match step.0 {
                    Some(t) => wire(t),
                    None => Seq::empty(),
                };
                let after = serve_lines(step.1, p.1, now);
                (here + after.0, after.1)
            } else {
                (Seq::empty(), m)
            },
        }
    }
}

/// Serves one received buffer at time `now`: returns the text to send back.
pub fn serve_at(db: &mut Db, input: String, now: u128) -> (r: String)
    requires
        old(db).wf(),
    ensures
        final(db).wf(),
        r@ == serve_lines(old(db)@, lines_of(input@), now as int).0,
        final(db)@ == serve_lines(old(db)@, lines_of(input@), now as int).1,
{
    let mut p = Parser::new(input);
    let ghost ls = lines_view(p.input);
    let ghost m0 = db@;
    let mut out = String::new();
    while p.input.len() > 0
        invariant
            db.wf(),
            ls == lines_of(input@),
            m0 == old(db)@,
            serve_lines(m0, ls, now as int).0 == out@ + serve_lines(
                db@,
                lines_view(p.input),
                now as int,
            ).0,
            serve_lines(m0, ls, now as int).1 == serve_lines(db@, lines_view(p.input), now as int).1,
        decreases p.input@.len(),
    {
        let ghost cur = lines_view(p.input);
        let ghost before = out@;
        match Token::next_token(&mut p.input) {
            Ok(t) => {
                let ghost m_before = db@;
                let reply = execute(db, &t, now);
                let ghost here = match respond(m_before, t@, now as int).0 {
                    Some(w) => wire(w),
                    None => Seq::<char>::empty(),
                };
                match reply {
                    Some(x) => x.write_wire(&mut out),
                    None => {},
                }
                proof {
                    assert(out@ =~= before + here);
                    let rest = serve_lines(db@, lines_view(p.input), now as int);
                    assert(serve_lines(m_before, cur, now as int).0 == here + rest.0);
                    assert(before + (here + rest.0) =~= out@ + rest.0);
                }
            },
            Err(_) => {
                let e = protocol_error_reply();
                e.write_wire(&mut out);
                assert(serve_lines(db@, cur, now as int).0 == wire(protocol_error()));
                return out;
            },
        }
    }
    assert(out@ + Seq::<char>::empty() =~= out@);
    out
}

/// The request `SET k v`.
pub open spec fn set_request(k: TokenV, v: TokenV) -> TokenV {
    TokenV::Array(3, seq![TokenV::Command(CommandIdent::SetKey), k, v])
}

/// The request `SET k v PX ttl`.
pub open spec fn set_px_request(k: TokenV, v: TokenV, ttl: int) -> TokenV {
    TokenV::Array(
        5,
        seq![
            TokenV::Command(CommandIdent::SetKey),
            k,
            v,
            TokenV::Command(CommandIdent::Px),
            TokenV::Integer(ttl),
        ],
    )
}

/// The request `GET k`.
pub open spec fn get_request(k: TokenV) -> TokenV {
    TokenV::Array(2, seq![TokenV::Command(CommandIdent::Get), k])
}

/// A second `SET` of a key replaces the first: a later `GET` of the key
/// returns the second value, never the first.
pub proof fn lemma_set_overwrites(
    m: Map<TokenV, EntryV>,
    k: TokenV,
    v: TokenV,
    v2: TokenV,
    t1: int,
    t2: int,
    t3: int,
)
    ensures
        ({
            let m1 = respond(m, set_request(k, v), t1).1;
            let m2 = respond(m1, set_request(k, v2), t2).1;
            respond(m2, get_request(k), t3).0 == Some(v2)
        }),
{
}

/// A key set with `PX 0` reads as `Null` at any time strictly after the
/// `SET`.
pub proof fn lemma_px_zero_expires(m: Map<TokenV, EntryV>, k: TokenV, v: TokenV, t1: u128, t2: int)
    requires
        t2 > t1,
    ensures
        ({
            let m1 = respond(m, set_px_request(k, v, 0), t1 as int).1;
            respond(m1, get_request(k), t2).0 == Some(TokenV::Null)
        }),
{
}

/// A key set without `PX` never expires: a `GET` at any later time returns
/// the value.
pub proof fn lemma_no_px_never_expires(
    m: Map<TokenV, EntryV>,
    k: TokenV,
    v: TokenV,
    t1: int,
    t2: int,
)
    ensures
        ({
            let m1 = respond(m, set_request(k, v), t1).1;
            respond(m1, get_request(k), t2).0 == Some(v)
        }),
{
}

/// `ECHO` without an argument is answered with an error reply and leaves the
/// store as it was.
pub proof fn lemma_echo_without_argument(m: Map<TokenV, EntryV>, n: int, now: int)
    ensures
        respond(m, TokenV::Array(n, seq![TokenV::Command(CommandIdent::Echo)]), now) == (
            Some(arity_error()),
            m,
        ),
{
}

} // verus!
