//! Decoding text into tokens and encoding tokens back into wire text.

use std::collections::VecDeque;
use vstd::prelude::*;
use vstd::string::StringExecFns;
use crate::text::{
    chars_of, crlf_at, int_text, i32_value, i64_value, parse_i32, parse_i64, push_int, push_nat, split_crlf,
    split_from, string_of, trim, trim_bounds,
};
use crate::token::{command_of, name_of, views_of, CommandIdent, Token, TokenV};

verus! {

/// A malformed frame: an unknown leading character, a number that does not
/// parse, or a frame cut short by the end of the input.
#[derive(Debug, PartialEq, Eq, Structural, Clone, Copy)]
pub struct DecodeError;

/// The text of each line of a line queue.
pub open spec fn lines_view(q: VecDeque<String>) -> Seq<Seq<char>> {
    q@.map_values(|l: String| l@)
}

/// The lines of a received buffer: white space trimmed from both ends, then
/// split on `\r\n`; a buffer of white space alone has no lines.
pub open spec fn lines_of(s: Seq<char>) -> Seq<Seq<char>> {
    if trim(s).len() == 0 {
        Seq::empty()
    } else {
        split_crlf(trim(s))
    }
}

/// Decodes one token from the front of `ls`: the token and the lines left.
pub open spec fn decode_one(ls: Seq<Seq<char>>) -> Option<(TokenV, Seq<Seq<char>>)>
    decreases ls.len(), 0nat,
{
    if ls.len() == 0 || ls[0].len() == 0 {
        None
    } else {
        let line = ls[0];
        let body = line.drop_first();
        let rest = ls.drop_first();
        if line[0] == '$' {
            match i32_value(body) {
                None => None,
                Some(n) => if n == -1 {
                    Some((TokenV::Null, rest))
                } else if rest.len() == 0 {
                    None
                } else {
                    match command_of(rest[0]) {
                        Some(c) => Some((TokenV::Command(c), rest.drop_first())),
                        None => Some((TokenV::BulkString(n, rest[0]), rest.drop_first())),
                    }
                },
            }
        } else if line[0] == '-' {
            Some((TokenV::Error(body), rest))
        } else if line[0] == ':' {
            match i64_value(body) {
                None => None,
                Some(n) => Some((TokenV::Integer(n), rest)),
            }
        } else if line[0] == '+' {
            Some((TokenV::SimpleString(body), rest))
        } else if line[0] == '*' {
            match i32_value(body) {
                None => None,
                Some(n) => match decode_many(rest, if n < 0 { 0 } else { n as nat }) {
                    None => None,
                    Some(p) => Some((TokenV::Array(n, p.0), p.1)),
                },
            }
        } else {
            None
        }
    }
}

/// Decodes `k` tokens in a row from the front of `ls`.
pub open spec fn decode_many(ls: Seq<Seq<char>>, k: nat) -> Option<(Seq<TokenV>, Seq<Seq<char>>)>
    decreases ls.len(), k + 1,
{
    if k == 0 {
        Some((Seq::empty(), ls))
    } else {
        match decode_one(ls) {
            None => None,
            Some(p) => if p.1.len() < ls.len() {
                match decode_many(p.1, (k - 1) as nat) {
                    None => None,
                    Some(q) => Some((seq![p.0] + q.0, q.1)),
                }
            } else {
                None
            },
        }
    }
}

/// Decodes tokens from `ls` until no line is left.
pub open spec fn decode_all(ls: Seq<Seq<char>>) -> Option<Seq<TokenV>>
    decreases ls.len(),
{
    if ls.len() == 0 {
        Some(Seq::empty())
    } else {
        match decode_one(ls) {
            None => None,
            Some(p) => if p.1.len() < ls.len() {
                match decode_all(p.1) {
                    None => None,
                    Some(ts) => Some(seq![p.0] + ts),
                }
            } else {
                None
            },
        }
    }
}

/// The tokens that a received buffer decodes to.
pub open spec fn decode_text(s: Seq<char>) -> Option<Seq<TokenV>> {
    decode_all(lines_of(s))
}

impl Token {
    /// Decodes one token from the front of `stream`, consuming its lines.
    pub fn next_token(stream: &mut VecDeque<String>) -> (r: Result<Token, DecodeError>)
        ensures
            match decode_one(lines_view(*old(stream))) {
                Some(p) => r matches Ok(t) && t@ == p.0 && lines_view(*final(stream)) == p.1,
                None => r is Err,
            },
            final(stream)@.len() <= old(stream)@.len(),
            old(stream)@.len() > 0 ==> final(stream)@.len() < old(stream)@.len(),
        decreases old(stream)@.len(),
    {
        let ghost ls = lines_view(*stream);
        let front = match stream.pop_front() {
            Some(l) => l,
            None => {
                return Err(DecodeError);
            },
        };
        proof {
            assert(lines_view(*stream) =~= ls.drop_first());
        }
        let c = chars_of(front.as_str());
        let n = c.len();
        if n == 0 {
            return Err(DecodeError);
        }
        assert(c@.subrange(1, n as int) =~= ls[0].drop_first());
        let first = c[0];
        if first == '$' {
            match parse_i32(&c, 1, n) {
                None => Err(DecodeError),
                Some(len) => {
                    if len == -1 {
                        return Ok(Token::NullBulkString);
                    }
                    let payload = match stream.pop_front() {
                        Some(p) => p,
                        None => {
                            return Err(DecodeError);
                        },
                    };
                    proof {
                        assert(lines_view(*stream) =~= ls.drop_first().drop_first());
                    }
                    match CommandIdent::from_str(payload.as_str()) {
                        Some(cmd) => Ok(Token::Command(cmd)),
                        None => Ok(Token::BulkString(len, payload)),
                    }
                },
            }
        } else if first == '-' {
            Ok(Token::Error(string_of(&c, 1, n)))
        } else if first == ':' {
            match parse_i64(&c, 1, n) {
                None => Err(DecodeError),
                Some(v) => Ok(Token::Integer(v)),
            }
        } else if first == '+' {
            Ok(Token::SimpleString(string_of(&c, 1, n)))
        } else if first == '*' {
            match parse_i32(&c, 1, n) {
                None => Err(DecodeError),
                Some(count) => {
                    let k: i32 = if count < 0 {
                        0
                    } else {
                        count
                    };
                    let ghost ls0 = lines_view(*stream);
                    assert(ls0 =~= ls.drop_first());
                    let mut out: Vec<Token> = Vec::new();
                    let mut i: i32 = 0;
                    while i < k
                        invariant
                            0 <= i <= k,
                            stream@.len() < old(stream)@.len(),
                            ls == lines_view(*old(stream)),
                            decode_one(ls) == (match decode_many(ls0, k as nat) {
                                None => None,
                                Some(p) => Some((TokenV::Array(count as int, p.0), p.1)),
                            }),
                            out@.len() == i,
                            decode_many(ls0, k as nat) == (match decode_many(
                                lines_view(*stream),
                                (k - i) as nat,
                            ) {
                                Some(q) => Some((views_of(out@) + q.0, q.1)),
                                None => None,
                            }),
                        decreases k - i,
                    {
                        let ghost cur = lines_view(*stream);
                        let t = Token::next_token(stream);
                        match t {
                            Ok(t) => {
                                proof {
                                    let ghost old_out = views_of(out@);
                                    assert(views_of(out@.push(t)) =~= old_out.push(t@));
                                    match decode_many(lines_view(*stream), (k - i - 1) as nat) {
                                        Some(q) => {
                                            assert(old_out.push(t@) + q.0 =~= old_out + (seq![t@]
                                                + q.0));
                                        },
                                        None => {},
                                    }
                                }
                                out.push(t);
                            },
                            Err(e) => {
                                assert(decode_many(cur, (k - i) as nat) is None);
                                assert(decode_many(ls0, k as nat) is None);
                                return Err(e);
                            },
                        }
                        i = i + 1;
                    }
                    let r = Token::Array(count, out);
                    proof {
                        assert(views_of(out@) + Seq::<TokenV>::empty() =~= views_of(out@));
                        assert(r@->Array_1 =~= views_of(out@));
                    }
                    Ok(r)
                },
            }
        } else {
            Err(DecodeError)
        }
    }
}

/// The queue of lines of one received buffer, decoded token by token.
pub struct Parser {
    pub input: VecDeque<String>,
}

impl Parser {
    /// Trims white space from both ends of `input` and splits it into lines
    /// on `\r\n`.
    pub fn new(input: String) -> (r: Parser)
        ensures
            lines_view(r.input) == lines_of(input@),
    {
        let all = chars_of(input.as_str());
        let (a, b) = trim_bounds(&all);
        let mut out: VecDeque<String> = VecDeque::new();
        if a == b {
            assert(lines_view(out) =~= lines_of(input@));
            return Parser { input: out };
        }
        let t = chars_of(string_of(&all, a, b).as_str());
        let n = t.len();
        let mut start: usize = 0;
        let mut i: usize = 0;
        assert(lines_view(out) + split_from(t@, 0, 0) =~= split_crlf(t@));
        while n - i >= 2
            invariant
                n == t@.len(),
                t@ == trim(input@),
                start <= i <= n,
                lines_view(out) + split_from(t@, start as int, i as int) == split_crlf(t@),
            decreases n - i,
        {
            if t[i] == '\r' && t[i + 1] == '\n' {
                assert(crlf_at(t@, i as int));
                let line = string_of(&t, start, i);
                let ghost before = lines_view(out);
                out.push_back(line);
                assert(lines_view(out) =~= before.push(line@));
                assert(before.push(line@) + split_from(t@, i + 2, i + 2) =~= before + (seq![line@]
                    + split_from(t@, i + 2, i + 2)));
                i = i + 2;
                start = i;
            } else {
                assert(!crlf_at(t@, i as int));
                i = i + 1;
            }
        }
        let line = string_of(&t, start, n);
        let ghost before = lines_view(out);
        out.push_back(line);
        assert(lines_view(out) =~= before.push(line@));
        assert(before.push(line@) =~= before + seq![line@]);
        Parser { input: out }
    }

    /// The next token of the buffer; `None` once no line is left.
    pub fn next_item(&mut self) -> (r: Option<Result<Token, DecodeError>>)
        ensures
            lines_view(old(self).input).len() == 0 ==> r is None && final(self).input@ == old(
                self,
            ).input@,
            r is Some ==> final(self).input@.len() < old(self).input@.len(),
            lines_view(old(self).input).len() > 0 ==> match decode_one(
                lines_view(old(self).input),
            ) {
                Some(p) => r matches Some(Ok(t)) && t@ == p.0 && lines_view(final(self).input)
                    == p.1,
                None => r matches Some(Err(_)),
            },
    {
        if self.input.len() == 0 {
            None
        } else {
            Some(Token::next_token(&mut self.input))
        }
    }

    /// All the tokens of the buffer, in order; an error if any frame is
    /// malformed.
    pub fn collect_tokens(self) -> (r: Result<Vec<Token>, DecodeError>)
        ensures
            match decode_all(lines_view(self.input)) {
                Some(ts) => r matches Ok(v) && views_of(v@) == ts,
                None => r is Err,
            },
    {
        let mut p = self;
        let ghost ls = lines_view(p.input);
        let mut out: Vec<Token> = Vec::new();
        while p.input.len() > 0
            invariant
                ls == lines_view(self.input),
                decode_all(ls) == (match decode_all(lines_view(p.input)) {
                    Some(ts) => Some(views_of(out@) + ts),
                    None => None,
                }),
            decreases p.input@.len(),
        {
            let ghost cur = lines_view(p.input);
            match Token::next_token(&mut p.input) {
                Ok(t) => {
                    proof {
                        let ghost old_out = views_of(out@);
                        assert(views_of(out@.push(t)) =~= old_out.push(t@));
                        match decode_all(lines_view(p.input)) {
                            Some(ts) => {
                                assert(old_out.push(t@) + ts =~= old_out + (seq![t@] + ts));
                            },
                            None => {},
                        }
                    }
                    out.push(t);
                },
                Err(e) => {
                    assert(decode_all(cur) is None);
                    return Err(e);
                },
            }
        }
        assert(views_of(out@) + Seq::<TokenV>::empty() =~= views_of(out@));
        Ok(out)
    }
}

/// Decodes every token of a received buffer.
pub fn decode(text: String) -> (r: Result<Vec<Token>, DecodeError>)
    ensures
        match decode_text(text@) {
            Some(ts) => r matches Ok(v) && views_of(v@) == ts,
            None => r is Err,
        },
{
    Parser::new(text).collect_tokens()
}

pub open spec fn crlf() -> Seq<char> {
    seq!['\r', '\n']
}

/// The number of bytes of the UTF-8 encoding of `s`.
pub open spec fn utf8_len(s: Seq<char>) -> int {
    vstd::utf8::encode_utf8(s).len() as int
}

/// The wire text of a bulk string with payload `s`.
pub open spec fn bulk_wire(s: Seq<char>) -> Seq<char> {
    seq!['$'] + int_text(utf8_len(s)) + crlf() + s + crlf()
}

/// The wire text of a token. A recognised command is sent as the bulk string
/// of its canonical name.
pub open spec fn wire(t: TokenV) -> Seq<char>
    decreases t,
{
    match t {
        TokenV::Array(n, es) => seq!['*'] + int_text(n) + crlf() + wire_all(es),
        TokenV::BulkString(_, s) => bulk_wire(s),
        TokenV::Integer(n) => seq![':'] + int_text(n) + crlf(),
        TokenV::SimpleString(s) => seq!['+'] + s + crlf(),
        TokenV::Error(s) => seq!['-'] + s + crlf(),
        TokenV::Null => seq!['$', '-', '1'] + crlf(),
        TokenV::Command(c) => bulk_wire(name_of(c)),
    }
}

/// The wire texts of tokens, one after the other.
pub open spec fn wire_all(es: Seq<TokenV>) -> Seq<char>
    decreases es,
{
    if es.len() == 0 {
        Seq::empty()
    } else {
        wire(es[0]) + wire_all(es.subrange(1, es.len() as int))
    }
}

proof fn lemma_wire_all_push(es: Seq<TokenV>, x: TokenV)
    ensures
        wire_all(es.push(x)) == wire_all(es) + wire(x),
    decreases es.len(),
{
    let e2 = es.push(x);
    if es.len() == 0 {
        assert(e2.subrange(1, e2.len() as int) =~= Seq::<TokenV>::empty());
        assert(wire_all(Seq::<TokenV>::empty()) == Seq::<char>::empty());
        assert(e2[0] == x);
        assert(wire_all(e2) =~= wire(x));
    } else {
        let tail = es.subrange(1, es.len() as int);
        lemma_wire_all_push(tail, x);
        assert(e2.subrange(1, e2.len() as int) =~= tail.push(x));
        assert(wire_all(e2) =~= wire_all(es) + wire(x));
    }
}

fn push_str(out: &mut String, s: &str)
    ensures
        final(out)@ == old(out)@ + s@,
{
    out.append(s);
}

fn push_crlf(out: &mut String)
    ensures
        final(out)@ == old(out)@ + crlf(),
{
    crate::text::push_char(out, '\r');
    crate::text::push_char(out, '\n');
    assert(final(out)@ =~= old(out)@ + crlf());
}

fn push_bulk(out: &mut String, s: &str)
    ensures
        final(out)@ == old(out)@ + bulk_wire(s@),
{
    crate::text::push_char(out, '$');
    let bytes = s.as_bytes();
    let len = bytes.len();
    assert(len as int == utf8_len(s@));
    push_nat(out, len as u64);
    assert(int_text(len as int) == crate::text::nat_text(len as nat));
    push_crlf(out);
    push_str(out, s);
    push_crlf(out);
    assert(final(out)@ =~= old(out)@ + bulk_wire(s@));
}

/// The canonical name of a command.
pub fn command_name(c: CommandIdent) -> (r: &'static str)
    ensures
        r@ == name_of(c),
{
    proof {
        reveal_strlit("PING");
        reveal_strlit("ECHO");
        reveal_strlit("GET");
        reveal_strlit("SET");
        reveal_strlit("PX");
    }
    match c {
        CommandIdent::Ping => "PING",
        CommandIdent::Echo => "ECHO",
        CommandIdent::Get => "GET",
        CommandIdent::SetKey => "SET",
        CommandIdent::Px => "PX",
    }
}

impl Token {
    /// Appends the wire text of this token.
    pub fn write_wire(&self, out: &mut String)
        ensures
            final(out)@ == old(out)@ + wire(self@),
        decreases self,
    {
        match self {
            Token::Array(n, v) => {
                proof {
                    assert(decreases_to!(*self => self->Array_1));
                    assert forall|j: int| 0 <= j < v.len() implies decreases_to!(
                        *self => #[trigger] v[j]
                    ) by {
                        vstd::std_specs::vec::axiom_vec_index_decreases(*v, j);
                    }
                }
                let ghost es = self@->Array_1;
                crate::text::push_char(out, '*');
                push_int(out, *n as i64);
                push_crlf(out);
                let ghost head = out@;
                assert(es.subrange(0, 0) =~= Seq::<TokenV>::empty());
                let mut i: usize = 0;
                while i < v.len()
                    invariant
                        i <= v.len(),
                        es == views_of(v@),
                        out@ == head + wire_all(es.subrange(0, i as int)),
                        forall|j: int| 0 <= j < v.len() ==> decreases_to!(*self => #[trigger] v[j]),
                    decreases v.len() - i,
                {
                    v[i].write_wire(out);
                    proof {
                        lemma_wire_all_push(es.subrange(0, i as int), es[i as int]);
                        assert(es.subrange(0, i as int).push(es[i as int]) =~= es.subrange(
                            0,
                            i + 1,
                        ));
                    }
                    i = i + 1;
                }
                assert(es.subrange(0, i as int) =~= es);
                assert(out@ =~= old(out)@ + wire(self@));
            },
            Token::BulkString(_, s) => {
                push_bulk(out, s.as_str());
            },
            Token::Integer(n) => {
                crate::text::push_char(out, ':');
                push_int(out, *n as i64);
                push_crlf(out);
                assert(out@ =~= old(out)@ + wire(self@));
            },
            Token::SimpleString(s) => {
                crate::text::push_char(out, '+');
                push_str(out, s.as_str());
                push_crlf(out);
                assert(out@ =~= old(out)@ + wire(self@));
            },
            Token::Error(s) => {
                crate::text::push_char(out, '-');
                push_str(out, s.as_str());
                push_crlf(out);
                assert(out@ =~= old(out)@ + wire(self@));
            },
            Token::NullBulkString => {
                crate::text::push_char(out, '$');
                crate::text::push_char(out, '-');
                crate::text::push_char(out, '1');
                push_crlf(out);
                assert(out@ =~= old(out)@ + wire(self@));
            },
            Token::Command(c) => {
                push_bulk(out, command_name(*c));
            },
        }
    }

    /// The wire text of this token.
    pub fn to_wire(&self) -> (r: String)
        ensures
            r@ == wire(self@),
    {
        let mut out = String::new();
        self.write_wire(&mut out);
        assert(out@ =~= wire(self@));
        out
    }
}

} // verus!
