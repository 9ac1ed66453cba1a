//! Decoding the wire text of a token gives the token back.

use vstd::prelude::*;
use crate::codec::{
    crlf, decode_all, decode_many, decode_one, decode_text, lines_of, utf8_len, wire, wire_all,
};
use crate::text::{
    crlf_at, int_text, is_white_space, lemma_int_text_value, lemma_nat_text, nat_text,
    split_from, trim, trim_end, trim_start,
};
use crate::token::{command_of, name_of, TokenV};

verus! {

/// `s` holds no line terminator.
pub open spec fn no_crlf(s: Seq<char>) -> bool {
    forall|i: int| !#[trigger] crlf_at(s, i)
}

/// A token whose wire text decodes to it again: every count and integer fits
/// in its field's width, an array holds as many elements as its count says (none for a
/// negative count), no text holds a line terminator, and no bulk string
/// names a command. A recognised command is input only and is left out.
pub open spec fn wire_safe(t: TokenV) -> bool
    decreases t,
{
    match t {
        TokenV::Array(n, es) => {
            &&& i32::MIN <= n <= i32::MAX
            &&& es.len() == (if n < 0 { 0 } else { n })
            &&& forall|i: int| 0 <= i < es.len() ==> wire_safe(#[trigger] es[i])
        },
        TokenV::BulkString(_, s) => no_crlf(s) && command_of(s) is None && utf8_len(s) <= i32::MAX,
        TokenV::Integer(n) => i64::MIN <= n <= i64::MAX,
        TokenV::SimpleString(s) => no_crlf(s),
        TokenV::Error(s) => no_crlf(s),
        TokenV::Null => true,
        TokenV::Command(_) => false,
    }
}

/// The token with each bulk string's length set to its payload's byte count.
pub open spec fn normalized(t: TokenV) -> TokenV
    decreases t,
{
    match t {
        TokenV::Array(n, es) => TokenV::Array(
            n,
            Seq::new(
                es.len(),
                |i: int|
                    if 0 <= i < es.len() {
                        normalized(es[i])
                    } else {
                        TokenV::Null
                    },
            ),
        ),
        TokenV::BulkString(_, s) => TokenV::BulkString(utf8_len(s), s),
        _ => t,
    }
}

/// The lines of a token's wire text, without their terminators.
pub open spec fn wire_lines(t: TokenV) -> Seq<Seq<char>>
    decreases t,
{
    match t {
        TokenV::Array(n, es) => seq![seq!['*'] + int_text(n)] + wire_lines_all(es),
        TokenV::BulkString(_, s) => seq![seq!['$'] + int_text(utf8_len(s)), s],
        TokenV::Integer(n) => seq![seq![':'] + int_text(n)],
        TokenV::SimpleString(s) => seq![seq!['+'] + s],
        TokenV::Error(s) => seq![seq!['-'] + s],
        TokenV::Null => seq![seq!['$', '-', '1']],
        TokenV::Command(c) => seq![seq!['$'] + int_text(utf8_len(name_of(c))), name_of(c)],
    }
}

/// The lines of the wire texts of tokens, one after the other.
pub open spec fn wire_lines_all(es: Seq<TokenV>) -> Seq<Seq<char>>
    decreases es,
{
    if es.len() == 0 {
        Seq::empty()
    } else {
        wire_lines(es[0]) + wire_lines_all(es.subrange(1, es.len() as int))
    }
}

/// Lines, each followed by a terminator.
pub open spec fn join_term(ls: Seq<Seq<char>>) -> Seq<char>
    decreases ls.len(),
{
    if ls.len() == 0 {
        Seq::empty()
    } else {
        ls[0] + crlf() + join_term(ls.drop_first())
    }
}

/// Lines with a terminator between each two.
pub open spec fn join_sep(ls: Seq<Seq<char>>) -> Seq<char>
    decreases ls.len(),
{
    if ls.len() <= 1 {
        if ls.len() == 0 {
            Seq::empty()
        } else {
            ls[0]
        }
    } else {
        ls[0] + crlf() + join_sep(ls.drop_first())
    }
}

proof fn lemma_join_term_append(a: Seq<Seq<char>>, b: Seq<Seq<char>>)
    ensures
        join_term(a + b) == join_term(a) + join_term(b),
    decreases a.len(),
{
    if a.len() == 0 {
        assert(a + b =~= b);
        assert(join_term(a) + join_term(b) =~= join_term(b));
    } else {
        lemma_join_term_append(a.drop_first(), b);
        assert((a + b).drop_first() =~= a.drop_first() + b);
        assert(join_term(a + b) =~= join_term(a) + join_term(b));
    }
}

proof fn lemma_join_term_sep(ls: Seq<Seq<char>>)
    requires
        ls.len() >= 1,
    ensures
        join_term(ls) == join_sep(ls) + crlf(),
    decreases ls.len(),
{
    if ls.len() == 1 {
        assert(ls.drop_first() =~= Seq::<Seq<char>>::empty());
        assert(join_term(Seq::<Seq<char>>::empty()) == Seq::<char>::empty());
        assert(join_term(ls) =~= join_sep(ls) + crlf());
    } else {
        lemma_join_term_sep(ls.drop_first());
        assert(join_term(ls) =~= join_sep(ls) + crlf());
    }
}

proof fn lemma_ascii_utf8_len(s: Seq<char>)
    requires
        forall|i: int| 0 <= i < s.len() ==> 'A' <= #[trigger] s[i] <= 'Z',
    ensures
        utf8_len(s) == s.len(),
{
    assert(vstd::utf8::is_ascii_chars(s));
    vstd::utf8::is_ascii_chars_encode_utf8(s);
}

proof fn lemma_name_len(c: crate::token::CommandIdent)
    ensures
        utf8_len(name_of(c)) == name_of(c).len(),
        name_of(c).len() <= 4,
{
    lemma_ascii_utf8_len(name_of(c));
}

proof fn lemma_wire_lines_nonempty(t: TokenV)
    ensures
        wire_lines(t).len() >= 1,
{
    match t {
        TokenV::Array(n, es) => {
            assert((seq![seq!['*'] + int_text(n)] + wire_lines_all(es)).len() >= 1);
        },
        _ => {},
    }
}

/// The wire text of a token is its lines, each followed by a terminator.
proof fn lemma_wire_joined(t: TokenV)
    ensures
        wire(t) == join_term(wire_lines(t)),
    decreases t,
{
    let ls = wire_lines(t);
    assert(join_term(Seq::<Seq<char>>::empty()) == Seq::<char>::empty());
    match t {
        TokenV::Array(n, es) => {
            lemma_wire_all_joined(es);
            let head = seq![seq!['*'] + int_text(n)];
            lemma_join_term_append(head, wire_lines_all(es));
            assert(head.drop_first() =~= Seq::<Seq<char>>::empty());
            assert(join_term(head) =~= seq!['*'] + int_text(n) + crlf());
            assert(wire(t) =~= join_term(ls));
        },
        TokenV::BulkString(_, s) => {
            assert(ls.drop_first().drop_first() =~= Seq::<Seq<char>>::empty());
            assert(join_term(ls.drop_first()) =~= s + crlf());
            assert(wire(t) =~= join_term(ls));
        },
        TokenV::Command(c) => {
            assert(ls.drop_first().drop_first() =~= Seq::<Seq<char>>::empty());
            assert(join_term(ls.drop_first()) =~= name_of(c) + crlf());
            assert(wire(t) =~= join_term(ls));
        },
        _ => {
            assert(ls.drop_first() =~= Seq::<Seq<char>>::empty());
            assert(wire(t) =~= join_term(ls));
        },
    }
}

proof fn lemma_wire_all_joined(es: Seq<TokenV>)
    ensures
        wire_all(es) == join_term(wire_lines_all(es)),
    decreases es,
{
    if es.len() > 0 {
        lemma_wire_joined(es[0]);
        lemma_wire_all_joined(es.subrange(1, es.len() as int));
        lemma_join_term_append(wire_lines(es[0]), wire_lines_all(es.subrange(1, es.len() as int)));
    }
}

/// Decoding the lines of a token's wire text gives the token, with each bulk
/// string's length recomputed, and leaves the lines that follow.
pub proof fn lemma_decode_wire_lines(t: TokenV, rest: Seq<Seq<char>>)
    requires
        wire_safe(t),
    ensures
        decode_one(wire_lines(t) + rest) == Some((normalized(t), rest)),
    decreases t,
{
    let ls = wire_lines(t) + rest;
    match t {
        TokenV::Array(n, es) => {
            lemma_int_text_value(n);
            let body = wire_lines_all(es) + rest;
            assert(ls =~= seq![seq!['*'] + int_text(n)] + body);
            assert(ls[0].drop_first() =~= int_text(n));
            assert(ls.drop_first() =~= body);
            lemma_decode_many_wire_lines(es, rest);
            assert(normalized(t)->Array_1 =~= normalized_all(es));
        },
        TokenV::BulkString(_, s) => {
            lemma_int_text_value(utf8_len(s));
            assert(ls[0].drop_first() =~= int_text(utf8_len(s)));
            assert(ls.drop_first()[0] == s);
            assert(ls.drop_first().drop_first() =~= rest);
        },
        TokenV::Command(c) => {
            lemma_name_len(c);
            lemma_int_text_value(utf8_len(name_of(c)));
            assert(ls[0].drop_first() =~= int_text(utf8_len(name_of(c))));
            assert(ls.drop_first()[0] == name_of(c));
            assert(ls.drop_first().drop_first() =~= rest);
        },
        TokenV::Integer(n) => {
            lemma_int_text_value(n);
            assert(ls[0].drop_first() =~= int_text(n));
            assert(ls.drop_first() =~= rest);
        },
        TokenV::SimpleString(s) => {
            assert(ls[0].drop_first() =~= s);
            assert(ls.drop_first() =~= rest);
        },
        TokenV::Error(s) => {
            assert(ls[0].drop_first() =~= s);
            assert(ls.drop_first() =~= rest);
        },
        TokenV::Null => {
            assert(ls[0].drop_first() =~= seq!['-', '1']);
            assert(int_text(-1) =~= seq!['-', '1']);
            lemma_int_text_value(-1);
            assert(ls.drop_first() =~= rest);
        },
    }
}

pub open spec fn normalized_all(es: Seq<TokenV>) -> Seq<TokenV> {
    Seq::new(
        es.len(),
        |i: int|
            if 0 <= i < es.len() {
                normalized(es[i])
            } else {
                TokenV::Null
            },
    )
}

proof fn lemma_decode_many_wire_lines(es: Seq<TokenV>, rest: Seq<Seq<char>>)
    requires
        forall|i: int| 0 <= i < es.len() ==> wire_safe(#[trigger] es[i]),
    ensures
        decode_many(wire_lines_all(es) + rest, es.len()) == Some((normalized_all(es), rest)),
    decreases es,
{
    if es.len() == 0 {
        assert(wire_lines_all(es) + rest =~= rest);
        assert(normalized_all(es) =~= Seq::<TokenV>::empty());
    } else {
        let tail = es.subrange(1, es.len() as int);
        let after = wire_lines_all(tail) + rest;
        assert(wire_lines_all(es) + rest =~= wire_lines(es[0]) + after);
        lemma_decode_wire_lines(es[0], after);
        lemma_wire_lines_nonempty(es[0]);
        assert forall|i: int| 0 <= i < tail.len() implies wire_safe(#[trigger] tail[i]) by {
            assert(tail[i] == es[i + 1]);
        }
        lemma_decode_many_wire_lines(tail, rest);
        assert(seq![normalized(es[0])] + normalized_all(tail) =~= normalized_all(es));
    }
}

/// Every line of `ls` holds no terminator.
pub open spec fn lines_clean(ls: Seq<Seq<char>>) -> bool {
    forall|j: int| 0 <= j < ls.len() ==> no_crlf(#[trigger] ls[j])
}

proof fn lemma_header_clean(c: char, n: int)
    requires
        c != '\r',
    ensures
        no_crlf(seq![c] + int_text(n)),
{
    let x = seq![c] + int_text(n);
    if n < 0 {
        lemma_nat_text((-n) as nat);
    } else {
        lemma_nat_text(n as nat);
    }
    assert forall|i: int| !#[trigger] crlf_at(x, i) by {
        if 1 <= i < x.len() {
            assert(x[i] == int_text(n)[i - 1]);
            if n < 0 {
                if i >= 2 {
                    assert(int_text(n)[i - 1] == nat_text((-n) as nat)[i - 2]);
                }
            }
        }
    }
}

proof fn lemma_wire_lines_clean(t: TokenV)
    requires
        wire_safe(t),
    ensures
        lines_clean(wire_lines(t)),
    decreases t,
{
    let ls = wire_lines(t);
    match t {
        TokenV::Array(n, es) => {
            lemma_header_clean('*', n);
            lemma_wire_lines_all_clean(es);
            let head = seq![seq!['*'] + int_text(n)];
            assert forall|j: int| 0 <= j < ls.len() implies no_crlf(#[trigger] ls[j]) by {
                if j >= 1 {
                    assert(ls[j] == wire_lines_all(es)[j - 1]);
                }
            }
        },
        TokenV::BulkString(_, s) => {
            lemma_header_clean('$', utf8_len(s));
        },
        TokenV::Command(c) => {
            lemma_header_clean('$', utf8_len(name_of(c)));
            assert forall|i: int| !#[trigger] crlf_at(name_of(c), i) by {
                if 0 <= i < name_of(c).len() {
                    assert(name_of(c)[i] != '\r');
                }
            }
        },
        TokenV::Integer(n) => {
            lemma_header_clean(':', n);
        },
        TokenV::SimpleString(s) => {
            let x = ls[0];
            assert forall|i: int| !#[trigger] crlf_at(x, i) by {
                if i >= 1 && crlf_at(x, i) {
                    assert(crlf_at(s, i - 1));
                }
            }
        },
        TokenV::Error(s) => {
            let x = ls[0];
            assert forall|i: int| !#[trigger] crlf_at(x, i) by {
                if i >= 1 && crlf_at(x, i) {
                    assert(crlf_at(s, i - 1));
                }
            }
        },
        TokenV::Null => {
            let x = ls[0];
            assert forall|i: int| !#[trigger] crlf_at(x, i) by {}
        },
    }
}

proof fn lemma_wire_lines_all_clean(es: Seq<TokenV>)
    requires
        forall|i: int| 0 <= i < es.len() ==> wire_safe(#[trigger] es[i]),
    ensures
        lines_clean(wire_lines_all(es)),
    decreases es,
{
    if es.len() > 0 {
        let tail = es.subrange(1, es.len() as int);
        assert forall|i: int| 0 <= i < tail.len() implies wire_safe(#[trigger] tail[i]) by {
            assert(tail[i] == es[i + 1]);
        }
        lemma_wire_lines_clean(es[0]);
        lemma_wire_lines_all_clean(tail);
        let a = wire_lines(es[0]);
        let b = wire_lines_all(tail);
        assert forall|j: int| 0 <= j < (a + b).len() implies no_crlf(#[trigger] (a + b)[j]) by {
            if j < a.len() {
                assert((a + b)[j] == a[j]);
            } else {
                assert((a + b)[j] == b[j - a.len()]);
            }
        }
    }
}

/// Scanning a line of `s` that starts at `a` and holds no terminator finds
/// the terminator right after it.
proof fn lemma_split_line(s: Seq<char>, a: int, l: Seq<char>, i: int)
    requires
        0 <= a <= i <= a + l.len(),
        a + l.len() + 2 <= s.len(),
        s.subrange(a, a + l.len()) == l,
        no_crlf(l),
        s[a + l.len()] == '\r',
        s[a + l.len() + 1] == '\n',
    ensures
        split_from(s, a, i) == seq![l] + split_from(s, a + l.len() + 2, a + l.len() + 2),
    decreases a + l.len() - i,
{
    if i < a + l.len() {
        if i + 1 < a + l.len() {
            assert(!crlf_at(l, i - a));
            assert(s[i] == l[i - a] && s[i + 1] == l[i + 1 - a]);
        }
        assert(!crlf_at(s, i));
        lemma_split_line(s, a, l, i + 1);
    } else {
        assert(crlf_at(s, i));
    }
}

proof fn lemma_split_last(s: Seq<char>, a: int, i: int)
    requires
        0 <= a <= i <= s.len(),
        no_crlf(s.subrange(a, s.len() as int)),
    ensures
        split_from(s, a, i) == seq![s.subrange(a, s.len() as int)],
    decreases s.len() - i,
{
    if i + 1 < s.len() {
        let l = s.subrange(a, s.len() as int);
        assert(!crlf_at(l, i - a));
        assert(s[i] == l[i - a] && s[i + 1] == l[i + 1 - a]);
        lemma_split_last(s, a, i + 1);
    }
}

proof fn lemma_split_lines(s: Seq<char>, a: int, ls: Seq<Seq<char>>)
    requires
        0 <= a <= s.len(),
        ls.len() >= 1,
        lines_clean(ls),
        s.subrange(a, s.len() as int) == join_sep(ls),
    ensures
        split_from(s, a, a) == ls,
    decreases ls.len(),
{
    if ls.len() == 1 {
        assert(no_crlf(ls[0]));
        lemma_split_last(s, a, a);
        assert(seq![s.subrange(a, s.len() as int)] =~= ls);
    } else {
        let l = ls[0];
        let tail = ls.drop_first();
        let sub = s.subrange(a, s.len() as int);
        assert(sub == l + crlf() + join_sep(tail));
        assert(s.subrange(a, a + l.len()) =~= l) by {
            assert forall|k: int| 0 <= k < l.len() implies s.subrange(a, a + l.len())[k] == l[k] by {
                assert(sub[k] == s[a + k]);
            }
        }
        assert(sub[l.len() as int] == '\r');
        assert(sub[l.len() as int + 1] == '\n');
        assert(no_crlf(l));
        lemma_split_line(s, a, l, a);
        let b = a + l.len() + 2;
        assert(s.subrange(b, s.len() as int) =~= join_sep(tail)) by {
            assert forall|k: int| 0 <= k < s.len() - b implies s.subrange(b, s.len() as int)[k]
                == join_sep(tail)[k] by {
                assert(sub[l.len() as int + 2 + k] == s[b + k]);
            }
        }
        assert forall|j: int| 0 <= j < tail.len() implies no_crlf(#[trigger] tail[j]) by {
            assert(tail[j] == ls[j + 1]);
        }
        lemma_split_lines(s, b, tail);
        assert(seq![l] + tail =~= ls);
    }
}

/// Trimming the wire text of a token takes off only the final terminator,
/// when the last line ends in a character that is not white space.
proof fn lemma_trim_wire(body: Seq<char>)
    requires
        body.len() >= 1,
        !is_white_space(body[0]),
        !is_white_space(body.last()),
    ensures
        trim(body + crlf()) == body,
{
    let x = body + crlf();
    assert(trim_start(x) == x);
    assert(x.drop_last() =~= body + seq!['\r']);
    assert((body + seq!['\r']).drop_last() =~= body);
    assert(trim_end(x) == trim_end(body + seq!['\r']));
    assert(trim_end(body + seq!['\r']) == trim_end(body));
}

/// Decoding the wire text of a token gives back the token, with each bulk
/// string's length recomputed from its payload. This holds for every token
/// that decoding can produce (see `wire_safe`) unless the last line of its wire
/// text ends in white space, which trimming the received buffer takes off.
pub proof fn lemma_round_trip(t: TokenV)
    requires
        wire_safe(t),
        wire(t).len() >= 3,
        !is_white_space(wire(t)[wire(t).len() - 3]),
    ensures
        decode_text(wire(t)) == Some(seq![normalized(t)]),
{
    let ls = wire_lines(t);
    lemma_wire_lines_nonempty(t);
    lemma_wire_joined(t);
    lemma_join_term_sep(ls);
    let body = join_sep(ls);
    assert(wire(t) == body + crlf());
    assert(body[0] == wire(t)[0]);
    assert(body.last() == wire(t)[wire(t).len() - 3]);
    assert(!is_white_space(wire(t)[0])) by {
        match t {
            TokenV::Array(n, es) => assert(wire(t)[0] == '*'),
            TokenV::Integer(n) => assert(wire(t)[0] == ':'),
            TokenV::SimpleString(s) => assert(wire(t)[0] == '+'),
            TokenV::Error(s) => assert(wire(t)[0] == '-'),
            _ => assert(wire(t)[0] == '$'),
        }
    }
    lemma_trim_wire(body);
    lemma_wire_lines_clean(t);
    assert(body.subrange(0, body.len() as int) =~= body);
    lemma_split_lines(body, 0, ls);
    assert(lines_of(wire(t)) == ls);
    lemma_decode_wire_lines(t, Seq::empty());
    assert(ls + Seq::<Seq<char>>::empty() =~= ls);
    assert(decode_all(Seq::<Seq<char>>::empty()) == Some(Seq::<TokenV>::empty()));
    assert(seq![normalized(t)] + Seq::<TokenV>::empty() =~= seq![normalized(t)]);
}

proof fn lemma_wire_first(t: TokenV)
    ensures
        wire(t).len() >= 1,
        !is_white_space(wire(t)[0]),
{
    match t {
        TokenV::Array(n, es) => assert(wire(t)[0] == '*'),
        TokenV::Integer(n) => assert(wire(t)[0] == ':'),
        TokenV::SimpleString(s) => assert(wire(t)[0] == '+'),
        TokenV::Error(s) => assert(wire(t)[0] == '-'),
        _ => assert(wire(t)[0] == '$'),
    }
}

proof fn lemma_decode_all_wire_lines(ts: Seq<TokenV>)
    requires
        forall|i: int| 0 <= i < ts.len() ==> wire_safe(#[trigger] ts[i]),
    ensures
        decode_all(wire_lines_all(ts)) == Some(normalized_all(ts)),
    decreases ts.len(),
{
    if ts.len() == 0 {
        assert(normalized_all(ts) =~= Seq::<TokenV>::empty());
    } else {
        let tail = ts.subrange(1, ts.len() as int);
        let after = wire_lines_all(tail);
        lemma_decode_wire_lines(ts[0], after);
        lemma_wire_lines_nonempty(ts[0]);
        assert forall|i: int| 0 <= i < tail.len() implies wire_safe(#[trigger] tail[i]) by {
            assert(tail[i] == ts[i + 1]);
        }
        lemma_decode_all_wire_lines(tail);
        assert(seq![normalized(ts[0])] + normalized_all(tail) =~= normalized_all(ts));
    }
}

/// Decoding the wire texts of tokens sent one after another gives back the
/// tokens in order, with each bulk string's length recomputed from its
/// payload. This holds for tokens that decoding can produce (see `wire_safe`)
/// unless the last line ends in white space, which trimming the received
/// buffer takes off.
pub proof fn lemma_round_trip_all(ts: Seq<TokenV>)
    requires
        ts.len() >= 1,
        forall|i: int| 0 <= i < ts.len() ==> wire_safe(#[trigger] ts[i]),
        wire_all(ts).len() >= 3,
        !is_white_space(wire_all(ts)[wire_all(ts).len() - 3]),
    ensures
        decode_text(wire_all(ts)) == Some(normalized_all(ts)),
{
    let ls = wire_lines_all(ts);
    lemma_wire_lines_nonempty(ts[0]);
    assert(ls.len() >= 1);
    lemma_wire_all_joined(ts);
    lemma_join_term_sep(ls);
    let body = join_sep(ls);
    let w = wire_all(ts);
    assert(w == body + crlf());
    lemma_wire_first(ts[0]);
    assert(w[0] == wire(ts[0])[0]);
    assert(body[0] == w[0]);
    assert(body.last() == w[w.len() - 3]);
    lemma_trim_wire(body);
    lemma_wire_lines_all_clean(ts);
    assert(body.subrange(0, body.len() as int) =~= body);
    lemma_split_lines(body, 0, ls);
    assert(lines_of(w) == ls);
    lemma_decode_all_wire_lines(ts);
}

} // verus!
