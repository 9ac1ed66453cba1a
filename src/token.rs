//! The value model of the wire protocol.

use vstd::prelude::*;

verus! {

/// A command name that the decoder recognises.
#[derive(Debug, PartialEq, Eq, Structural, Clone, Copy, Hash)]
pub enum CommandIdent {
    Ping,
    Echo,
    Get,
    SetKey,
    Px,
}

/// A value of the wire protocol.
///
/// `Command` is a bulk string whose payload names a known command, ignoring
/// case; the decoder produces it in place of `BulkString`.
#[derive(Debug, PartialEq, Eq, Hash)]
pub enum Token {
    Array(i32, Vec<Token>),
    BulkString(i32, String),
    Integer(i64),
    SimpleString(String),
    Error(String),
    NullBulkString,
    Command(CommandIdent),
}

/// The mathematical value of a `Token`.
pub enum TokenV {
    Array(int, Seq<TokenV>),
    BulkString(int, Seq<char>),
    Integer(int),
    SimpleString(Seq<char>),
    Error(Seq<char>),
    Null,
    Command(CommandIdent),
}

impl View for Token {
    type V = TokenV;

    open spec fn view(&self) -> TokenV
        decreases self,
    {
        match self {
            Token::Array(n, v) => TokenV::Array(
                *n as int,
                Seq::new(
                    v.len() as nat,
                    |i: int|
                        if 0 <= i < v.len() {
                            v[i].view()
                        } else {
                            TokenV::Null
                        },
                ),
            ),
            Token::BulkString(n, s) => TokenV::BulkString(*n as int, s@),
            Token::Integer(n) => TokenV::Integer(*n as int),
            Token::SimpleString(s) => TokenV::SimpleString(s@),
            Token::Error(s) => TokenV::Error(s@),
            Token::NullBulkString => TokenV::Null,
            Token::Command(c) => TokenV::Command(*c),
        }
    }
}

/// The canonical (upper-case) name of a command.
pub open spec fn name_of(c: CommandIdent) -> Seq<char> {
    match c {
        CommandIdent::Ping => seq!['P', 'I', 'N', 'G'],
        CommandIdent::Echo => seq!['E', 'C', 'H', 'O'],
        CommandIdent::Get => seq!['G', 'E', 'T'],
        CommandIdent::SetKey => seq!['S', 'E', 'T'],
        CommandIdent::Px => seq!['P', 'X'],
    }
}

/// The command whose canonical name is exactly `u`.
pub open spec fn name_match(u: Seq<char>) -> Option<CommandIdent> {
    if u == name_of(CommandIdent::Ping) {
        Some(CommandIdent::Ping)
    } else if u == name_of(CommandIdent::Echo) {
        Some(CommandIdent::Echo)
    } else if u == name_of(CommandIdent::Get) {
        Some(CommandIdent::Get)
    } else if u == name_of(CommandIdent::SetKey) {
        Some(CommandIdent::SetKey)
    } else if u == name_of(CommandIdent::Px) {
        Some(CommandIdent::Px)
    } else {
        None
    }
}

/// The upper-case form of a text, as `str::to_uppercase` gives it.
pub uninterp spec fn upper_of(s: Seq<char>) -> Seq<char>;

/// Relies on `str::to_uppercase`: the Unicode upper-case form of the text,
/// which depends on its characters alone.
#[verifier::external_body]
fn to_upper(s: &str) -> (r: String)
    ensures
        r@ == upper_of(s@),
{
    s.to_uppercase()
}

/// The command that a text names: the one whose name is its upper-case form.
pub open spec fn command_of(s: Seq<char>) -> Option<CommandIdent> {
    name_match(upper_of(s))
}

/// Command names are matched without regard to case: two texts with the same
/// upper-case form name the same command.
pub proof fn lemma_command_case_insensitive(a: Seq<char>, b: Seq<char>)
    requires
        upper_of(a) == upper_of(b),
    ensures
        command_of(a) == command_of(b),
{
}

/// Whether two texts are equal.
fn same_text(a: &str, b: &str) -> (r: bool)
    ensures
        r == (a@ == b@),
{
    let n = a.unicode_len();
    let m = b.unicode_len();
    if n != m {
        return false;
    }
    let mut i: usize = 0;
    while i < n
        invariant
            n == a@.len(),
            m == b@.len(),
            n == m,
            i <= n,
            forall|j: int| 0 <= j < i ==> #[trigger] a@[j] == b@[j],
        decreases n - i,
    {
        if a.get_char(i) != b.get_char(i) {
            return false;
        }
        i = i + 1;
    }
    assert(a@ =~= b@);
    true
}

/// The command whose canonical name is exactly `u`.
pub fn match_name(u: &str) -> (r: Option<CommandIdent>)
    ensures
        r == name_match(u@),
{
    proof {
        reveal_strlit("PING");
        reveal_strlit("ECHO");
        reveal_strlit("GET");
        reveal_strlit("SET");
        reveal_strlit("PX");
    }
    assert("PING"@ =~= name_of(CommandIdent::Ping));
    assert("ECHO"@ =~= name_of(CommandIdent::Echo));
    assert("GET"@ =~= name_of(CommandIdent::Get));
    assert("SET"@ =~= name_of(CommandIdent::SetKey));
    assert("PX"@ =~= name_of(CommandIdent::Px));
    if same_text(u, "PING") {
        Some(CommandIdent::Ping)
    } else if same_text(u, "ECHO") {
        Some(CommandIdent::Echo)
    } else if same_text(u, "GET") {
        Some(CommandIdent::Get)
    } else if same_text(u, "SET") {
        Some(CommandIdent::SetKey)
    } else if same_text(u, "PX") {
        Some(CommandIdent::Px)
    } else {
        None
    }
}

impl Token {
    /// A copy of this token, equal to it.
    pub fn duplicate(&self) -> (r: Token)
        ensures
            r@ == self@,
        decreases self,
    {
        match self {
            Token::Array(n, v) => {
                proof {
                    assert(decreases_to!(*self => self->Array_1));
                    assert forall|j: int| 0 <= j < v.len() implies decreases_to!(
                        *self => #[trigger] v[j]
                    ) by {
                        vstd::std_specs::vec::axiom_vec_index_decreases(*v, j);
                    }
                }
                let mut out: Vec<Token> = Vec::new();
                let mut i: usize = 0;
                while i < v.len()
                    invariant
                        i <= v.len(),
                        out@.len() == i,
                        forall|j: int| 0 <= j < i ==> (#[trigger] out@[j])@ == v@[j]@,
                        forall|j: int| 0 <= j < v.len() ==> decreases_to!(*self => #[trigger] v[j]),
                    decreases v.len() - i,
                {
                    let t = v[i].duplicate();
                    out.push(t);
                    i = i + 1;
                }
                let r = Token::Array(*n, out);
                assert(r@ == self@) by {
                    assert(r@->Array_1 =~= self@->Array_1);
                }
                r
            },
            Token::BulkString(n, s) => Token::BulkString(*n, s.clone()),
            Token::Integer(n) => Token::Integer(*n),
            Token::SimpleString(s) => Token::SimpleString(s.clone()),
            Token::Error(s) => Token::Error(s.clone()),
            Token::NullBulkString => Token::NullBulkString,
            Token::Command(c) => Token::Command(*c),
        }
    }
}

/// The views of a sequence of tokens.
pub open spec fn views_of(v: Seq<Token>) -> Seq<TokenV> {
    Seq::new(v.len(), |j: int| v[j]@)
}

/// Whether two tokens are structurally equal.
pub fn same_token(a: &Token, b: &Token) -> (r: bool)
    ensures
        r == (a@ == b@),
    decreases a,
{
    match a {
        Token::Array(n, v) => {
            let w = match b {
                Token::Array(m, w) => {
                    if *n != *m {
                        return false;
                    }
                    w
                },
                _ => {
                    return false;
                },
            };
            if v.len() != w.len() {
                assert(a@->Array_1.len() != b@->Array_1.len());
                return false;
            }
            proof {
                assert(decreases_to!(*a => a->Array_1));
                assert forall|j: int| 0 <= j < v.len() implies decreases_to!(
                    *a => #[trigger] v[j]
                ) by {
                    vstd::std_specs::vec::axiom_vec_index_decreases(*v, j);
                }
            }
            let mut i: usize = 0;
            while i < v.len()
                invariant
                    i <= v.len() == w.len(),
                    forall|j: int| 0 <= j < i ==> (#[trigger] v@[j])@ == w@[j]@,
                    forall|j: int| 0 <= j < v.len() ==> decreases_to!(*a => #[trigger] v[j]),
                    a@->Array_1 == views_of(v@),
                    b@->Array_1 == views_of(w@),
                decreases v.len() - i,
            {
                if !same_token(&v[i], &w[i]) {
                    assert(views_of(v@)[i as int] != views_of(w@)[i as int]);
                    return false;
                }
                i = i + 1;
            }
            assert(a@->Array_1 =~= b@->Array_1);
            true
        },
        _ => other_same(a, b),
    }
}

fn other_same(a: &Token, b: &Token) -> (r: bool)
    requires
        !(a is Array),
    ensures
        r == (a@ == b@),
{
    match a {
        Token::BulkString(n, s) => match b {
            Token::BulkString(m, t) => *n == *m && *s == *t,
            _ => false,
        },
        Token::Integer(n) => match b {
            Token::Integer(m) => *n == *m,
            _ => false,
        },
        Token::SimpleString(s) => match b {
            Token::SimpleString(t) => *s == *t,
            _ => false,
        },
        Token::Error(s) => match b {
            Token::Error(t) => *s == *t,
            _ => false,
        },
        Token::NullBulkString => match b {
            Token::NullBulkString => true,
            _ => false,
        },
        Token::Command(c) => match b {
            Token::Command(d) => *c == *d,
            _ => false,
        },
        Token::Array(_, _) => false,
    }
}

impl Clone for Token {
    fn clone(&self) -> (r: Token)
        ensures
            r@ == self@,
    {
        self.duplicate()
    }
}

impl CommandIdent {
    /// The command that `some_str` names, ignoring case.
    pub fn from_str(some_str: &str) -> (r: Option<CommandIdent>)
        ensures
            r == command_of(some_str@),
    {
        let u = to_upper(some_str);
        match_name(u.as_str())
    }
}

} // verus!
