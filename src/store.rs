//! The key-value store: each key maps to a value and an optional absolute
//! expiry time in milliseconds.

use vstd::prelude::*;
use crate::token::{same_token, Token, TokenV};

verus! {

/// What the store holds for a key.
pub struct DbValue {
    pub value: Token,
    /// The absolute expiry time in milliseconds since the Unix epoch.
    pub ttl: Option<u128>,
}

/// The value of a store entry: the value token and its expiry.
pub type EntryV = (TokenV, Option<u128>);

impl View for DbValue {
    type V = EntryV;

    open spec fn view(&self) -> EntryV {
        (self.value@, self.ttl)
    }
}

/// The store. Each key occurs once; expired entries stay until overwritten.
pub struct Db {
    db: Vec<(Token, DbValue)>,
}

/// What a read of key `k` at time `now` returns: the value if it is present
/// and its expiry, if any, is later than `now`; `Null` otherwise.
pub open spec fn lookup(m: Map<TokenV, EntryV>, k: TokenV, now: int) -> TokenV {
    if m.contains_key(k) {
        match m[k].1 {
            None => m[k].0,
            Some(e) => if e > now {
                m[k].0
            } else {
                TokenV::Null
            },
        }
    } else {
        TokenV::Null
    }
}

impl View for Db {
    type V = Map<TokenV, EntryV>;

    closed spec fn view(&self) -> Map<TokenV, EntryV> {
        Map::new(
            |k: TokenV| exists|i: int| 0 <= i < self.db@.len() && (#[trigger] self.db@[i]).0@ == k,
            |k: TokenV|
                {
                    let i = choose|i: int|
                        0 <= i < self.db@.len() && (#[trigger] self.db@[i]).0@ == k;
                    self.db@[i].1@
                },
        )
    }
}

/// A reading of the system clock.
#[verifier::external_type_specification]
#[verifier::external_body]
pub struct ExSystemTime(std::time::SystemTime);

/// Relies on `std::time::SystemTime::now`: the current system time.
#[verifier::external_body]
fn system_now() -> (r: std::time::SystemTime) {
    std::time::SystemTime::now()
}

/// Relies on `std::time::SystemTime::duration_since`: the time elapsed since
/// the Unix epoch, or `None` for a time before it.
#[verifier::external_body]
fn since_epoch(t: &std::time::SystemTime) -> (r: Option<std::time::Duration>) {
    t.duration_since(std::time::UNIX_EPOCH).ok()
}

/// Relies on `std::time::Duration::as_millis`: the whole milliseconds of a
/// duration.
#[verifier::external_body]
fn millis_of(d: &std::time::Duration) -> (r: u128) {
    d.as_millis()
}

/// The current time in milliseconds since the Unix epoch; 0 when the clock
/// reads earlier than the epoch.
pub fn now_millis() -> u128 {
    let t = system_now();
    match since_epoch(&t) {
        Some(d) => millis_of(&d),
        None => 0,
    }
}

impl Db {
    /// Each key occurs once.
    pub closed spec fn wf(&self) -> bool {
        forall|i: int, j: int|
            0 <= i < j < self.db@.len() ==> (#[trigger] self.db@[i]).0@ != (
            #[trigger] self.db@[j]).0@
    }

    /// An empty store.
    pub fn new() -> (r: Db)
        ensures
            r.wf(),
            r@ == Map::<TokenV, EntryV>::empty(),
    {
        let r = Db { db: Vec::new() };
        assert(r@ =~= Map::<TokenV, EntryV>::empty());
        r
    }

    fn find(&self, key: &Token) -> (r: Option<usize>)
        requires
            self.wf(),
        ensures
            match r {
                Some(i) => i < self.db@.len() && self.db@[i as int].0@ == key@
                    && self@.contains_key(key@) && self@[key@] == self.db@[i as int].1@,
                None => !self@.contains_key(key@),
            },
    {
        let mut i: usize = 0;
        while i < self.db.len()
            invariant
                i <= self.db@.len(),
                self.wf(),
                forall|j: int| 0 <= j < i ==> (#[trigger] self.db@[j]).0@ != key@,
            decreases self.db@.len() - i,
        {
            if same_token(&self.db[i].0, key) {
                assert(self@.contains_key(key@));
                proof {
                    let j = choose|j: int|
                        0 <= j < self.db@.len() && (#[trigger] self.db@[j]).0@ == key@;
                    if j < i {
                        assert(self.db@[j].0@ != self.db@[i as int].0@);
                    } else if j > i {
                        assert(self.db@[i as int].0@ != self.db@[j].0@);
                    }
                }
                return Some(i);
            }
            i = i + 1;
        }
        None
    }

    /// The value of `key` at time `now`.
    pub fn get_at(&self, key: &Token, now: u128) -> (r: Token)
        requires
            self.wf(),
        ensures
            r@ == lookup(self@, key@, now as int),
    {
        match self.find(key) {
            None => Token::NullBulkString,
            Some(i) => {
                let e = &self.db[i].1;
                match e.ttl {
                    None => e.value.duplicate(),
                    Some(t) => if t > now {
                        e.value.duplicate()
                    } else {
                        Token::NullBulkString
                    },
                }
            },
        }
    }

    /// The value of `key` now, by the wall clock.
    pub fn get(&self, key: &Token) -> (r: Token)
        requires
            self.wf(),
        ensures
            exists|now: u128| r@ == lookup(self@, key@, now as int),
    {
        let now = now_millis();
        self.get_at(key, now)
    }

    /// Writing entry `i` of `after`, where `before` had key `k` there or ended
    /// just before it, stores `v` under `k` and keeps every other key.
    proof fn lemma_written(before: &Db, after: &Db, i: int, k: TokenV, v: EntryV)
        requires
            before.wf(),
            after.wf(),
            0 <= i < after.db@.len(),
            after.db@[i].0@ == k,
            after.db@[i].1@ == v,
            after.db@.len() == before.db@.len() ==> before.db@[i].0@ == k,
            after.db@.len() != before.db@.len() ==> i == before.db@.len() && after.db@.len()
                == before.db@.len() + 1,
            forall|j: int| 0 <= j < before.db@.len() && j != i ==> after.db@[j] == before.db@[j],
        ensures
            after@ == before@.insert(k, v),
    {
        assert forall|q: TokenV| #[trigger] after@.contains_key(q) <==> before@.insert(
            k,
            v,
        ).contains_key(q) by {
            if q != k && after@.contains_key(q) {
                let j = choose|j: int| 0 <= j < after.db@.len() && (#[trigger] after.db@[j]).0@ == q;
                assert(before.db@[j].0@ == q);
            }
            if q != k && before@.contains_key(q) {
                let j = choose|j: int|
                    0 <= j < before.db@.len() && (#[trigger] before.db@[j]).0@ == q;
                assert(after.db@[j].0@ == q);
            }
            if q == k {
                assert(after.db@[i].0@ == q);
            }
        }
        assert forall|q: TokenV| #[trigger] after@.contains_key(q) implies after@[q]
            == before@.insert(k, v)[q] by {
            if q == k {
                assert(after.db@[i].0@ == q);
            } else {
                let j = choose|j: int| 0 <= j < after.db@.len() && (#[trigger] after.db@[j]).0@ == q;
                assert(before.db@[j].0@ == q);
            }
        }
        assert(after@ =~= before@.insert(k, v));
    }

    /// Stores `value` under `key`, replacing what was there.
    pub fn set(&mut self, key: Token, value: DbValue)
        requires
            old(self).wf(),
        ensures
            final(self).wf(),
            final(self)@ == old(self)@.insert(key@, value@),
    {
        let ghost k = key@;
        let ghost v = value@;
        match self.find(&key) {
            Some(i) => {
                self.db.set(i, (key, value));
                assert(self.wf());
                proof {
                    Db::lemma_written(old(self), self, i as int, k, v);
                }
            },
            None => {
                self.db.push((key, value));
                let n = self.db.len() - 1;
                assert(self.wf());
                proof {
                    Db::lemma_written(old(self), self, n as int, k, v);
                }
            },
        }
    }
}

} // verus!
