//! The cache-aside adapter: reads of the external store, the fallback to the
//! origin on a miss, and the write-back with the configured time-to-live.
//! Store round-trips are performed by the caller; this module decides what
//! each outcome means and keeps the counters.
use vstd::prelude::*;
use crate::metrics::{bump, bumped, Metrics};
use crate::record::{decode, decoded, Account};
use crate::text::{chars_of, parse_u64, read_u64, string_of};

verus! {

/// A failed round-trip to the external store.
#[derive(Debug, Clone, Copy, PartialEq, Eq, Structural)]
pub enum StoreError {
    Unavailable,
}

/// What a read of an account can end in, other than the account.
#[derive(Debug, Clone, Copy, PartialEq, Eq, Structural)]
pub enum CacheError {
    StoreUnavailable,
    CorruptEntry,
    InvalidKey,
    SourceUnavailable,
}

/// What one read of the store says about a key.
pub enum Lookup {
    Hit(Account),
    Absent,
    Failed(CacheError),
}

pub open spec fn account_fields(a: Account) -> (u64, i64, Seq<char>) {
    (a.id, a.balance_cents, a.name@)
}

/// A read that came back with `read` means: an error, the decoded account,
/// or a miss.
pub open spec fn lookup_means(read: Result<Option<String>, StoreError>, l: Lookup) -> bool {
    match read {
        Err(_) => l == Lookup::Failed(CacheError::StoreUnavailable),
        Ok(None) => l is Absent,
        Ok(Some(t)) => match decoded(t@) {
            Some(v) => l matches Lookup::Hit(a) && account_fields(a) == v,
            None => l == Lookup::Failed(CacheError::CorruptEntry),
        },
    }
}

/// Interprets one store read.
pub fn classify(read: Result<Option<String>, StoreError>) -> (l: Lookup)
    ensures
        lookup_means(read, l),
{
    match read {
        Err(_) => Lookup::Failed(CacheError::StoreUnavailable),
        Ok(None) => Lookup::Absent,
        Ok(Some(t)) => match decode(t.as_str()) {
            Ok(a) => Lookup::Hit(a),
            Err(_) => Lookup::Failed(CacheError::CorruptEntry),
        },
    }
}

pub open spec fn key_prefix() -> Seq<char> {
    seq!['a', 'c', 'c', 't', ':']
}

/// Where the digits of a key start: after one optional `+`.
pub open spec fn digits_start(id: Seq<char>) -> int {
    if id.len() > 0 && id[0] == '+' {
        1
    } else {
        0
    }
}

/// The identifier that a key names: an optional `+`, then decimal digits
/// up to the end, with a value that fits in 64 bits.
pub open spec fn parsed_id(id: Seq<char>) -> Option<u64> {
    match read_u64(id, digits_start(id)) {
        Some((v, e)) => if e == id.len() {
            Some(v)
        } else {
            None
        },
        None => None,
    }
}

pub open spec fn default_balance() -> i64 {
    1000
}

pub open spec fn default_name() -> Seq<char> {
    seq!['J', 'o', 'h', 'n', ' ', 'D', 'o', 'e']
}

/// Store adapter: the time-to-live it writes with, and the counters.
pub struct CacheAside {
    pub ttl: usize,
    pub metrics: Metrics,
}

impl CacheAside {
    pub fn new(ttl: usize) -> (r: CacheAside)
        ensures
            r.ttl == ttl,
            r.metrics == (Metrics { hits: 0, misses: 0, origin_fetches: 0 }),
    {
        CacheAside { ttl, metrics: Metrics { hits: 0, misses: 0, origin_fetches: 0 } }
    }

    /// Seconds an entry lives once written.
    pub fn ttl_seconds(&self) -> (r: u64)
        ensures
            r == self.ttl as u64,
    {
        self.ttl as u64
    }

    /// The store key of an account: `acct:<id>`.
    pub fn account_key(id: &str) -> (r: String)
        ensures
            r@ == key_prefix() + id@,
    {
        let mut v: Vec<char> = vec!['a', 'c', 'c', 't', ':'];
        let cs = chars_of(id);
        let mut i: usize = 0;
        while i < cs.len()
            invariant
                i <= cs@.len(),
                v@ == key_prefix() + cs@.subrange(0, i as int),
            decreases cs@.len() - i,
        {
            v.push(cs[i]);
            i = i + 1;
            assert(v@ =~= key_prefix() + cs@.subrange(0, i as int));
        }
        assert(cs@.subrange(0, i as int) =~= cs@);
        string_of(&v)
    }

    /// The origin lookup, once its latency has passed: counts the fetch and
    /// builds the account for a key made of decimal digits.
    pub fn fetch_from_db(&mut self, id: &str) -> (r: Result<Account, CacheError>)
        ensures
            final(self).ttl == old(self).ttl,
            final(self).metrics == (Metrics {
                origin_fetches: bumped(old(self).metrics.origin_fetches),
                ..old(self).metrics
            }),
            match parsed_id(id@) {
                Some(v) => r matches Ok(a) && account_fields(a) == (
                    v,
                    default_balance(),
                    default_name(),
                ),
                None => r == Err::<Account, CacheError>(CacheError::InvalidKey),
            },
    {
        self.metrics.origin_fetches = bump(self.metrics.origin_fetches);
        let cs = chars_of(id);
        let start: usize = if cs.len() > 0 && cs[0] == '+' {
            1
        } else {
            0
        };
        match parse_u64(&cs, start) {
            Some((v, e)) => {
                if e == cs.len() {
                    let name = string_of(&vec!['J', 'o', 'h', 'n', ' ', 'D', 'o', 'e']);
                    Ok(Account { id: v, balance_cents: 1000, name })
                } else {
                    Err(CacheError::InvalidKey)
                }
            },
            None => Err(CacheError::InvalidKey),
        }
    }
}

} // verus!
