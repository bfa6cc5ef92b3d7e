//! The coalescing coordinator. Each `get` is a `Call` that moves through
//! stages; the caller performs the store round-trips, the origin latency and
//! the waits that an `Action` asks for, and reports back. Only the decisions
//! and the shared in-flight table live here, so no lock is ever held across
//! a wait.
use vstd::prelude::*;
use crate::cache_aside::{
    account_fields, classify, key_prefix, parsed_id, default_balance, default_name, CacheAside,
    CacheError, Lookup, StoreError,
};
use crate::flight::{FlightTable, Role};
use crate::metrics::{bump, bumped, Metrics};
use crate::record::{decoded, encoding, lemma_round_trip, Account};

verus! {

/// What a `get` ends in: identifier, amount and name, or an error.
pub type Outcome = Result<(u64, i64, Seq<char>), CacheError>;

pub open spec fn outcome_of(r: Result<Account, CacheError>) -> Outcome {
    match r {
        Ok(a) => Ok(account_fields(a)),
        Err(e) => Err(e),
    }
}

/// What one store read settles: nothing on a miss, else the outcome.
pub open spec fn read_outcome(read: Result<Option<String>, StoreError>) -> Option<Outcome> {
    match read {
        Err(_) => Some(Err(CacheError::StoreUnavailable)),
        Ok(None) => None,
        Ok(Some(t)) => match decoded(t@) {
            Some(v) => Some(Ok(v)),
            None => Some(Err(CacheError::CorruptEntry)),
        },
    }
}

#[derive(Debug, Clone, Copy, PartialEq, Eq, Structural)]
pub enum Stage {
    /// The first read of the store, before any arbitration.
    Fast,
    /// The key was absent: waiting to be told leader or follower.
    Joining,
    /// A follower waiting for its leader.
    Waiting,
    /// The read that falls back to the origin on a miss.
    Reading,
    /// The origin's latency is running.
    Fetching,
    /// The fetched record is being written back.
    Writing,
    /// A leader with its result, about to take its marker out.
    Releasing,
    Done,
}

/// What the caller of a `get` is to do next.
pub enum Action<W> {
    /// Read this store key and report with `on_read`.
    Read(String),
    /// Arbitrate with `join`, holding a fresh marker.
    Join,
    /// Wait on this marker, then report with `woken`.
    Wait(W),
    /// Let the origin's latency pass, then report with `on_fetched`.
    Fetch,
    /// Write this value under this key with this time-to-live in seconds,
    /// then report with `on_written`.
    Write(String, String, u64),
    /// Take the marker out with `release` and wake its waiters.
    Release,
    /// The `get` is over with this result.
    Done(Result<Account, CacheError>),
}

/// One `get` in progress.
pub struct Call {
    pub id: String,
    pub stage: Stage,
    pub leader: bool,
    pub pending: Option<Account>,
    pub outcome: Option<Result<Account, CacheError>>,
}

/// The call has its result: a leader goes on to release its marker, anyone
/// else is done.
pub open spec fn concluded<W>(c: Call, act: Action<W>, out: Outcome) -> bool {
    if c.leader {
        &&& c.stage == Stage::Releasing
        &&& act is Release
        &&& c.outcome matches Some(r) && outcome_of(r) == out
    } else {
        &&& c.stage == Stage::Done
        &&& act matches Action::Done(r) && outcome_of(r) == out
    }
}

pub open spec fn reads_key<W>(act: Action<W>, id: Seq<char>) -> bool {
    act matches Action::Read(k) && k@ == key_prefix() + id
}

impl Call {
    /// A consistent call: a writer holds the record it writes, a releasing
    /// leader holds its result.
    pub open spec fn wf(&self) -> bool {
        &&& self.stage == Stage::Writing ==> self.pending is Some
        &&& self.stage == Stage::Releasing ==> self.outcome is Some && self.leader
    }

    /// Starts a `get` of account `id`: the first thing is a store read.
    pub fn start<W>(id: &str) -> (r: (Call, Action<W>))
        ensures
            r.0.wf(),
            r.0.id@ == id@,
            r.0.stage == Stage::Fast,
            !r.0.leader,
            reads_key(r.1, id@),
    {
        let key = CacheAside::account_key(id);
        let call = Call {
            id: id.to_owned(),
            stage: Stage::Fast,
            leader: false,
            pending: None,
            outcome: None,
        };
        (call, Action::Read(key))
    }

    /// Starts a plain cache-aside read of account `id`, with no coalescing:
    /// a miss goes straight to the origin.
    pub fn start_uncoalesced<W>(id: &str) -> (r: (Call, Action<W>))
        ensures
            r.0.wf(),
            r.0.id@ == id@,
            r.0.stage == Stage::Reading,
            !r.0.leader,
            reads_key(r.1, id@),
    {
        let key = CacheAside::account_key(id);
        let call = Call {
            id: id.to_owned(),
            stage: Stage::Reading,
            leader: false,
            pending: None,
            outcome: None,
        };
        (call, Action::Read(key))
    }

    /// A follower's wait is over: it reads the store again itself, and
    /// never takes its leader's result as its own.
    pub fn woken<W>(&mut self) -> (r: Action<W>)
        requires
            old(self).wf(),
            old(self).stage == Stage::Waiting,
        ensures
            final(self).wf(),
            final(self).stage == Stage::Reading,
            !final(self).leader,
            final(self).id == old(self).id,
            final(self).outcome is None,
            reads_key(r, old(self).id@),
    {
        self.stage = Stage::Reading;
        self.leader = false;
        self.outcome = None;
        Action::Read(CacheAside::account_key(self.id.as_str()))
    }
}

/// The coordinator: the store adapter's policy and counters, and the keys
/// with a fetch in progress.
pub struct SingleFlight<W> {
    pub cache: CacheAside,
    pub flights: FlightTable<W>,
}

impl<W> SingleFlight<W> {
    pub open spec fn wf(&self) -> bool {
        self.flights.wf()
    }

    pub fn new(cache: CacheAside) -> (r: SingleFlight<W>)
        ensures
            r.wf(),
            r.cache == cache,
            r.flights@ == Set::<Seq<char>>::empty(),
    {
        SingleFlight { cache, flights: FlightTable::new() }
    }

    fn conclude(&mut self, call: &mut Call, r: Result<Account, CacheError>) -> (act: Action<W>)
        ensures
            *final(self) == *old(self),
            final(call).id == old(call).id,
            final(call).leader == old(call).leader,
            final(call).pending == old(call).pending,
            concluded(*final(call), act, outcome_of(r)),
    {
        if call.leader {
            call.stage = Stage::Releasing;
            call.outcome = Some(r);
            Action::Release
        } else {
            call.stage = Stage::Done;
            Action::Done(r)
        }
    }

    /// A store read has come back. On the first read a hit ends the call
    /// and a miss leads to arbitration, counting nothing; on the read that
    /// falls back to the origin a miss is counted and the origin is called.
    pub fn on_read(&mut self, call: &mut Call, read: Result<Option<String>, StoreError>) -> (act:
        Action<W>)
        requires
            old(self).wf(),
            old(call).wf(),
            old(call).stage == Stage::Fast || old(call).stage == Stage::Reading,
        ensures
            final(self).wf(),
            final(call).wf(),
            final(call).id == old(call).id,
            final(call).leader == old(call).leader,
            final(self).flights == old(self).flights,
            final(self).cache.ttl == old(self).cache.ttl,
            final(self).cache.metrics.origin_fetches == old(self).cache.metrics.origin_fetches,
            final(self).cache.metrics.hits == if read_outcome(read) matches Some(Ok(_)) {
                bumped(old(self).cache.metrics.hits)
            } else {
                old(self).cache.metrics.hits
            },
            match read_outcome(read) {
                Some(out) => {
                    &&& concluded(*final(call), act, out)
                    &&& final(self).cache.metrics.misses == old(self).cache.metrics.misses
                },
                None => if old(call).stage == Stage::Fast {
                    &&& final(call).stage == Stage::Joining
                    &&& act is Join
                    &&& final(self).cache.metrics.misses == old(self).cache.metrics.misses
                } else {
                    &&& final(call).stage == Stage::Fetching
                    &&& act is Fetch
                    &&& final(self).cache.metrics.misses == bumped(
                        old(self).cache.metrics.misses,
                    )
                },
            },
    {
        let l = classify(read);
        let first = call.stage == Stage::Fast;
        match l {
            Lookup::Hit(a) => {
                self.cache.metrics.hits = bump(self.cache.metrics.hits);
                self.conclude(call, Ok(a))
            },
            Lookup::Failed(e) => self.conclude(call, Err(e)),
            Lookup::Absent => {
                if first {
                    call.stage = Stage::Joining;
                    Action::Join
                } else {
                    self.cache.metrics.misses = bump(self.cache.metrics.misses);
                    call.stage = Stage::Fetching;
                    Action::Fetch
                }
            },
        }
    }

    /// Arbitration after a miss: the first caller for a key leads and reads
    /// the store again with the origin behind it; the others wait.
    pub fn join(&mut self, call: &mut Call, marker: W) -> (act: Action<W>)
        where
            W: Clone,
        requires
            old(self).wf(),
            old(call).wf(),
            old(call).stage == Stage::Joining,
        ensures
            final(self).wf(),
            final(call).wf(),
            final(call).id == old(call).id,
            final(self).cache == old(self).cache,
            final(self).flights@ == old(self).flights@.insert(old(call).id@),
            final(call).leader == !old(self).flights@.contains(old(call).id@),
            if final(call).leader {
                final(call).stage == Stage::Reading && reads_key(act, old(call).id@)
            } else {
                final(call).stage == Stage::Waiting && act is Wait
            },
    {
        match self.flights.arbitrate(call.id.as_str(), marker) {
            Role::Leader => {
                call.leader = true;
                call.stage = Stage::Reading;
                Action::Read(CacheAside::account_key(call.id.as_str()))
            },
            Role::Follower(w) => {
                call.leader = false;
                call.stage = Stage::Waiting;
                Action::Wait(w)
            },
        }
    }

    /// The origin's latency has passed: the fetch is counted and its record
    /// is written back, or the call ends with the origin's error.
    pub fn on_fetched(&mut self, call: &mut Call) -> (act: Action<W>)
        requires
            old(self).wf(),
            old(call).wf(),
            old(call).stage == Stage::Fetching,
        ensures
            final(self).wf(),
            final(call).wf(),
            final(call).id == old(call).id,
            final(call).leader == old(call).leader,
            final(self).flights == old(self).flights,
            final(self).cache.ttl == old(self).cache.ttl,
            final(self).cache.metrics == (Metrics {
                origin_fetches: bumped(old(self).cache.metrics.origin_fetches),
                ..old(self).cache.metrics
            }),
            match parsed_id(old(call).id@) {
                Some(v) => {
                    let fields = (v, default_balance(), default_name());
                    &&& final(call).stage == Stage::Writing
                    &&& final(call).pending matches Some(a) && account_fields(a) == fields
                    &&& act matches Action::Write(k, t, ttl) && k@ == key_prefix()
                        + old(call).id@ && t@ == encoding(fields.0, fields.1, fields.2) && ttl
                        == old(self).cache.ttl as u64
                },
                None => concluded(*final(call), act, Err(CacheError::InvalidKey)),
            },
    {
        match self.cache.fetch_from_db(call.id.as_str()) {
            Ok(a) => {
                let key = CacheAside::account_key(call.id.as_str());
                let text = a.encode();
                let ttl = self.cache.ttl_seconds();
                call.stage = Stage::Writing;
                call.pending = Some(a);
                Action::Write(key, text, ttl)
            },
            Err(e) => self.conclude(call, Err(e)),
        }
    }

    /// The write-back has come back: the call ends with the fetched record,
    /// or with the store's failure.
    pub fn on_written(&mut self, call: &mut Call, ack: Result<(), StoreError>) -> (act: Action<W>)
        requires
            old(self).wf(),
            old(call).wf(),
            old(call).stage == Stage::Writing,
        ensures
            *final(self) == *old(self),
            final(call).wf(),
            final(call).id == old(call).id,
            final(call).leader == old(call).leader,
            concluded(
                *final(call),
                act,
                match ack {
                    Ok(()) => Ok(account_fields(old(call).pending.unwrap())),
                    Err(_) => Err(CacheError::StoreUnavailable),
                },
            ),
    {
        let pending = call.pending.take();
        match pending {
            Some(a) => match ack {
                Ok(()) => self.conclude(call, Ok(a)),
                Err(_) => self.conclude(call, Err(CacheError::StoreUnavailable)),
            },
            None => {
                proof {
                    assert(false);
                }
                self.conclude(call, Err(CacheError::StoreUnavailable))
            },
        }
    }

    /// A leader is through, on success and on failure alike: its marker
    /// leaves the table (to be woken by the caller) and its result is handed
    /// back.
    pub fn release(&mut self, call: &mut Call) -> (r: (Option<W>, Result<Account, CacheError>))
        requires
            old(self).wf(),
            old(call).wf(),
            old(call).stage == Stage::Releasing,
        ensures
            final(self).wf(),
            final(call).wf(),
            final(call).stage == Stage::Done,
            final(call).id == old(call).id,
            final(self).cache == old(self).cache,
            final(self).flights@ == old(self).flights@.remove(old(call).id@),
            r.0 is Some == old(self).flights@.contains(old(call).id@),
            outcome_of(r.1) == outcome_of(old(call).outcome.unwrap()),
    {
        let marker = self.flights.finish(call.id.as_str());
        call.stage = Stage::Done;
        let out = call.outcome.take();
        match out {
            Some(res) => (marker, res),
            None => {
                proof {
                    assert(false);
                }
                (marker, Err(CacheError::SourceUnavailable))
            },
        }
    }
}

/// A follower that wakes after its leader wrote the record back reads that
/// very record: identifier, amount and name as the leader fetched them.
pub proof fn lemma_reread_gets_written_record(t: String, id: u64, balance: i64, name: Seq<char>)
    requires
        t@ == encoding(id, balance, name),
    ensures
        read_outcome(Ok(Some(t))) == Some(Ok::<_, CacheError>((id, balance, name))),
{
    lemma_round_trip(id, balance, name);
}

} // verus!
