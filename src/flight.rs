//! The in-flight table of the coalescing coordinator: at most one marker per
//! key, created by the first caller that misses and removed by that caller
//! once its fetch is over.
use vstd::prelude::*;

verus! {

/// How a caller that found a key absent takes part in filling it.
pub enum Role<W> {
    /// This caller fetches and writes back.
    Leader,
    /// Another caller is fetching; wait on its marker, then read again.
    Follower(W),
}

/// Keys with a fetch in progress, each with the marker its waiters wait on.
pub struct FlightTable<W> {
    entries: Vec<(String, W)>,
}

impl<W> FlightTable<W> {
    pub closed spec fn keys(&self) -> Seq<Seq<char>> {
        self.entries@.map_values(|e: (String, W)| e.0@)
    }

    /// The keys with a fetch in progress.
    pub closed spec fn view(&self) -> Set<Seq<char>> {
        Set::new(|k: Seq<char>| self.keys().contains(k))
    }

    /// One marker per key.
    pub closed spec fn wf(&self) -> bool {
        self.keys().no_duplicates()
    }

    pub fn new() -> (r: FlightTable<W>)
        ensures
            r.wf(),
            r@ == Set::<Seq<char>>::empty(),
    {
        let r = FlightTable { entries: Vec::new() };
        assert(r@ =~= Set::<Seq<char>>::empty());
        r
    }

    fn find(&self, key: &String) -> (r: Option<usize>)
        ensures
            match r {
                Some(i) => i < self.keys().len() && self.keys()[i as int] == key@,
                None => !self.keys().contains(key@),
            },
    {
        let mut i: usize = 0;
        while i < self.entries.len()
            invariant
                i <= self.entries@.len(),
                forall|j: int| 0 <= j < i ==> self.keys()[j] != key@,
            decreases self.entries@.len() - i,
        {
            if self.entries[i].0 == *key {
                return Some(i);
            }
            i = i + 1;
        }
        None
    }

    /// Whether a fetch of `key` is in progress.
    pub fn contains(&self, key: &str) -> (r: bool)
        ensures
            r == self@.contains(key@),
    {
        let k = key.to_owned();
        self.find(&k).is_some()
    }

    /// Called by a caller that found `key` absent: the first one for a key
    /// becomes its leader and leaves `marker` in the table; the others get a
    /// copy of the marker already there.
    pub fn arbitrate(&mut self, key: &str, marker: W) -> (r: Role<W>)
        where
            W: Clone,
        requires
            old(self).wf(),
        ensures
            final(self).wf(),
            final(self)@ == old(self)@.insert(key@),
            (r is Leader) == !old(self)@.contains(key@),
    {
        let k = key.to_owned();
        match self.find(&k) {
            Some(i) => {
                assert(self@.contains(key@));
                Role::Follower(self.entries[i].1.clone())
            },
            None => {
                let ghost before = self.keys();
                self.entries.push((k, marker));
                proof {
                    assert(self.keys() =~= before.push(key@));
                    assert forall|x: Seq<char>| self.keys().contains(x) == (before.contains(x) || x
                        == key@) by {
                        if before.contains(x) {
                            let j = choose|j: int| 0 <= j < before.len() && before[j] == x;
                            assert(self.keys()[j] == x);
                        }
                        if x == key@ {
                            assert(self.keys()[before.len() as int] == x);
                        }
                    }
                    assert(self@ =~= old(self)@.insert(key@));
                }
                Role::Leader
            },
        }
    }

    /// Called by the leader when its fetch is over, whatever it gave: takes
    /// the marker of `key` out so that the waiters can be released.
    pub fn finish(&mut self, key: &str) -> (r: Option<W>)
        requires
            old(self).wf(),
        ensures
            final(self).wf(),
            final(self)@ == old(self)@.remove(key@),
            r is Some == old(self)@.contains(key@),
    {
        let k = key.to_owned();
        match self.find(&k) {
            Some(i) => {
                let ghost before = self.keys();
                let e = self.entries.remove(i);
                proof {
                    assert(self.keys() =~= before.remove(i as int));
                    assert forall|x: Seq<char>| self@.contains(x) == old(self)@.remove(key@).contains(x) by {
                        if x == key@ {
                            if self.keys().contains(x) {
                                let j = choose|j: int| 0 <= j < self.keys().len() && self.keys()[j] == x;
                                if j < i {
                                    assert(before[j] == x);
                                } else {
                                    assert(before[j + 1] == x);
                                }
                            }
                        } else if old(self)@.contains(x) {
                            let j = choose|j: int| 0 <= j < before.len() && before[j] == x;
                            if j < i {
                                assert(self.keys()[j] == x);
                            } else {
                                assert(self.keys()[j - 1] == x);
                            }
                        }
                    }
                    assert(self@ =~= old(self)@.remove(key@));
                }
                Some(e.1)
            },
            None => {
                assert(self@ =~= old(self)@.remove(key@));
                None
            },
        }
    }
}

/// How many of `n` successive arbitrations on `k`, starting from the keys
/// `s` in flight and with no release between them, make a leader.
pub open spec fn leaders_among(s: Set<Seq<char>>, k: Seq<char>, n: nat) -> nat
    decreases n,
{
    if n == 0 {
        0
    } else {
        (if s.contains(k) {
            0nat
        } else {
            1nat
        }) + leaders_among(s.insert(k), k, (n - 1) as nat)
    }
}

proof fn lemma_no_leader_while_in_flight(s: Set<Seq<char>>, k: Seq<char>, n: nat)
    requires
        s.contains(k),
    ensures
        leaders_among(s, k, n) == 0,
    decreases n,
{
    if n > 0 {
        assert(s.insert(k) =~= s);
        lemma_no_leader_while_in_flight(s.insert(k), k, (n - 1) as nat);
    }
}

/// Any number n >= 1 of callers that find the same key absent, with no fetch
/// of it in progress, produce exactly one leader, and so one origin fetch.
pub proof fn lemma_one_leader(s: Set<Seq<char>>, k: Seq<char>, n: nat)
    requires
        n >= 1,
        !s.contains(k),
    ensures
        leaders_among(s, k, n) == 1,
{
    lemma_no_leader_while_in_flight(s.insert(k), k, (n - 1) as nat);
}

} // verus!
