//! Client-side balancing over a set of backends: a table of health flags,
//! round robin, least connections and hashing of a key onto the healthy
//! backends.
use vstd::prelude::*;
use vstd::string::StringSliceAdditionalSpecFns;

verus! {

/// Health flags by backend url; a url never reported on counts as healthy.
pub struct HealthTable {
    entries: Vec<(String, bool)>,
}

impl HealthTable {
    pub closed spec fn view(&self) -> Map<Seq<char>, bool> {
        Map::new(
            |u: Seq<char>| exists|i: int| 0 <= i < self.entries@.len() && self.entries@[i].0@ == u,
            |u: Seq<char>|
                self.entries@[choose|i: int| 0 <= i < self.entries@.len() && self.entries@[i].0@ == u].1,
        )
    }

    /// Each url appears once.
    pub closed spec fn wf(&self) -> bool {
        forall|i: int, j: int|
            0 <= i < j < self.entries@.len() ==> self.entries@[i].0@ != self.entries@[j].0@
    }

    pub fn new() -> (r: HealthTable)
        ensures
            r.wf(),
            r@ == Map::<Seq<char>, bool>::empty(),
    {
        let r = HealthTable { entries: Vec::new() };
        assert(r@ =~= Map::<Seq<char>, bool>::empty());
        r
    }

    fn find(&self, url: &str) -> (r: Option<usize>)
        requires
            self.wf(),
        ensures
            match r {
                Some(i) => i < self.entries@.len() && self.entries@[i as int].0@ == url@,
                None => forall|i: int| 0 <= i < self.entries@.len() ==> self.entries@[i].0@ != url@,
            },
    {
        let u = url.to_owned();
        let mut i: usize = 0;
        while i < self.entries.len()
            invariant
                u@ == url@,
                i <= self.entries@.len(),
                forall|j: int| 0 <= j < i ==> self.entries@[j].0@ != url@,
            decreases self.entries@.len() - i,
        {
            if self.entries[i].0 == u {
                return Some(i);
            }
            i = i + 1;
        }
        None
    }
}

pub open spec fn healthy_in(m: Map<Seq<char>, bool>, url: Seq<char>) -> bool {
    if m.contains_key(url) {
        m[url]
    } else {
        true
    }
}

/// Whether `url` was last reported healthy; true when never reported.
pub fn is_healthy(health: &HealthTable, url: &str) -> (r: bool)
    requires
        health.wf(),
    ensures
        r == healthy_in(health@, url@),
{
    match health.find(url) {
        Some(i) => {
            assert(health@.contains_key(url@));
            let ghost c = choose|k: int|
                0 <= k < health.entries@.len() && health.entries@[k].0@ == url@;
            assert(c == i);
            health.entries[i].1
        },
        None => {
            assert(!health@.contains_key(url@));
            true
        },
    }
}

/// Records the latest health of `url`.
pub fn update_health(health: &mut HealthTable, url: &str, status: bool)
    requires
        old(health).wf(),
    ensures
        final(health).wf(),
        final(health)@ == old(health)@.insert(url@, status),
{
    match health.find(url) {
        Some(i) => {
            let u = url.to_owned();
            health.entries.set(i, (u, status));
            proof {
                assert forall|x: Seq<char>| #[trigger] final(health)@.contains_key(x)
                    == old(health)@.insert(url@, status).contains_key(x) by {
                    if old(health)@.contains_key(x) {
                        let k = choose|k: int|
                            0 <= k < old(health).entries@.len() && old(health).entries@[k].0@ == x;
                        assert(health.entries@[k].0@ == x);
                    }
                    if final(health)@.contains_key(x) {
                        let k = choose|k: int|
                            0 <= k < health.entries@.len() && health.entries@[k].0@ == x;
                        assert(old(health).entries@[k].0@ == x);
                    }
                }
                assert forall|x: Seq<char>| #[trigger] final(health)@.contains_key(x) implies
                    final(health)@[x] == old(health)@.insert(url@, status)[x] by {
                    let k = choose|k: int|
                        0 <= k < health.entries@.len() && health.entries@[k].0@ == x;
                    let k0 = choose|k: int|
                        0 <= k < old(health).entries@.len() && old(health).entries@[k].0@ == x;
                    assert(k == k0);
                }
                assert(final(health)@ =~= old(health)@.insert(url@, status));
            }
        },
        None => {
            let u = url.to_owned();
            health.entries.push((u, status));
            proof {
                let n = old(health).entries@.len() as int;
                assert forall|x: Seq<char>| #[trigger] final(health)@.contains_key(x)
                    == old(health)@.insert(url@, status).contains_key(x) by {
                    if old(health)@.contains_key(x) {
                        let k = choose|k: int|
                            0 <= k < old(health).entries@.len() && old(health).entries@[k].0@ == x;
                        assert(health.entries@[k].0@ == x);
                    }
                    if x == url@ {
                        assert(health.entries@[n].0@ == x);
                    }
                    if final(health)@.contains_key(x) && x != url@ {
                        let k = choose|k: int|
                            0 <= k < health.entries@.len() && health.entries@[k].0@ == x;
                        assert(old(health).entries@[k].0@ == x);
                    }
                }
                assert forall|x: Seq<char>| #[trigger] final(health)@.contains_key(x) implies
                    final(health)@[x] == old(health)@.insert(url@, status)[x] by {
                    let k = choose|k: int|
                        0 <= k < health.entries@.len() && health.entries@[k].0@ == x;
                    if x == url@ {
                        assert(health.entries@[n].0@ == x);
                        assert(k == n);
                    } else {
                        let k0 = choose|k: int|
                            0 <= k < old(health).entries@.len() && old(health).entries@[k].0@ == x;
                        assert(health.entries@[k0].0@ == x);
                        assert(k == k0);
                    }
                }
                assert(final(health)@ =~= old(health)@.insert(url@, status));
            }
        },
    }
}

#[derive(Debug, Clone)]
pub struct Backend {
    pub url: String,
    pub weight: u32,
    pub current_connections: u32,
}

impl Backend {
    fn duplicate(&self) -> (r: Backend)
        ensures
            r == *self,
    {
        Backend {
            url: self.url.clone(),
            weight: self.weight,
            current_connections: self.current_connections,
        }
    }
}

pub struct LoadBalancer {
    pub backends: Vec<Backend>,
    pub rr_index: usize,
}

/// A crc32 checksum of some bytes.
pub uninterp spec fn crc32_of(b: Seq<u8>) -> u32;

/// Relies on crc32fast::hash: the CRC-32 (IEEE) checksum of the bytes, which
/// depends on them alone.
#[verifier::external_body]
fn crc32_hash(b: &[u8]) -> (r: u32)
    ensures
        r == crc32_of(b@),
{
    crc32fast::hash(b)
}

/// The positions of the healthy backends among the first `n`, in order.
pub open spec fn healthy_positions(bs: Seq<Backend>, m: Map<Seq<char>, bool>, n: int) -> Seq<int>
    decreases n,
{
    if n <= 0 {
        Seq::empty()
    } else if healthy_in(m, bs[n - 1].url@) {
        healthy_positions(bs, m, n - 1).push(n - 1)
    } else {
        healthy_positions(bs, m, n - 1)
    }
}

proof fn lemma_healthy_positions(bs: Seq<Backend>, m: Map<Seq<char>, bool>, n: int)
    requires
        0 <= n <= bs.len(),
    ensures
        forall|k: int|
            0 <= k < healthy_positions(bs, m, n).len() ==> 0 <= #[trigger] healthy_positions(
                bs,
                m,
                n,
            )[k] < n,
    decreases n,
{
    if n > 0 {
        lemma_healthy_positions(bs, m, n - 1);
        let hp = healthy_positions(bs, m, n - 1);
        if healthy_in(m, bs[n - 1].url@) {
            assert forall|k: int| 0 <= k < hp.push(n - 1).len() implies 0 <= #[trigger] hp.push(
                n - 1,
            )[k] < n by {
                if k < hp.len() {
                    assert(hp.push(n - 1)[k] == hp[k]);
                }
            }
        }
    }
}

impl LoadBalancer {
    /// The round-robin cursor points at a backend, or there is none.
    pub open spec fn wf(&self) -> bool {
        self.backends@.len() == 0 || self.rr_index < self.backends@.len()
    }

    pub open spec fn cursor(&self) -> int {
        self.rr_index as int
    }

    pub fn new(backends: Vec<Backend>) -> (r: LoadBalancer)
        ensures
            r.wf(),
            r.backends@ == backends@,
            r.cursor() == 0,
    {
        LoadBalancer { backends, rr_index: 0 }
    }

    /// The backend `k` steps after the cursor, cyclically.
    pub open spec fn rr_at(&self, k: int) -> Backend {
        self.backends@[(self.cursor() + k) % (self.backends@.len() as int)]
    }

    /// Round robin: the first healthy backend from the cursor on, cyclically;
    /// the cursor moves just past it. With none healthy the cursor comes back
    /// to where it was.
    pub fn next_rr(&mut self, health: &HealthTable) -> (r: Option<Backend>)
        requires
            old(self).wf(),
            health.wf(),
        ensures
            final(self).wf(),
            final(self).backends == old(self).backends,
            match r {
                Some(b) => exists|k: int|
                    0 <= k < old(self).backends@.len() && b == old(self).rr_at(k) && healthy_in(
                        health@,
                        b.url@,
                    ) && (forall|j: int|
                        0 <= j < k ==> !healthy_in(health@, #[trigger] old(self).rr_at(j).url@))
                        && final(self).cursor() == (old(self).cursor() + k + 1) % (old(
                        self,
                    ).backends@.len() as int),
                None => final(self).cursor() == old(self).cursor() && forall|j: int|
                    0 <= j < old(self).backends@.len() ==> !healthy_in(
                        health@,
                        #[trigger] old(self).rr_at(j).url@,
                    ),
            },
    {
        let n = self.backends.len();
        let start = self.rr_index;
        let mut k: usize = 0;
        while k < n
            invariant
                n == self.backends@.len(),
                health.wf(),
                self.backends == old(self).backends,
                self.rr_index == start,
                start == old(self).cursor(),
                n == 0 || start < n,
                k <= n,
                forall|j: int| 0 <= j < k ==> !healthy_in(health@, #[trigger] old(self).rr_at(j).url@),
            decreases n - k,
        {
            let i: usize = if k < n - start {
                start + k
            } else {
                k - (n - start)
            };
            proof {
                if start + k < n {
                    vstd::arithmetic::div_mod::lemma_small_mod((start + k) as nat, n as nat);
                } else {
                    vstd::arithmetic::div_mod::lemma_small_mod(i as nat, n as nat);
                    vstd::arithmetic::div_mod::lemma_mod_add_multiples_vanish(i as int, n as int);
                }
                assert(i == (start + k) % (n as int));
            }
            if is_healthy(health, self.backends[i].url.as_str()) {
                self.rr_index = (i + 1) % n;
                proof {
                    assert((start + k + 1) % (n as int) == ((start + k) % (n as int) + 1) % (n as int)) by {
                        vstd::arithmetic::div_mod::lemma_add_mod_noop((start + k) as int, 1, n as int);
                        vstd::arithmetic::div_mod::lemma_mod_twice((start + k) as int, n as int);
                        vstd::arithmetic::div_mod::lemma_add_mod_noop(i as int, 1, n as int);
                    }
                }
                let b = self.backends[i].duplicate();
                assert(b == old(self).rr_at(k as int));
                assert(healthy_in(health@, b.url@));
                return Some(b);
            }
            k = k + 1;
        }
        None
    }

    /// The first healthy backend with the fewest open connections.
    pub fn next_least_connections(&self, health: &HealthTable) -> (r: Option<Backend>)
        requires
            health.wf(),
        ensures
            match r {
                Some(b) => exists|i: int|
                    0 <= i < self.backends@.len() && b == self.backends@[i] && healthy_in(
                        health@,
                        b.url@,
                    ) && (forall|j: int|
                        0 <= j < self.backends@.len() && healthy_in(
                            health@,
                            #[trigger] self.backends@[j].url@,
                        ) ==> b.current_connections <= self.backends@[j].current_connections
                            && (j < i ==> b.current_connections
                            < self.backends@[j].current_connections)),
                None => forall|j: int|
                    0 <= j < self.backends@.len() ==> !healthy_in(
                        health@,
                        #[trigger] self.backends@[j].url@,
                    ),
            },
    {
        let mut best: Option<usize> = None;
        let mut i: usize = 0;
        while i < self.backends.len()
            invariant
                i <= self.backends@.len(),
                health.wf(),
                match best {
                    Some(bi) => bi < i && healthy_in(health@, self.backends@[bi as int].url@) && (
                    forall|j: int|
                        0 <= j < i && healthy_in(health@, #[trigger] self.backends@[j].url@)
                            ==> self.backends@[bi as int].current_connections
                            <= self.backends@[j].current_connections && (j < bi
                            ==> self.backends@[bi as int].current_connections
                            < self.backends@[j].current_connections)),
                    None => forall|j: int|
                        0 <= j < i ==> !healthy_in(health@, #[trigger] self.backends@[j].url@),
                },
            decreases self.backends@.len() - i,
        {
            if is_healthy(health, self.backends[i].url.as_str()) {
                match best {
                    Some(bi) => {
                        if self.backends[i].current_connections
                            < self.backends[bi].current_connections {
                            best = Some(i);
                        }
                    },
                    None => {
                        best = Some(i);
                    },
                }
            }
            i = i + 1;
        }
        match best {
            Some(bi) => Some(self.backends[bi].duplicate()),
            None => None,
        }
    }

    /// The healthy backend at position `hash` modulo their number, among the
    /// healthy ones in order; none when no backend is healthy.
    pub fn pick_by_hash(&self, health: &HealthTable, hash: u32) -> (r: Option<Backend>)
        requires
            health.wf(),
        ensures
            ({
                let hp = healthy_positions(self.backends@, health@, self.backends@.len() as int);
                match r {
                    Some(b) => hp.len() > 0 && b == self.backends@[hp[(hash as int) % (hp.len() as int)]],
                    None => hp.len() == 0,
                }
            }),
    {
        let mut healthy: Vec<usize> = Vec::new();
        let mut i: usize = 0;
        while i < self.backends.len()
            invariant
                i <= self.backends@.len(),
                health.wf(),
                healthy@.map_values(|p: usize| p as int) == healthy_positions(
                    self.backends@,
                    health@,
                    i as int,
                ),
            decreases self.backends@.len() - i,
        {
            if is_healthy(health, self.backends[i].url.as_str()) {
                healthy.push(i);
                assert(healthy@.map_values(|p: usize| p as int) =~= healthy_positions(
                    self.backends@,
                    health@,
                    i as int,
                ).push(i as int));
            }
            i = i + 1;
        }
        proof {
            lemma_healthy_positions(self.backends@, health@, self.backends@.len() as int);
        }
        if healthy.len() == 0 {
            return None;
        }
        let idx: usize = ((hash as u64) % (healthy.len() as u64)) as usize;
        let p = healthy[idx];
        assert(healthy@.map_values(|p: usize| p as int)[idx as int] == p as int);
        Some(self.backends[p].duplicate())
    }

    /// Hashing: the healthy backend that the crc32 of `key` selects.
    pub fn next_consistent_hash(&self, health: &HealthTable, key: &str) -> (r: Option<Backend>)
        requires
            health.wf(),
        ensures
            ({
                let hp = healthy_positions(self.backends@, health@, self.backends@.len() as int);
                let h = crc32_of(key.spec_bytes());
                match r {
                    Some(b) => hp.len() > 0 && b == self.backends@[hp[(h as int) % (hp.len() as int)]],
                    None => hp.len() == 0,
                }
            }),
    {
        let h = crc32_hash(key.as_bytes());
        self.pick_by_hash(health, h)
    }
}

} // verus!
