use vstd::prelude::*;

use crate::endpoint::Endpoint;
use crate::text::same_text;

verus! {

/// Seconds between two discovery cycles.
pub const DISCOVERY_PERIOD: u64 = 600;

/// Seconds between two expiry sweeps.
pub const CLEANUP_PERIOD: u64 = 600;

/// Seconds to wait after start before the first expiry sweep.
pub const CLEANUP_INITIAL_DELAY: u64 = 30;

/// Largest age, in seconds, that a record may reach before it is evicted.
pub const CLEANUP_TIMEOUT: u64 = 3600;

/// What the directory knows of one device, as a mathematical value.
pub struct Record {
    pub service_type: Option<Seq<char>>,
    pub address: Endpoint,
    pub last_seen: u64,
}

/// The record that an upsert with these arguments writes.
pub open spec fn record_of(service_type: Option<String>, address: Endpoint, now: u64) -> Record {
    Record { service_type: service_type.deep_view(), address, last_seen: now }
}

/// Seconds elapsed since `last_seen`; a timestamp in the future counts as no time at all.
pub open spec fn age(last_seen: u64, now: u64) -> nat {
    if now >= last_seen {
        (now - last_seen) as nat
    } else {
        0
    }
}

/// Whether a record has aged past the horizon (the boundary itself counts as expired).
pub open spec fn is_expired(r: Record, horizon: u64, now: u64) -> bool {
    age(r.last_seen, now) >= horizon
}

/// The records of `m` that survive an expiry sweep.
pub open spec fn retained(m: Map<Seq<char>, Record>, horizon: u64, now: u64) -> Map<
    Seq<char>,
    Record,
> {
    Map::new(|k: Seq<char>| m.contains_key(k) && !is_expired(m[k], horizon, now), |k: Seq<char>| m[k])
}

/// One discovered device as handed over by the CoAP client: id, optional type, address.
pub type Discovered = (String, Option<String>, Endpoint);

/// The directory after upserting every item of `batch` in order, all stamped `now`.
pub open spec fn upsert_all(m: Map<Seq<char>, Record>, batch: Seq<Discovered>, now: u64) -> Map<
    Seq<char>,
    Record,
>
    decreases batch.len(),
{
    if batch.len() == 0 {
        m
    } else {
        let last = batch.last();
        upsert_all(m, batch.drop_last(), now).insert(last.0@, record_of(last.1, last.2, now))
    }
}

struct ProxyEntry {
    id: String,
    update_timestamp: u64,
    service_type: Option<String>,
    address: Endpoint,
}

impl ProxyEntry {
    spec fn record(&self) -> Record {
        record_of(self.service_type, self.address, self.update_timestamp)
    }

    fn duplicate(&self) -> (r: ProxyEntry)
        ensures
            r.id@ == self.id@,
            r.record() == self.record(),
    {
        ProxyEntry {
            id: self.id.clone(),
            update_timestamp: self.update_timestamp,
            service_type: clone_text_opt(&self.service_type),
            address: self.address,
        }
    }
}

fn clone_text_opt(o: &Option<String>) -> (r: Option<String>)
    ensures
        r.deep_view() == o.deep_view(),
{
    match o {
        Some(s) => Some(s.clone()),
        None => None,
    }
}

/// Decides whether a record stamped `last_seen` has aged past `horizon` at time `now`.
pub fn age_reached(last_seen: u64, horizon: u64, now: u64) -> (r: bool)
    ensures
        r == (age(last_seen, now) >= horizon),
{
    let elapsed: u64 = if now >= last_seen {
        now - last_seen
    } else {
        0
    };
    elapsed >= horizon
}

spec fn ids_of(v: Seq<ProxyEntry>) -> Seq<Seq<char>> {
    v.map_values(|e: ProxyEntry| e.id@)
}

/// `v` holds exactly the records of `m`, one entry per id.
spec fn represents(v: Seq<ProxyEntry>, m: Map<Seq<char>, Record>) -> bool {
    &&& ids_of(v).no_duplicates()
    &&& m.dom() == ids_of(v).to_set()
    &&& forall|i: int| 0 <= i < v.len() ==> m[#[trigger] v[i].id@] == v[i].record()
}

proof fn lemma_represents_push(v: Seq<ProxyEntry>, m: Map<Seq<char>, Record>, e: ProxyEntry)
    requires
        represents(v, m),
        !m.contains_key(e.id@),
    ensures
        represents(v.push(e), m.insert(e.id@, e.record())),
{
    let w = v.push(e);
    let m2 = m.insert(e.id@, e.record());
    assert(ids_of(w) =~= ids_of(v).push(e.id@));
    assert(!ids_of(v).contains(e.id@));
    assert(m2.dom() =~= ids_of(w).to_set()) by {
        assert forall|k: Seq<char>| m2.dom().contains(k) implies ids_of(w).contains(k) by {
            if k != e.id@ {
                assert(ids_of(v).contains(k));
                let j = choose|j: int| 0 <= j < ids_of(v).len() && ids_of(v)[j] == k;
                assert(ids_of(w)[j] == k);
            } else {
                assert(ids_of(w)[v.len() as int] == k);
            }
        }
        assert forall|k: Seq<char>| ids_of(w).contains(k) implies m2.dom().contains(k) by {
            let j = choose|j: int| 0 <= j < ids_of(w).len() && ids_of(w)[j] == k;
            if j < v.len() {
                assert(ids_of(v)[j] == k);
                assert(ids_of(v).contains(k));
            }
        }
    }
    assert forall|i: int| 0 <= i < w.len() implies m2[#[trigger] w[i].id@] == w[i].record() by {
        if i < v.len() {
            assert(ids_of(v)[i] == v[i].id@);
            assert(ids_of(v).contains(v[i].id@));
        }
    }
}

proof fn lemma_represents_len(v: Seq<ProxyEntry>, m: Map<Seq<char>, Record>)
    requires
        represents(v, m),
    ensures
        m.len() == v.len(),
{
    ids_of(v).unique_seq_to_set();
}

/// The device directory: a map from device id to the latest record discovered for it.
///
/// Reads take `&self` and changes take `&mut self`, so a directory shared between tasks
/// sits behind one lock, and each operation then takes effect whole.
pub struct Proxy {
    services: Vec<ProxyEntry>,
    model: Ghost<Map<Seq<char>, Record>>,
}

impl View for Proxy {
    type V = Map<Seq<char>, Record>;

    closed spec fn view(&self) -> Map<Seq<char>, Record> {
        self.model@
    }
}

impl Proxy {
    /// The entries and the model agree, ids are unique.
    pub closed spec fn wf(&self) -> bool {
        represents(self.services@, self.model@)
    }

    /// An empty directory.
    pub fn new() -> (r: Self)
        ensures
            r.wf(),
            r@ == Map::<Seq<char>, Record>::empty(),
    {
        let r = Proxy { services: Vec::new(), model: Ghost(Map::empty()) };
        assert(ids_of(r.services@) =~= Seq::<Seq<char>>::empty());
        assert(r.model@.dom() =~= ids_of(r.services@).to_set());
        r
    }

    fn position(&self, id: &str) -> (r: Option<usize>)
        requires
            self.wf(),
        ensures
            match r {
                Some(i) => i < self.services@.len() && self.services@[i as int].id@ == id@,
                None => !self@.contains_key(id@),
            },
    {
        let mut i: usize = 0;
        while i < self.services.len()
            invariant
                self.wf(),
                i <= self.services@.len(),
                forall|j: int| 0 <= j < i ==> self.services@[j].id@ != id@,
            decreases self.services@.len() - i,
        {
            if same_text(self.services[i].id.as_str(), id) {
                return Some(i);
            }
            i = i + 1;
        }
        proof {
            if self.model@.contains_key(id@) {
                let ids = ids_of(self.services@);
                assert(ids.contains(id@));
                let j = choose|j: int| 0 <= j < ids.len() && ids[j] == id@;
                assert(self.services@[j].id@ == id@);
            }
        }
        None
    }

    /// Inserts or wholesale replaces the record for `id`, stamped `now`.
    pub fn upsert(&mut self, id: String, service_type: Option<String>, address: Endpoint, now: u64)
        requires
            old(self).wf(),
        ensures
            final(self).wf(),
            final(self)@ == old(self)@.insert(id@, record_of(service_type, address, now)),
    {
        let ghost key = id@;
        let ghost rec = record_of(service_type, address, now);
        let pos = self.position(id.as_str());
        let entry = ProxyEntry { id, update_timestamp: now, service_type, address };
        assert(entry.record() == rec);
        match pos {
            Some(i) => {
                let ghost before = self.services@;
                let ghost m = self.model@;
                self.services.set(i, entry);
                self.model = Ghost(m.insert(key, rec));
                proof {
                    let ids = ids_of(before);
                    assert(ids_of(self.services@) =~= ids);
                    assert(ids[i as int] == key);
                    assert(ids.contains(key));
                    assert(self.model@.dom() =~= ids.to_set());
                    assert forall|j: int| 0 <= j < self.services@.len() implies self.model@[
                        #[trigger] self.services@[j].id@] == self.services@[j].record() by {
                        if j != i {
                            assert(ids[j] == before[j].id@);
                            assert(ids[j] != ids[i as int]);
                        }
                    }
                }
            },
            None => {
                proof {
                    lemma_represents_push(self.services@, self.model@, entry);
                }
                self.services.push(entry);
                self.model = Ghost(self.model@.insert(key, rec));
            },
        }
    }

    /// Removes every record whose age has reached `horizon` seconds at time `now`.
    pub fn expire(&mut self, horizon: u64, now: u64)
        requires
            old(self).wf(),
        ensures
            final(self).wf(),
            final(self)@ == retained(old(self)@, horizon, now),
    {
        let ghost target = retained(self.model@, horizon, now);
        let ghost ids = ids_of(self.services@);
        let mut kept: Vec<ProxyEntry> = Vec::new();
        let ghost mut kept_map = Map::<Seq<char>, Record>::empty();
        assert(ids_of(kept@) =~= Seq::<Seq<char>>::empty());
        assert(kept_map.dom() =~= ids_of(kept@).to_set());
        let n = self.services.len();
        let mut i: usize = 0;
        while i < n
            invariant
                self.wf(),
                n == self.services@.len(),
                ids == ids_of(self.services@),
                target == retained(self.model@, horizon, now),
                i <= n,
                represents(kept@, kept_map),
                forall|k: Seq<char>|
                    #![trigger kept_map.contains_key(k)]
                    kept_map.contains_key(k) <==> (target.contains_key(k) && ids.subrange(
                        0,
                        i as int,
                    ).contains(k)),
                forall|k: Seq<char>| kept_map.contains_key(k) ==> kept_map[k] == target[k],
            decreases n - i,
        {
            let ghost k = ids[i as int];
            let ghost before = kept_map;
            assert(self.services@[i as int].id@ == k);
            assert(ids.contains(k));
            let e = &self.services[i];
            if !age_reached(e.update_timestamp, horizon, now) {
                let c = e.duplicate();
                proof {
                    if kept_map.contains_key(k) {
                        let j = choose|j: int| 0 <= j < i && ids.subrange(0, i as int)[j] == k;
                        assert(ids[j] == ids[i as int]);
                    }
                    lemma_represents_push(kept@, kept_map, c);
                    kept_map = kept_map.insert(k, c.record());
                }
                kept.push(c);
            }
            proof {
                let pre = ids.subrange(0, i as int);
                let post = ids.subrange(0, i + 1);
                assert(post =~= pre.push(k));
                assert forall|k2: Seq<char>| post.contains(k2) <==> (pre.contains(k2) || k2 == k) by {
                    if post.contains(k2) && k2 != k {
                        let j = choose|j: int| 0 <= j < post.len() && post[j] == k2;
                        assert(pre[j] == k2);
                    }
                    if k2 == k {
                        assert(post[i as int] == k);
                    }
                    if pre.contains(k2) {
                        let j = choose|j: int| 0 <= j < pre.len() && pre[j] == k2;
                        assert(post[j] == k2);
                    }
                }
            }
            i = i + 1;
        }
        proof {
            assert(ids.subrange(0, n as int) =~= ids);
            assert forall|k: Seq<char>| target.contains_key(k) implies ids.contains(k) by {
                assert(ids.to_set().contains(k));
            }
            assert(kept_map =~= target);
        }
        self.services = kept;
        self.model = Ghost(target);
    }

    /// Runs one expiry sweep at time `now` with the standard horizon.
    pub fn cleanup(&mut self, now: u64)
        requires
            old(self).wf(),
        ensures
            final(self).wf(),
            final(self)@ == retained(old(self)@, CLEANUP_TIMEOUT, now),
    {
        self.expire(CLEANUP_TIMEOUT, now);
    }

    /// Upserts every discovered device of `batch` in order, all stamped `now`;
    /// a later occurrence of an id wins over an earlier one.
    pub fn apply_discovery(&mut self, batch: &Vec<Discovered>, now: u64)
        requires
            old(self).wf(),
        ensures
            final(self).wf(),
            final(self)@ == upsert_all(old(self)@, batch@, now),
    {
        let ghost start = self@;
        let mut i: usize = 0;
        while i < batch.len()
            invariant
                self.wf(),
                i <= batch@.len(),
                self@ == upsert_all(start, batch@.subrange(0, i as int), now),
            decreases batch@.len() - i,
        {
            let item = &batch[i];
            self.upsert(item.0.clone(), clone_text_opt(&item.1), item.2, now);
            proof {
                let pre = batch@.subrange(0, i as int);
                let post = batch@.subrange(0, i + 1);
                assert(post.drop_last() =~= pre);
                assert(post.last() == batch@[i as int]);
            }
            i = i + 1;
        }
        assert(batch@.subrange(0, batch@.len() as int) =~= batch@);
    }

    /// One discovery cycle: a successful discovery is applied in full, a failed one
    /// leaves the directory untouched.
    pub fn discovery_cycle(&mut self, outcome: &Result<Vec<Discovered>, ()>, now: u64)
        requires
            old(self).wf(),
        ensures
            final(self).wf(),
            final(self)@ == match outcome {
                Ok(batch) => upsert_all(old(self)@, batch@, now),
                Err(_) => old(self)@,
            },
    {
        if let Ok(batch) = outcome {
            self.apply_discovery(batch, now);
        }
    }

    /// An independent copy of every record: id, type and address, in no particular order.
    pub fn all(&self) -> (r: Vec<(String, Option<String>, Endpoint)>)
        requires
            self.wf(),
        ensures
            r@.len() == self@.len(),
            forall|i: int, j: int| 0 <= i < j < r@.len() ==> r@[i].0@ != r@[j].0@,
            forall|i: int|
                #![trigger r@[i]]
                0 <= i < r@.len() ==> {
                    &&& self@.contains_key(r@[i].0@)
                    &&& self@[r@[i].0@].service_type == r@[i].1.deep_view()
                    &&& self@[r@[i].0@].address == r@[i].2
                },
            forall|k: Seq<char>|
                self@.contains_key(k) ==> exists|i: int| 0 <= i < r@.len() && #[trigger] r@[i].0@ == k,
    {
        let mut r: Vec<(String, Option<String>, Endpoint)> = Vec::new();
        let ghost ids = ids_of(self.services@);
        let mut i: usize = 0;
        while i < self.services.len()
            invariant
                self.wf(),
                ids == ids_of(self.services@),
                i <= self.services@.len(),
                r@.len() == i,
                forall|j: int| 0 <= j < i ==> #[trigger] r@[j].0@ == ids[j],
                forall|j: int|
                    #![trigger r@[j]]
                    0 <= j < i ==> {
                        &&& r@[j].1.deep_view() == self.services@[j].service_type.deep_view()
                        &&& r@[j].2 == self.services@[j].address
                    },
            decreases self.services@.len() - i,
        {
            let e = &self.services[i];
            r.push((e.id.clone(), clone_text_opt(&e.service_type), e.address));
            i = i + 1;
        }
        proof {
            lemma_represents_len(self.services@, self.model@);
            assert forall|a: int, b: int| 0 <= a < b < r@.len() implies r@[a].0@ != r@[b].0@ by {
                assert(r@[a].0@ == ids[a]);
                assert(r@[b].0@ == ids[b]);
            }
            assert forall|j: int| 0 <= j < r@.len() implies self@.contains_key(#[trigger] r@[j].0@)
                by {
                assert(r@[j].0@ == ids[j]);
                assert(ids.contains(ids[j]));
                assert(self.services@[j].id@ == ids[j]);
            }
            assert forall|k: Seq<char>| self@.contains_key(k) implies exists|j: int|
                0 <= j < r@.len() && #[trigger] r@[j].0@ == k by {
                assert(ids.to_set().contains(k));
                let j = choose|j: int| 0 <= j < ids.len() && ids[j] == k;
                assert(r@[j].0@ == k);
            }
            assert forall|j: int| 0 <= j < r@.len() implies self@[#[trigger] r@[j].0@].address == r@[j].2
                by {
                assert(r@[j].0@ == ids[j]);
                assert(self.services@[j].id@ == ids[j]);
            }
        }
        r
    }

    /// A copy of the type and address recorded for `name`, or `None` when it is unknown.
    pub fn service(&self, name: &str) -> (r: Option<(Option<String>, Endpoint)>)
        requires
            self.wf(),
        ensures
            match r {
                None => !self@.contains_key(name@),
                Some(p) => {
                    &&& self@.contains_key(name@)
                    &&& p.0.deep_view() == self@[name@].service_type
                    &&& p.1 == self@[name@].address
                },
            },
    {
        match self.position(name) {
            None => None,
            Some(i) => {
                let e = &self.services[i];
                proof {
                    assert(ids_of(self.services@)[i as int] == name@);
                    assert(ids_of(self.services@).contains(name@));
                }
                Some((clone_text_opt(&e.service_type), e.address))
            },
        }
    }
}

/// A directory operation, as a mathematical value.
pub enum Op {
    Upsert(Seq<char>, Option<Seq<char>>, Endpoint, u64),
    Expire(u64, u64),
}

/// The directory after one operation, as `Proxy::upsert` and `Proxy::expire` state it.
pub open spec fn apply_op(m: Map<Seq<char>, Record>, op: Op) -> Map<Seq<char>, Record> {
    match op {
        Op::Upsert(id, t, a, ts) => m.insert(id, Record { service_type: t, address: a, last_seen: ts }),
        Op::Expire(horizon, now) => retained(m, horizon, now),
    }
}

/// The directory after a sequence of operations, applied in order.
pub open spec fn apply_ops(m: Map<Seq<char>, Record>, ops: Seq<Op>) -> Map<Seq<char>, Record>
    decreases ops.len(),
{
    if ops.len() == 0 {
        m
    } else {
        apply_op(apply_ops(m, ops.drop_last()), ops.last())
    }
}

/// A sweep at `now` leaves only records younger than the horizon.
pub proof fn lemma_sweep_bounds_age(m: Map<Seq<char>, Record>, horizon: u64, now: u64)
    ensures
        forall|k: Seq<char>| #[trigger]
            retained(m, horizon, now).contains_key(k) ==> age(
                retained(m, horizon, now)[k].last_seen,
                now,
            ) < horizon,
{
}

/// A record that has reached the horizon at time `t` is gone after any later sweep,
/// so with sweeps every `CLEANUP_PERIOD` it outlives its horizon by at most that period.
pub proof fn lemma_overdue_record_evicted(
    m: Map<Seq<char>, Record>,
    id: Seq<char>,
    horizon: u64,
    t: u64,
    s: u64,
)
    requires
        m.contains_key(id),
        m[id].last_seen <= t,
        age(m[id].last_seen, t) >= horizon,
        t <= s,
    ensures
        !retained(m, horizon, s).contains_key(id),
{
}

/// If every record was stamped no later than `now`, an upsert stamped `now` keeps every
/// record stamped no later than any `later` time.
pub proof fn lemma_upsert_keeps_stamps_past(
    m: Map<Seq<char>, Record>,
    id: Seq<char>,
    t: Option<Seq<char>>,
    a: Endpoint,
    now: u64,
    later: u64,
)
    requires
        forall|k: Seq<char>| m.contains_key(k) ==> #[trigger] m[k].last_seen <= now,
        now <= later,
    ensures
        ({
            let m2 = apply_op(m, Op::Upsert(id, t, a, now));
            forall|k: Seq<char>| m2.contains_key(k) ==> #[trigger] m2[k].last_seen <= later
        }),
{
}

/// A lookup right after an upsert sees exactly the type and address that were written.
pub proof fn lemma_lookup_after_upsert(
    m: Map<Seq<char>, Record>,
    id: Seq<char>,
    t: Option<Seq<char>>,
    a: Endpoint,
    ts: u64,
)
    ensures
        apply_op(m, Op::Upsert(id, t, a, ts)).contains_key(id),
        apply_op(m, Op::Upsert(id, t, a, ts))[id].service_type == t,
        apply_op(m, Op::Upsert(id, t, a, ts))[id].address == a,
{
}

/// Records are never torn: starting from an empty directory, after any sequence of
/// upserts and sweeps, each present record (type, address and stamp together) was
/// written whole by one single upsert of its id.
pub proof fn lemma_no_torn_records(ops: Seq<Op>, id: Seq<char>)
    requires
        apply_ops(Map::empty(), ops).contains_key(id),
    ensures
        ({
            let r = apply_ops(Map::empty(), ops)[id];
            exists|i: int|
                0 <= i < ops.len() && ops[i] == Op::Upsert(id, r.service_type, r.address, r.last_seen)
        }),
    decreases ops.len(),
{
    let prev = ops.drop_last();
    let r = apply_ops(Map::empty(), ops)[id];
    let last = ops.len() - 1;
    let before = apply_ops(Map::empty(), prev);
    let same_as_before = match ops.last() {
        Op::Upsert(k, _, _, _) => k != id,
        Op::Expire(_, _) => true,
    };
    if same_as_before {
        assert(before.contains_key(id) && before[id] == r);
        lemma_no_torn_records(prev, id);
        let i = choose|i: int|
            0 <= i < prev.len() && prev[i] == Op::Upsert(id, r.service_type, r.address, r.last_seen);
        assert(ops[i] == prev[i]);
    } else {
        assert(ops[last] == Op::Upsert(id, r.service_type, r.address, r.last_seen));
    }
}

/// Upserting the same arguments twice leaves the directory as one upsert does.
pub proof fn lemma_upsert_idempotent(
    m: Map<Seq<char>, Record>,
    id: Seq<char>,
    t: Option<Seq<char>>,
    a: Endpoint,
    ts: u64,
)
    ensures
        apply_op(apply_op(m, Op::Upsert(id, t, a, ts)), Op::Upsert(id, t, a, ts)) == apply_op(
            m,
            Op::Upsert(id, t, a, ts),
        ),
{
    assert(apply_op(apply_op(m, Op::Upsert(id, t, a, ts)), Op::Upsert(id, t, a, ts)) =~= apply_op(
        m,
        Op::Upsert(id, t, a, ts),
    ));
}

/// A second sweep with the same horizon and time removes nothing more.
pub proof fn lemma_expire_idempotent(m: Map<Seq<char>, Record>, horizon: u64, now: u64)
    ensures
        retained(retained(m, horizon, now), horizon, now) == retained(m, horizon, now),
{
    assert(retained(retained(m, horizon, now), horizon, now) =~= retained(m, horizon, now));
}

/// A record whose age equals the horizon exactly is evicted.
pub proof fn lemma_expire_boundary(m: Map<Seq<char>, Record>, id: Seq<char>, horizon: u64, now: u64)
    requires
        m.contains_key(id),
        m[id].last_seen + horizon == now,
    ensures
        !retained(m, horizon, now).contains_key(id),
{
}

} // verus!
