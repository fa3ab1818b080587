//! An in-memory store of cached values, each with an expiry time, and the periodic clean-up of
//! expired entries.

use vstd::prelude::*;
use rand::Rng;
use crate::text::str_eq;
use crate::graphql::json::{Json, JsonModel, json_model, json_wf, has_key, key_at};

verus! {

/// The whole seconds since the Unix epoch that a `DateTime` can hold lie within this bound (its
/// years run from -262143 to 262142).
pub const SECONDS_BOUND: i64 = 9_000_000_000_000;

/// The nanoseconds since the Unix epoch of the times that a `DateTime` can hold lie within this
/// bound.
pub const TIME_BOUND: i128 = 10_000_000_000_000_000_000_000;

/// Calls `chrono::Utc::now()` and reads the whole seconds since the Unix epoch (`timestamp`) and
/// the nanoseconds past them (`timestamp_subsec_nanos`, below 2·10⁹: a leap second counts past
/// 10⁹). What time it is, is not stated.
#[verifier::external_body]
fn now_parts() -> (r: (i64, u32))
    ensures
        -SECONDS_BOUND <= r.0 <= SECONDS_BOUND,
        r.1 < 2_000_000_000,
{
    let t = chrono::Utc::now();
    (t.timestamp(), t.timestamp_subsec_nanos())
}

/// The current time in nanoseconds since the Unix epoch.
fn now_nanos() -> (r: i128)
    ensures
        -TIME_BOUND <= r <= TIME_BOUND,
{
    let (secs, nanos) = now_parts();
    let s: i128 = secs as i128;
    let n: i128 = nanos as i128;
    assert(-9_000_000_000_000_000_000_000 <= s * 1_000_000_000 <= 9_000_000_000_000_000_000_000) by (nonlinear_arith)
        requires
            -9_000_000_000_000 <= s <= 9_000_000_000_000,
    ;
    s * 1_000_000_000 + n
}

/// Calls `rand::thread_rng().gen_range(0..n)`: a number below `n` (rand draws it uniformly; which
/// one is not stated).
#[verifier::external_body]
fn random_below(n: usize) -> (r: usize)
    requires
        n > 0,
    ensures
        r < n,
{
    rand::thread_rng().gen_range(0..n)
}

/// The store: for each key (none twice) its entries, each an expiry time in milliseconds and a
/// value, oldest first. Counters of reads, of keys that expired on a read, and of writes, and the
/// keys added since the clean-up last took them.
pub struct InnerCache {
    store: Vec<(String, Vec<(i128, Json)>)>,
    read_ops: usize,
    expired_ops: usize,
    write_ops: usize,
    added: Vec<String>,
}

/// The state of an `InnerCache` as mathematical values.
pub struct CacheState {
    pub store: Seq<(Seq<char>, Seq<(int, JsonModel)>)>,
    pub read_ops: usize,
    pub expired_ops: usize,
    pub write_ops: usize,
    pub added: Seq<Seq<char>>,
}

pub open spec fn timed_model(es: Seq<(i128, Json)>) -> Seq<(int, JsonModel)> {
    es.map_values(|e: (i128, Json)| (e.0 as int, json_model(e.1)))
}

pub open spec fn store_model(s: Seq<(String, Vec<(i128, Json)>)>) -> Seq<(Seq<char>, Seq<(int, JsonModel)>)> {
    s.map_values(|e: (String, Vec<(i128, Json)>)| (e.0@, timed_model(e.1@)))
}

pub open spec fn strings_model(s: Seq<String>) -> Seq<Seq<char>> {
    s.map_values(|x: String| x@)
}

impl View for InnerCache {
    type V = CacheState;

    closed spec fn view(&self) -> CacheState {
        CacheState {
            store: store_model(self.store@),
            read_ops: self.read_ops,
            expired_ops: self.expired_ops,
            write_ops: self.write_ops,
            added: strings_model(self.added@),
        }
    }
}

/// Nothing was written between the two states: the same count of writes, and the same keys
/// queued for the clean-up.
pub open spec fn writes_kept(a: CacheState, b: CacheState) -> bool {
    a.write_ops == b.write_ops && a.added == b.added
}

/// No key occurs twice.
pub open spec fn keys_distinct<V>(es: Seq<(Seq<char>, V)>) -> bool {
    forall|i: int, j: int| 0 <= i < j < es.len() ==> #[trigger] es[i].0 != #[trigger] es[j].0
}

/// Every value in the store is well formed.
pub open spec fn values_wf(store: Seq<(Seq<char>, Seq<(int, JsonModel)>)>) -> bool {
    forall|i: int, j: int| 0 <= i < store.len() && 0 <= j < store[i].1.len() ==> json_wf(#[trigger] store[i].1[j].1)
}

/// Every value among the entries is well formed.
pub open spec fn entries_wf(es: Seq<(int, JsonModel)>) -> bool {
    forall|j: int| 0 <= j < es.len() ==> json_wf(#[trigger] es[j].1)
}

proof fn lemma_unexpired_wf(es: Seq<(int, JsonModel)>, now: int)
    requires
        entries_wf(es),
    ensures
        entries_wf(unexpired(es, now)),
{
    assert forall|j: int| 0 <= j < unexpired(es, now).len() implies json_wf(#[trigger] unexpired(es, now)[j].1) by {
        lemma_filter_in(es, |e: (int, JsonModel)| e.0 > now, j);
    }
}

proof fn lemma_values_wf_update(store: Seq<(Seq<char>, Seq<(int, JsonModel)>)>, i: int, k: Seq<char>, es: Seq<(int, JsonModel)>)
    requires
        values_wf(store),
        entries_wf(es),
        0 <= i <= store.len(),
    ensures
        i < store.len() ==> values_wf(store.update(i, (k, es))),
        i < store.len() ==> values_wf(store.remove(i)),
        values_wf(store.push((k, es))),
{
    if i < store.len() {
        let u = store.update(i, (k, es));
        assert forall|a: int, b: int| 0 <= a < u.len() && 0 <= b < u[a].1.len() implies json_wf(#[trigger] u[a].1[b].1) by {
            if a != i {
                assert(u[a] == store[a]);
            }
        }
        let r = store.remove(i);
        assert forall|a: int, b: int| 0 <= a < r.len() && 0 <= b < r[a].1.len() implies json_wf(#[trigger] r[a].1[b].1) by {
            if a < i {
                assert(r[a] == store[a]);
            } else {
                assert(r[a] == store[a + 1]);
            }
        }
    }
    let p = store.push((k, es));
    assert forall|a: int, b: int| 0 <= a < p.len() && 0 <= b < p[a].1.len() implies json_wf(#[trigger] p[a].1[b].1) by {
        if a < store.len() {
            assert(p[a] == store[a]);
        }
    }
}

/// The entries of the key `k`, if it is in the store.
pub open spec fn slot(store: Seq<(Seq<char>, Seq<(int, JsonModel)>)>, k: Seq<char>) -> Option<Seq<(int, JsonModel)>> {
    if has_key(store, k) {
        Some(store[key_at(store, k)].1)
    } else {
        None
    }
}

/// The entries that expire after `now`.
pub open spec fn unexpired(es: Seq<(int, JsonModel)>, now: int) -> Seq<(int, JsonModel)> {
    es.filter(|e: (int, JsonModel)| e.0 > now)
}

/// The values of the entries, in order.
pub open spec fn values_of(es: Seq<(int, JsonModel)>) -> Seq<JsonModel> {
    es.map_values(|e: (int, JsonModel)| e.1)
}

/// The values stored under `k` that have not expired at `now`.
pub open spec fn live_values(store: Seq<(Seq<char>, Seq<(int, JsonModel)>)>, k: Seq<char>, now: int) -> Seq<JsonModel> {
    match slot(store, k) {
        Some(es) => values_of(unexpired(es, now)),
        None => Seq::empty(),
    }
}

/// One more, wrapping around as an atomic counter does.
pub open spec fn bump(x: usize) -> usize {
    if x == usize::MAX {
        0
    } else {
        (x + 1) as usize
    }
}

/// The store after `insert_at`: the key's expired entries dropped and the new entry appended, or
/// the key added with the new entry alone.
pub open spec fn store_insert(
    store: Seq<(Seq<char>, Seq<(int, JsonModel)>)>,
    k: Seq<char>,
    expiry: int,
    v: JsonModel,
    now: int,
) -> Seq<(Seq<char>, Seq<(int, JsonModel)>)> {
    if has_key(store, k) {
        let i = key_at(store, k);
        store.update(i, (k, unexpired(store[i].1, now).push((expiry, v))))
    } else {
        store.push((k, seq![(expiry, v)]))
    }
}

/// Whether a read of `k` at `now` cleans the key up: some of its entries have expired, or none is
/// left.
pub open spec fn read_cleans(store: Seq<(Seq<char>, Seq<(int, JsonModel)>)>, k: Seq<char>, now: int) -> bool {
    match slot(store, k) {
        Some(es) => unexpired(es, now).len() < es.len() || unexpired(es, now).len() == 0,
        None => false,
    }
}

/// The store after a read of `k` at `now`: where the read cleans up, the expired entries are
/// dropped, and the key with them where none is left.
pub open spec fn store_after_read(store: Seq<(Seq<char>, Seq<(int, JsonModel)>)>, k: Seq<char>, now: int) -> Seq<
    (Seq<char>, Seq<(int, JsonModel)>),
> {
    if read_cleans(store, k, now) {
        let i = key_at(store, k);
        let r = unexpired(store[i].1, now);
        if r.len() == 0 {
            store.remove(i)
        } else {
            store.update(i, (k, r))
        }
    } else {
        store
    }
}

proof fn lemma_slot_at(store: Seq<(Seq<char>, Seq<(int, JsonModel)>)>, k: Seq<char>, i: int)
    requires
        keys_distinct(store),
        0 <= i < store.len(),
        store[i].0 == k,
    ensures
        has_key(store, k),
        key_at(store, k) == i,
{
    assert(store[i].0 == k);
    let j = key_at(store, k);
    if j != i {
        if j < i {
            assert(store[j].0 != store[i].0);
        } else {
            assert(store[i].0 != store[j].0);
        }
    }
}

fn find_slot(store: &Vec<(String, Vec<(i128, Json)>)>, k: &str) -> (r: Option<usize>)
    requires
        keys_distinct(store_model(store@)),
    ensures
        r matches Some(i) ==> i < store@.len() && has_key(store_model(store@), k@) && key_at(
            store_model(store@),
            k@,
        ) == i,
        r is None ==> !has_key(store_model(store@), k@),
{
    let ghost m = store_model(store@);
    let mut i: usize = 0;
    while i < store.len()
        invariant
            i <= store@.len(),
            m == store_model(store@),
            keys_distinct(m),
            forall|j: int| 0 <= j < i ==> (#[trigger] m[j]).0 != k@,
        decreases store@.len() - i,
    {
        if str_eq(store[i].0.as_str(), k) {
            proof {
                lemma_slot_at(m, k@, i as int);
            }
            return Some(i);
        }
        i = i + 1;
    }
    None
}

/// The entries that expire after `now`, in order.
fn retain_unexpired(es: Vec<(i128, Json)>, now: i128) -> (r: Vec<(i128, Json)>)
    ensures
        timed_model(r@) == unexpired(timed_model(es@), now as int),
{
    let ghost em = timed_model(es@);
    let mut rest = es;
    let mut out: Vec<(i128, Json)> = Vec::new();
    let ghost mut k: int = 0;
    proof {
        reveal(Seq::filter);
        assert(em.subrange(0, 0).filter(|e: (int, JsonModel)| e.0 > now) =~= Seq::<(int, JsonModel)>::empty());
        assert(timed_model(out@) =~= Seq::<(int, JsonModel)>::empty());
        assert(timed_model(rest@) =~= em.subrange(0, em.len() as int));
    }
    while rest.len() > 0
        invariant
            0 <= k <= em.len(),
            timed_model(rest@) == em.subrange(k, em.len() as int),
            timed_model(out@) == em.subrange(0, k).filter(|e: (int, JsonModel)| e.0 > now),
        decreases rest@.len(),
    {
        let ghost rm = timed_model(rest@);
        let ghost rv = rest@;
        assert(rm.len() == rest@.len());
        let e = rest.remove(0);
        assert(rest@ =~= rv.subrange(1, rv.len() as int));
        assert(timed_model(rest@) =~= rm.subrange(1, rm.len() as int));
        assert(rm[0] == em[k]);
        let ghost before = timed_model(out@);
        if e.0 > now {
            out.push(e);
            assert(timed_model(out@) =~= before.push(em[k]));
        }
        proof {
            reveal(Seq::filter);
            assert(em.subrange(0, k + 1).drop_last() =~= em.subrange(0, k));
            k = k + 1;
        }
    }
    assert(em.subrange(0, k) =~= em);
    out
}

/// Clones of the values of the entries that expire after `now`, in order.
fn unexpired_values(es: &Vec<(i128, Json)>, now: i128) -> (r: Vec<Json>)
    ensures
        r@.map_values(|j: Json| json_model(j)) == values_of(unexpired(timed_model(es@), now as int)),
{
    let ghost em = timed_model(es@);
    let mut out: Vec<Json> = Vec::new();
    let mut k: usize = 0;
    proof {
        reveal(Seq::filter);
        assert(em.subrange(0, 0).filter(|e: (int, JsonModel)| e.0 > now) =~= Seq::<(int, JsonModel)>::empty());
        assert(out@.map_values(|j: Json| json_model(j)) =~= Seq::<JsonModel>::empty());
    }
    while k < es.len()
        invariant
            k <= es@.len(),
            em == timed_model(es@),
            out@.map_values(|j: Json| json_model(j)) == values_of(
                em.subrange(0, k as int).filter(|e: (int, JsonModel)| e.0 > now),
            ),
        decreases es@.len() - k,
    {
        let ghost before = out@.map_values(|j: Json| json_model(j));
        if es[k].0 > now {
            let v = es[k].1.clone();
            out.push(v);
            assert(out@.map_values(|j: Json| json_model(j)) =~= before.push(em[k as int].1));
        }
        proof {
            reveal(Seq::filter);
            assert(em.subrange(0, k + 1).drop_last() =~= em.subrange(0, k as int));
            let f = em.subrange(0, k as int).filter(|e: (int, JsonModel)| e.0 > now);
            if em[k as int].0 > now {
                assert(values_of(f.push(em[k as int])) =~= values_of(f).push(em[k as int].1));
            }
        }
        k = k + 1;
    }
    assert(em.subrange(0, es@.len() as int) =~= em);
    out
}

impl InnerCache {
    /// The store has no key twice, and holds well-formed values only.
    pub open spec fn wf(&self) -> bool {
        keys_distinct(self@.store) && values_wf(self@.store)
    }

    /// An empty store with its counters at zero.
    pub fn new() -> (r: InnerCache)
        ensures
            r.wf(),
            r@.store.len() == 0,
            r@.read_ops == 0,
            r@.expired_ops == 0,
            r@.write_ops == 0,
            r@.added.len() == 0,
    {
        let r = InnerCache { store: Vec::new(), read_ops: 0, expired_ops: 0, write_ops: 0, added: Vec::new() };
        assert(r@.store =~= Seq::<(Seq<char>, Seq<(int, JsonModel)>)>::empty());
        assert(r@.added =~= Seq::<Seq<char>>::empty());
        r
    }

    /// Stores `value` under `key` for `duration_seconds` seconds from `now` (milliseconds): see
    /// `store_insert`. A key new to the store is also queued for the clean-up.
    #[verifier::rlimit(50)]
    pub fn insert_at(&mut self, key: String, duration_seconds: u16, value: Json, now: i128)
        requires
            old(self).wf(),
            json_wf(json_model(value)),
            -TIME_BOUND <= now <= TIME_BOUND,
        ensures
            final(self).wf(),
            final(self)@.store == store_insert(
                old(self)@.store,
                key@,
                now + duration_seconds * 1_000_000_000,
                json_model(value),
                now as int,
            ),
            final(self)@.added == if has_key(old(self)@.store, key@) {
                old(self)@.added
            } else {
                old(self)@.added.push(key@)
            },
            final(self)@.write_ops == bump(old(self)@.write_ops),
            final(self)@.read_ops == old(self)@.read_ops,
            final(self)@.expired_ops == old(self)@.expired_ops,
    {
        let ghost sm = store_model(self.store@);
        let ghost am = strings_model(self.added@);
        let ghost vm = json_model(value);
        let expiry_date: i128 = now + (duration_seconds as i128) * 1_000_000_000;
        match find_slot(&self.store, key.as_str()) {
            Some(i) => {
                let (k, es) = self.store.remove(i);
                let mut kept = retain_unexpired(es, now);
                let ghost km = timed_model(kept@);
                kept.push((expiry_date, value));
                assert(timed_model(kept@) =~= km.push((expiry_date as int, vm)));
                self.store.insert(i, (k, kept));
                assert(store_model(self.store@) =~= sm.update(i as int, (key@, km.push((expiry_date as int, vm)))));
                proof {
                    assert(entries_wf(sm[i as int].1)) by {
                        assert forall|j: int| 0 <= j < sm[i as int].1.len() implies json_wf(#[trigger] sm[i as int].1[j].1) by {}
                    }
                    lemma_unexpired_wf(sm[i as int].1, now as int);
                    let ne = km.push((expiry_date as int, vm));
                    assert(entries_wf(ne)) by {
                        assert forall|j: int| 0 <= j < ne.len() implies json_wf(#[trigger] ne[j].1) by {
                            if j < km.len() {
                                assert(ne[j] == km[j]);
                            }
                        }
                    }
                    lemma_values_wf_update(sm, i as int, key@, ne);
                }
                assert(keys_distinct(store_model(self.store@))) by {
                    let nm = store_model(self.store@);
                    assert forall|a: int, b: int| 0 <= a < b < nm.len() implies #[trigger] nm[a].0 != #[trigger] nm[b].0 by {
                        assert(nm[a].0 == sm[a].0 && nm[b].0 == sm[b].0);
                    }
                }
            },
            None => {
                let mut es: Vec<(i128, Json)> = Vec::new();
                es.push((expiry_date, value));
                assert(timed_model(es@) =~= seq![(expiry_date as int, vm)]);
                let k2 = key.clone();
                self.store.push((key, es));
                assert(store_model(self.store@) =~= sm.push((k2@, seq![(expiry_date as int, vm)])));
                proof {
                    let ne = seq![(expiry_date as int, vm)];
                    assert(entries_wf(ne)) by {
                        assert forall|j: int| 0 <= j < ne.len() implies json_wf(#[trigger] ne[j].1) by {}
                    }
                    lemma_values_wf_update(sm, sm.len() as int, k2@, ne);
                }
                assert(keys_distinct(store_model(self.store@))) by {
                    let nm = store_model(self.store@);
                    assert forall|a: int, b: int| 0 <= a < b < nm.len() implies #[trigger] nm[a].0 != #[trigger] nm[b].0 by {
                        if b == sm.len() {
                            assert(nm[a] == sm[a]);
                        } else {
                            assert(nm[a] == sm[a] && nm[b] == sm[b]);
                        }
                    }
                }
                self.added.push(k2);
                assert(strings_model(self.added@) =~= am.push(key@));
            },
        }
        self.write_ops = if self.write_ops == usize::MAX { 0 } else { self.write_ops + 1 };
    }

    /// Stores `value` under `key` for `duration_seconds` seconds from the current time (see
    /// `insert_at`).
    pub fn insert(&mut self, key: String, duration_seconds: u16, value: Json)
        requires
            old(self).wf(),
            json_wf(json_model(value)),
        ensures
            final(self).wf(),
            exists|now: int|
                -TIME_BOUND <= now <= TIME_BOUND && final(self)@.store == #[trigger] store_insert(
                    old(self)@.store,
                    key@,
                    now + duration_seconds * 1_000_000_000,
                    json_model(value),
                    now,
                ),
            final(self)@.write_ops == bump(old(self)@.write_ops),
    {
        let now = now_nanos();
        self.insert_at(key, duration_seconds, value, now);
    }

    /// The values under `key` that have not expired at `now` (milliseconds), oldest first, or
    /// `None` where there are none. A read that finds expired entries drops them (see
    /// `store_after_read`) and counts a key that it leaves empty.
    #[verifier::rlimit(50)]
    pub fn get_at(&mut self, key: &str, now: i128) -> (r: Option<Vec<Json>>)
        requires
            old(self).wf(),
        ensures
            final(self).wf(),
            match r {
                Some(v) => v@.len() > 0 && v@.map_values(|j: Json| json_model(j)) == live_values(
                    old(self)@.store,
                    key@,
                    now as int,
                ),
                None => live_values(old(self)@.store, key@, now as int).len() == 0,
            },
            final(self)@.store == store_after_read(old(self)@.store, key@, now as int),
            final(self)@.read_ops == bump(old(self)@.read_ops),
            final(self)@.expired_ops == if read_cleans(old(self)@.store, key@, now as int) && unexpired(
                slot(old(self)@.store, key@)->Some_0,
                now as int,
            ).len() == 0 {
                bump(old(self)@.expired_ops)
            } else {
                old(self)@.expired_ops
            },
            final(self)@.write_ops == old(self)@.write_ops,
            final(self)@.added == old(self)@.added,
    {
        let ghost sm = store_model(self.store@);
        let result = match find_slot(&self.store, key) {
            Some(i) => {
                let values = unexpired_values(&self.store[i].1, now);
                let ghost es = sm[i as int].1;
                proof {
                    let u = unexpired(es, now as int);
                    assert(values_of(u).len() == u.len());
                    es.lemma_filter_len(|e: (int, JsonModel)| e.0 > now);
                }
                let new_len = values.len();
                if new_len > 0 {
                    if new_len < self.store[i].1.len() {
                        self.clean_up(i, now);
                    }
                    Some(values)
                } else {
                    self.clean_up(i, now);
                    None
                }
            },
            None => None,
        };
        self.read_ops = if self.read_ops == usize::MAX { 0 } else { self.read_ops + 1 };
        result
    }

    /// Drops the expired entries of the key at `i`, and the key with them where none is left.
    #[verifier::rlimit(50)]
    fn clean_up(&mut self, i: usize, now: i128)
        requires
            old(self).wf(),
            i < old(self)@.store.len(),
        ensures
            final(self).wf(),
            ({
                let sm = old(self)@.store;
                let r = unexpired(sm[i as int].1, now as int);
                &&& final(self)@.store == if r.len() == 0 {
                    sm.remove(i as int)
                } else {
                    sm.update(i as int, (sm[i as int].0, r))
                }
                &&& final(self)@.expired_ops == if r.len() == 0 {
                    bump(old(self)@.expired_ops)
                } else {
                    old(self)@.expired_ops
                }
            }),
            final(self)@.read_ops == old(self)@.read_ops,
            final(self)@.write_ops == old(self)@.write_ops,
            final(self)@.added == old(self)@.added,
    {
        let ghost sm = store_model(self.store@);
        proof {
            assert(entries_wf(sm[i as int].1)) by {
                assert forall|j: int| 0 <= j < sm[i as int].1.len() implies json_wf(#[trigger] sm[i as int].1[j].1) by {}
            }
            lemma_unexpired_wf(sm[i as int].1, now as int);
            lemma_values_wf_update(sm, i as int, sm[i as int].0, unexpired(sm[i as int].1, now as int));
        }
        let (k, es) = self.store.remove(i);
        let kept = retain_unexpired(es, now);
        if kept.len() == 0 {
            assert(store_model(self.store@) =~= sm.remove(i as int));
            self.expired_ops = if self.expired_ops == usize::MAX { 0 } else { self.expired_ops + 1 };
            assert(keys_distinct(store_model(self.store@))) by {
                let nm = store_model(self.store@);
                assert forall|a: int, b: int| 0 <= a < b < nm.len() implies #[trigger] nm[a].0 != #[trigger] nm[b].0 by {
                    let aa = if a < i { a } else { a + 1 };
                    let bb = if b < i { b } else { b + 1 };
                    assert(nm[a] == sm[aa] && nm[b] == sm[bb]);
                }
            }
        } else {
            let ghost km = timed_model(kept@);
            self.store.insert(i, (k, kept));
            assert(store_model(self.store@) =~= sm.update(i as int, (sm[i as int].0, km)));
            assert(keys_distinct(store_model(self.store@))) by {
                let nm = store_model(self.store@);
                assert forall|a: int, b: int| 0 <= a < b < nm.len() implies #[trigger] nm[a].0 != #[trigger] nm[b].0 by {
                    assert(nm[a].0 == sm[a].0 && nm[b].0 == sm[b].0);
                }
            }
        }
    }

    /// The values under `key` that have not expired at the current time (see `get_at`).
    pub fn get(&mut self, key: &str) -> (r: Option<Vec<Json>>)
        requires
            old(self).wf(),
        ensures
            final(self).wf(),
            exists|now: int|
                -TIME_BOUND <= now <= TIME_BOUND && match r {
                    Some(v) => v@.len() > 0 && v@.map_values(|j: Json| json_model(j)) == live_values(
                        old(self)@.store,
                        key@,
                        now,
                    ),
                    None => live_values(old(self)@.store, key@, now).len() == 0,
                } && final(self)@.store == #[trigger] store_after_read(old(self)@.store, key@, now),
            final(self)@.read_ops == bump(old(self)@.read_ops),
    {
        let now = now_nanos();
        self.get_at(key, now)
    }

    /// The store: each key with its entries.
    pub fn store(&self) -> (r: &Vec<(String, Vec<(i128, Json)>)>)
        ensures
            store_model(r@) == self@.store,
    {
        &self.store
    }

    /// The counts of reads, of keys that expired on a read, and of writes.
    pub fn get_ops_count(&self) -> (r: (usize, usize, usize))
        ensures
            r == (self@.read_ops, self@.expired_ops, self@.write_ops),
    {
        (self.read_ops, self.expired_ops, self.write_ops)
    }
}

// ---------------------------------------------------------------------------------------------
// The clean-up.

/// The slot of `k` after expired entries are purged at `now`: gone where none is left.
pub open spec fn purged_slot(store: Seq<(Seq<char>, Seq<(int, JsonModel)>)>, k: Seq<char>, now: int) -> Option<
    Seq<(int, JsonModel)>,
> {
    match slot(store, k) {
        Some(es) => if unexpired(es, now).len() == 0 {
            None
        } else {
            Some(unexpired(es, now))
        },
        None => None,
    }
}

/// Whether the clean-up picks the key `k`: it is not in the store, has no entries, or has an
/// entry that expired before `now`.
pub open spec fn stale(store: Seq<(Seq<char>, Seq<(int, JsonModel)>)>, k: Seq<char>, now: int) -> bool {
    match slot(store, k) {
        Some(es) => es.len() == 0 || exists|j: int| 0 <= j < es.len() && (#[trigger] es[j]).0 < now,
        None => true,
    }
}

/// How many keys one pass looks at, out of `n`: all of them up to 20, else 19 and one in twenty.
pub open spec fn keys_to_take(n: int) -> int {
    if n <= 20 {
        n
    } else {
        19 + n / 20
    }
}

/// No string occurs twice.
pub open spec fn distinct(s: Seq<Seq<char>>) -> bool {
    forall|i: int, j: int| 0 <= i < j < s.len() ==> s[i] != s[j]
}

proof fn lemma_slot_other_update(
    store: Seq<(Seq<char>, Seq<(int, JsonModel)>)>,
    i: int,
    es: Seq<(int, JsonModel)>,
    k: Seq<char>,
)
    requires
        keys_distinct(store),
        0 <= i < store.len(),
    ensures
        keys_distinct(store.update(i, (store[i].0, es))),
        k != store[i].0 ==> slot(store.update(i, (store[i].0, es)), k) == slot(store, k),
        slot(store.update(i, (store[i].0, es)), store[i].0) == Some(es),
{
    let n = store.update(i, (store[i].0, es));
    assert forall|a: int, b: int| 0 <= a < b < n.len() implies #[trigger] n[a].0 != #[trigger] n[b].0 by {
        assert(n[a].0 == store[a].0 && n[b].0 == store[b].0);
    }
    lemma_slot_at(n, store[i].0, i);
    if k != store[i].0 {
        if has_key(store, k) {
            let j = key_at(store, k);
            assert(store[j].0 == k);
            assert(n[j] == store[j]);
            lemma_slot_at(n, k, j);
        }
        if has_key(n, k) {
            let j = key_at(n, k);
            assert(n[j].0 == k);
            assert(n[j] == store[j]);
        }
    }
}

proof fn lemma_slot_other_remove(store: Seq<(Seq<char>, Seq<(int, JsonModel)>)>, i: int, k: Seq<char>)
    requires
        keys_distinct(store),
        0 <= i < store.len(),
    ensures
        keys_distinct(store.remove(i)),
        k != store[i].0 ==> slot(store.remove(i), k) == slot(store, k),
        slot(store.remove(i), store[i].0) is None,
{
    let n = store.remove(i);
    assert forall|a: int, b: int| 0 <= a < b < n.len() implies #[trigger] n[a].0 != #[trigger] n[b].0 by {
        let aa = if a < i { a } else { a + 1 };
        let bb = if b < i { b } else { b + 1 };
        assert(n[a] == store[aa] && n[b] == store[bb]);
    }
    if has_key(n, store[i].0) {
        let j = key_at(n, store[i].0);
        assert(n[j].0 == store[i].0);
        let jj = if j < i { j } else { j + 1 };
        assert(n[j] == store[jj]);
    }
    if k != store[i].0 {
        if has_key(store, k) {
            let j = key_at(store, k);
            assert(store[j].0 == k);
            let jj = if j < i { j } else { j - 1 };
            assert(n[jj] == store[j]);
            lemma_slot_at(n, k, jj);
        }
        if has_key(n, k) {
            let j = key_at(n, k);
            assert(n[j].0 == k);
            let jj = if j < i { j } else { j + 1 };
            assert(n[j] == store[jj]);
        }
    }
}

impl InnerCache {
    /// Hands over the keys added since the last call, and forgets them.
    pub fn take_added(&mut self) -> (r: Vec<String>)
        requires
            old(self).wf(),
        ensures
            final(self).wf(),
            strings_model(r@) == old(self)@.added,
            final(self)@.added.len() == 0,
            final(self)@.store == old(self)@.store,
            final(self)@.read_ops == old(self)@.read_ops,
            final(self)@.expired_ops == old(self)@.expired_ops,
            final(self)@.write_ops == old(self)@.write_ops,
    {
        let mut r: Vec<String> = Vec::new();
        std::mem::swap(&mut r, &mut self.added);
        assert(strings_model(self.added@) =~= Seq::<Seq<char>>::empty());
        r
    }

    /// Whether the clean-up picks `key` at `now` (see `stale`).
    fn is_stale(&self, key: &str, now: i128) -> (r: bool)
        requires
            self.wf(),
        ensures
            r == stale(self@.store, key@, now as int),
    {
        match find_slot(&self.store, key) {
            Some(i) => {
                let es = &self.store[i].1;
                let ghost em = timed_model(es@);
                assert(self@.store[i as int].1 == em);
                assert(slot(self@.store, key@) == Some(em));
                if es.len() == 0 {
                    return true;
                }
                let mut j: usize = 0;
                while j < es.len()
                    invariant
                        j <= es@.len(),
                        em == timed_model(es@),
                        slot(self@.store, key@) == Some(em),
                        forall|m: int| 0 <= m < j ==> !((#[trigger] em[m]).0 < now),
                    decreases es@.len() - j,
                {
                    if es[j].0 < now {
                        assert(em[j as int].0 < now);
                        return true;
                    }
                    j = j + 1;
                }
                false
            },
            None => true,
        }
    }

    /// Drops the expired entries of `key` at `now`, and the key where none is left; whether the
    /// key is then absent from the store.
    fn purge(&mut self, key: &str, now: i128) -> (r: bool)
        requires
            old(self).wf(),
        ensures
            final(self).wf(),
            forall|k: Seq<char>| k != key@ ==> slot(final(self)@.store, k) == slot(old(self)@.store, k),
            slot(final(self)@.store, key@) == purged_slot(old(self)@.store, key@, now as int),
            r == (purged_slot(old(self)@.store, key@, now as int) is None),
            final(self)@.read_ops == old(self)@.read_ops,
            final(self)@.expired_ops == old(self)@.expired_ops,
            final(self)@.write_ops == old(self)@.write_ops,
            final(self)@.added == old(self)@.added,
    {
        let ghost sm = store_model(self.store@);
        match find_slot(&self.store, key) {
            Some(i) => {
                proof {
                    assert(entries_wf(sm[i as int].1)) by {
                        assert forall|j: int| 0 <= j < sm[i as int].1.len() implies json_wf(#[trigger] sm[i as int].1[j].1) by {}
                    }
                    lemma_unexpired_wf(sm[i as int].1, now as int);
                    lemma_values_wf_update(sm, i as int, sm[i as int].0, unexpired(sm[i as int].1, now as int));
                }
                let (k, es) = self.store.remove(i);
                let kept = retain_unexpired(es, now);
                if kept.len() == 0 {
                    assert(store_model(self.store@) =~= sm.remove(i as int));
                    proof {
                        assert forall|k2: Seq<char>| k2 != key@ implies slot(store_model(self.store@), k2) == slot(sm, k2) by {
                            lemma_slot_other_remove(sm, i as int, k2);
                        }
                        lemma_slot_other_remove(sm, i as int, key@);
                    }
                    true
                } else {
                    let ghost km = timed_model(kept@);
                    self.store.insert(i, (k, kept));
                    assert(store_model(self.store@) =~= sm.update(i as int, (sm[i as int].0, km)));
                    proof {
                        assert forall|k2: Seq<char>| k2 != key@ implies slot(store_model(self.store@), k2) == slot(sm, k2) by {
                            lemma_slot_other_update(sm, i as int, km, k2);
                        }
                        lemma_slot_other_update(sm, i as int, km, key@);
                    }
                    false
                }
            },
            None => true,
        }
    }
}

proof fn lemma_filter_in<A>(s: Seq<A>, p: spec_fn(A) -> bool, i: int)
    requires
        0 <= i < s.filter(p).len(),
    ensures
        s.contains(s.filter(p)[i]),
    decreases s.len(),
{
    reveal(Seq::filter);
    if s.len() > 0 {
        let f = s.drop_last().filter(p);
        if i < f.len() {
            lemma_filter_in(s.drop_last(), p, i);
            let m = choose|m: int| 0 <= m < s.drop_last().len() && s.drop_last()[m] == f[i];
            assert(s[m] == f[i]);
        } else {
            assert(s.filter(p)[i] == s[s.len() - 1]);
        }
    }
}

/// Whether `s` is one of `v`.
fn contains_str(v: &Vec<String>, s: &str) -> (r: bool)
    ensures
        r == strings_model(v@).contains(s@),
{
    let mut j: usize = 0;
    while j < v.len()
        invariant
            j <= v@.len(),
            forall|m: int| 0 <= m < j ==> (#[trigger] v@[m])@ != s@,
        decreases v@.len() - j,
    {
        if str_eq(v[j].as_str(), s) {
            assert(strings_model(v@)[j as int] == s@);
            return true;
        }
        j = j + 1;
    }
    assert(!strings_model(v@).contains(s@)) by {
        if strings_model(v@).contains(s@) {
            let m = choose|m: int| 0 <= m < v@.len() && strings_model(v@)[m] == s@;
            assert(v@[m]@ == s@);
        }
    }
    false
}

/// The keys that the clean-up looks after, none twice.
pub struct CleanupState {
    keys: Vec<String>,
}

impl View for CleanupState {
    type V = Seq<Seq<char>>;

    closed spec fn view(&self) -> Seq<Seq<char>> {
        strings_model(self.keys@)
    }
}

/// The two stores hold the same live values under every key at `now` and at every later time.
pub open spec fn same_live_from(
    a: Seq<(Seq<char>, Seq<(int, JsonModel)>)>,
    b: Seq<(Seq<char>, Seq<(int, JsonModel)>)>,
    now: int,
) -> bool {
    forall|k: Seq<char>, t: int| t >= now ==> #[trigger] live_values(a, k, t) == live_values(b, k, t)
}

/// The keys with `added` taken in, in order, each unless it is there already.
pub open spec fn add_keys(keys: Seq<Seq<char>>, added: Seq<Seq<char>>) -> Seq<Seq<char>>
    decreases added.len(),
{
    if added.len() == 0 {
        keys
    } else {
        add_keys(if keys.contains(added[0]) { keys } else { keys.push(added[0]) }, added.drop_first())
    }
}

/// A draw `offset` that fits `n` keys: beyond 20 keys, the window it starts ends before the last.
pub open spec fn offset_ok(n: int, offset: int) -> bool {
    0 <= offset && (n > 20 ==> offset + keys_to_take(n) < n)
}

/// The store and the keys after a pass over `keys` at `now` with the draw `offset` (see
/// `clean_up_at`): each picked key has its expired entries purged, and leaves the keys where none
/// is left; every other key is as it was.
pub open spec fn pass_result(
    keys: Seq<Seq<char>>,
    store: Seq<(Seq<char>, Seq<(int, JsonModel)>)>,
    now: int,
    offset: int,
    keys2: Seq<Seq<char>>,
    store2: Seq<(Seq<char>, Seq<(int, JsonModel)>)>,
) -> bool {
    &&& forall|k: Seq<char>|
        #[trigger] slot(store2, k) == if picked_keys(keys, store, now, offset).contains(k) {
            purged_slot(store, k, now)
        } else {
            slot(store, k)
        }
    &&& keys2 == keys.filter(
        |k: Seq<char>| !(picked_keys(keys, store, now, offset).contains(k) && purged_slot(store, k, now) is None),
    )
}

/// Where a pass starts among `n` keys and how many it looks at, given a draw `offset` (used only
/// beyond 20 keys).
pub open spec fn pass_window(n: int, offset: int) -> (int, int) {
    if n <= 20 {
        (0, n)
    } else {
        (offset, keys_to_take(n))
    }
}

/// The keys that a pass over `keys` at `now` picks: those of the window that are stale.
pub open spec fn picked_keys(
    keys: Seq<Seq<char>>,
    store: Seq<(Seq<char>, Seq<(int, JsonModel)>)>,
    now: int,
    offset: int,
) -> Seq<Seq<char>> {
    let (start, take) = pass_window(keys.len() as int, offset);
    keys.subrange(start, start + take).filter(|k: Seq<char>| stale(store, k, now))
}

/// Whether the clean-up should wait before its next pass: nothing to look at, or fewer keys picked
/// than one in twenty of those looked at, or than 10.
pub open spec fn pass_waits(keys: Seq<Seq<char>>, store: Seq<(Seq<char>, Seq<(int, JsonModel)>)>, now: int, offset: int) -> bool {
    let cleaned = picked_keys(keys, store, now, offset).len();
    let take = pass_window(keys.len() as int, offset).1;
    keys.len() == 0 || cleaned < take / 20 || cleaned < 10
}

/// The stale keys (see `stale`) among `keys[start..start + take]`, in order.
#[verifier::rlimit(50)]
fn pick_stale(keys: &Vec<String>, cache: &InnerCache, start: usize, take: usize, now: i128) -> (picked: Vec<String>)
    requires
        cache.wf(),
        distinct(strings_model(keys@)),
        start + take <= keys@.len(),
    ensures
        strings_model(picked@) == strings_model(keys@).subrange(start as int, start + take).filter(
            |k: Seq<char>| stale(cache@.store, k, now as int),
        ),
        distinct(strings_model(picked@)),
{
    let ghost keys0 = strings_model(keys@);
    let ghost store0 = cache@.store;
    let ghost win = keys0.subrange(start as int, start + take);
    let ghost stale_pred = |k: Seq<char>| stale(store0, k, now as int);
    let n = keys.len();
        // The stale keys of the window.
        let mut picked: Vec<String> = Vec::new();
        let mut idx: usize = start;
        proof {
            reveal(Seq::filter);
            assert(win.subrange(0, 0).filter(stale_pred) =~= Seq::<Seq<char>>::empty());
            assert(strings_model(picked@) =~= Seq::<Seq<char>>::empty());
        }
        while idx < start + take
            invariant
                start <= idx <= start + take <= n,
                n == keys@.len(),
                keys0 == strings_model(keys@),
                distinct(keys0),
                store0 == cache@.store,
                cache.wf(),
                win == keys0.subrange(start as int, start + take),
                stale_pred == (|k: Seq<char>| stale(store0, k, now as int)),
                strings_model(picked@) == win.subrange(0, idx - start).filter(stale_pred),
                distinct(strings_model(picked@)),
                forall|a: int| 0 <= a < picked@.len() ==> exists|m: int| start <= m < idx && #[trigger] keys0[m] == (#[trigger] picked@[a])@,
            decreases start + take - idx,
        {
            let ghost before = strings_model(picked@);
            let ghost kidx = keys0[idx as int];
            assert(win[idx - start] == kidx);
            let ghost pv = picked@;
            if cache.is_stale(keys[idx].as_str(), now) {
                let kc = keys[idx].clone();
                picked.push(kc);
                assert(strings_model(picked@) =~= before.push(kidx));
                assert forall|a: int, b: int| 0 <= a < b < strings_model(picked@).len() implies strings_model(picked@)[a] != strings_model(picked@)[b] by {
                    if b == before.len() {
                        let m = choose|m: int| start <= m < idx && #[trigger] keys0[m] == (#[trigger] pv[a])@;
                        assert(picked@[a] == pv[a]);
                        assert(keys0[m] != keys0[idx as int]);
                    } else {
                        assert(strings_model(picked@)[a] == before[a] && strings_model(picked@)[b] == before[b]);
                    }
                }
                assert forall|a: int| 0 <= a < picked@.len() implies exists|m: int| start <= m < idx + 1 && #[trigger] keys0[m] == (#[trigger] picked@[a])@ by {
                    if a == before.len() {
                        assert(keys0[idx as int] == picked@[a]@);
                    } else {
                        assert(picked@[a] == pv[a]);
                        let m = choose|m: int| start <= m < idx && #[trigger] keys0[m] == (#[trigger] pv[a])@;
                        assert(keys0[m] == picked@[a]@);
                    }
                }
            }
            proof {
                reveal(Seq::filter);
                assert(win.subrange(0, idx + 1 - start).drop_last() =~= win.subrange(0, idx - start));
            }
            idx = idx + 1;
        }
    assert(win.subrange(0, take as int) =~= win);
    picked
}

/// Purges each of the keys `picked` (see `purge`); the keys that left the store.
#[verifier::rlimit(50)]
fn purge_picked(cache: &mut InnerCache, picked: &Vec<String>, now: i128) -> (gone: Vec<String>)
    requires
        old(cache).wf(),
        distinct(strings_model(picked@)),
    ensures
        final(cache).wf(),
        strings_model(gone@) == strings_model(picked@).filter(
            |k: Seq<char>| purged_slot(old(cache)@.store, k, now as int) is None,
        ),
        forall|k: Seq<char>|
            #[trigger] slot(final(cache)@.store, k) == if strings_model(picked@).contains(k) {
                purged_slot(old(cache)@.store, k, now as int)
            } else {
                slot(old(cache)@.store, k)
            },
        final(cache)@.read_ops == old(cache)@.read_ops,
        final(cache)@.expired_ops == old(cache)@.expired_ops,
        final(cache)@.write_ops == old(cache)@.write_ops,
        final(cache)@.added == old(cache)@.added,
{
    let ghost picked_spec = strings_model(picked@);
    let ghost store0 = cache@.store;
        // Purge the picked keys.
        let mut gone: Vec<String> = Vec::new();
        let mut j: usize = 0;
        let ghost none_pred = |k: Seq<char>| purged_slot(store0, k, now as int) is None;
        proof {
            reveal(Seq::filter);
            assert(picked_spec.subrange(0, 0).filter(none_pred) =~= Seq::<Seq<char>>::empty());
            assert(strings_model(gone@) =~= Seq::<Seq<char>>::empty());
        }
        while j < picked.len()
            invariant
                j <= picked@.len(),
                strings_model(picked@) == picked_spec,
                distinct(picked_spec),
                cache.wf(),
                none_pred == (|k: Seq<char>| purged_slot(store0, k, now as int) is None),
                strings_model(gone@) == picked_spec.subrange(0, j as int).filter(none_pred),
                forall|k: Seq<char>|
                    #[trigger] slot(cache@.store, k) == if picked_spec.subrange(0, j as int).contains(k) {
                        purged_slot(store0, k, now as int)
                    } else {
                        slot(store0, k)
                    },
                cache@.read_ops == old(cache)@.read_ops,
                cache@.expired_ops == old(cache)@.expired_ops,
                cache@.write_ops == old(cache)@.write_ops,
                cache@.added == old(cache)@.added,
            decreases picked@.len() - j,
        {
            let ghost kj = picked_spec[j as int];
            assert(picked@[j as int]@ == kj);
            assert(!picked_spec.subrange(0, j as int).contains(kj)) by {
                if picked_spec.subrange(0, j as int).contains(kj) {
                    let m = choose|m: int| 0 <= m < j && #[trigger] picked_spec.subrange(0, j as int)[m] == kj;
                    assert(picked_spec[m] == picked_spec[j as int]);
                }
            }
            assert(slot(cache@.store, kj) == slot(store0, kj));
            let ghost mid = cache@.store;
            let is_gone = cache.purge(picked[j].as_str(), now);
            let ghost before = strings_model(gone@);
            if is_gone {
                let kc = picked[j].clone();
                gone.push(kc);
                assert(strings_model(gone@) =~= before.push(kj));
            }
            proof {
                reveal(Seq::filter);
                assert(picked_spec.subrange(0, j + 1).drop_last() =~= picked_spec.subrange(0, j as int));
                assert forall|k: Seq<char>| #[trigger] slot(cache@.store, k) == if picked_spec.subrange(0, j + 1).contains(k) {
                    purged_slot(store0, k, now as int)
                } else {
                    slot(store0, k)
                } by {
                    if k == kj {
                        assert(picked_spec.subrange(0, j + 1)[j as int] == kj);
                    } else {
                        assert(slot(cache@.store, k) == slot(mid, k));
                        if picked_spec.subrange(0, j as int).contains(k) {
                            let m = choose|m: int| 0 <= m < j && #[trigger] picked_spec.subrange(0, j as int)[m] == k;
                            assert(picked_spec.subrange(0, j + 1)[m] == k);
                        }
                        if picked_spec.subrange(0, j + 1).contains(k) {
                            let m = choose|m: int| 0 <= m < j + 1 && #[trigger] picked_spec.subrange(0, j + 1)[m] == k;
                            assert(m != j);
                            assert(picked_spec.subrange(0, j as int)[m] == k);
                        }
                    }
                }
            }
            j = j + 1;
        }
    assert(picked_spec.subrange(0, picked@.len() as int) =~= picked_spec);
    gone
}

/// The keys that are not among `gone`, in order.
#[verifier::rlimit(50)]
fn keep_remaining(keys: &Vec<String>, gone: &Vec<String>) -> (kept: Vec<String>)
    requires
        distinct(strings_model(keys@)),
    ensures
        strings_model(kept@) == strings_model(keys@).filter(|k: Seq<char>| !strings_model(gone@).contains(k)),
        distinct(strings_model(kept@)),
{
    let ghost keys0 = strings_model(keys@);
    let ghost gone_pred = |k: Seq<char>| !strings_model(gone@).contains(k);
    let mut kept: Vec<String> = Vec::new();
    let mut i: usize = 0;
    proof {
        reveal(Seq::filter);
        assert(keys0.subrange(0, 0).filter(gone_pred) =~= Seq::<Seq<char>>::empty());
        assert(strings_model(kept@) =~= Seq::<Seq<char>>::empty());
    }
    while i < keys.len()
        invariant
            i <= keys@.len(),
            keys0 == strings_model(keys@),
            distinct(keys0),
            gone_pred == (|k: Seq<char>| !strings_model(gone@).contains(k)),
            strings_model(kept@) == keys0.subrange(0, i as int).filter(gone_pred),
            distinct(strings_model(kept@)),
            forall|a: int| 0 <= a < kept@.len() ==> exists|m: int| 0 <= m < i && #[trigger] keys0[m] == (#[trigger] kept@[a])@,
        decreases keys@.len() - i,
    {
        let ghost ki = keys0[i as int];
        let ghost before = strings_model(kept@);
        let is_gone = contains_str(gone, keys[i].as_str());
        let ghost kv0 = kept@;
        if !is_gone {
            let kc = keys[i].clone();
            kept.push(kc);
            assert(strings_model(kept@) =~= before.push(ki));
            assert forall|a: int, b: int| 0 <= a < b < strings_model(kept@).len() implies strings_model(kept@)[a] != strings_model(kept@)[b] by {
                if b == before.len() {
                    let m = choose|m: int| 0 <= m < i && #[trigger] keys0[m] == (#[trigger] kv0[a])@;
                    assert(keys0[m] != keys0[i as int]);
                    assert(kept@[a] == kv0[a]);
                } else {
                    assert(strings_model(kept@)[a] == before[a] && strings_model(kept@)[b] == before[b]);
                }
            }
            assert forall|a: int| 0 <= a < kept@.len() implies exists|m: int| 0 <= m < i + 1 && #[trigger] keys0[m] == (#[trigger] kept@[a])@ by {
                if a == before.len() {
                    assert(keys0[i as int] == kept@[a]@);
                } else {
                    assert(kept@[a] == kv0[a]);
                    let m = choose|m: int| 0 <= m < i && #[trigger] keys0[m] == (#[trigger] kv0[a])@;
                    assert(keys0[m] == kept@[a]@);
                }
            }
        }
        proof {
            reveal(Seq::filter);
            assert(keys0.subrange(0, i + 1).drop_last() =~= keys0.subrange(0, i as int));
        }
        i = i + 1;
    }
    assert(keys0.subrange(0, keys0.len() as int) =~= keys0);
    kept
}

impl CleanupState {
    /// No key twice.
    pub open spec fn wf(&self) -> bool {
        distinct(self@)
    }

    /// No keys yet.
    pub fn new() -> (r: CleanupState)
        ensures
            r.wf(),
            r@.len() == 0,
    {
        let r = CleanupState { keys: Vec::new() };
        assert(r@ =~= Seq::<Seq<char>>::empty());
        r
    }

    /// Adds `key` unless it is there already.
    pub fn add_key(&mut self, key: String)
        requires
            old(self).wf(),
        ensures
            final(self).wf(),
            final(self)@ == if old(self)@.contains(key@) {
                old(self)@
            } else {
                old(self)@.push(key@)
            },
    {
        if !contains_str(&self.keys, key.as_str()) {
            let ghost before = self@;
            let ghost kv = key@;
            self.keys.push(key);
            assert(self@ =~= before.push(kv));
        }
    }

    /// One pass of the clean-up at `now`, with `offset` drawn below the number of keys less the
    /// number looked at (used beyond 20 keys): every picked key (see `picked_keys`) loses its
    /// expired entries, and leaves the store and the keys where none is left. Whether to wait
    /// before the next pass (see `pass_waits`).
    #[verifier::rlimit(50)]
    pub fn clean_up_at(&mut self, cache: &mut InnerCache, now: i128, offset: usize) -> (wait: bool)
        requires
            old(self).wf(),
            old(cache).wf(),
            old(self)@.len() > 20 ==> offset + keys_to_take(old(self)@.len() as int) < old(self)@.len(),
        ensures
            final(self).wf(),
            final(cache).wf(),
            wait == pass_waits(old(self)@, old(cache)@.store, now as int, offset as int),
            forall|k: Seq<char>|
                #[trigger] slot(final(cache)@.store, k) == if picked_keys(
                    old(self)@,
                    old(cache)@.store,
                    now as int,
                    offset as int,
                ).contains(k) {
                    purged_slot(old(cache)@.store, k, now as int)
                } else {
                    slot(old(cache)@.store, k)
                },
            final(self)@ == old(self)@.filter(
                |k: Seq<char>|
                    !(picked_keys(old(self)@, old(cache)@.store, now as int, offset as int).contains(k)
                        && purged_slot(old(cache)@.store, k, now as int) is None),
            ),
            final(cache)@.read_ops == old(cache)@.read_ops,
            final(cache)@.expired_ops == old(cache)@.expired_ops,
            final(cache)@.write_ops == old(cache)@.write_ops,
            final(cache)@.added == old(cache)@.added,
    {
        let ghost keys0 = self@;
        let ghost store0 = cache@.store;
        let ghost picked_spec = picked_keys(keys0, store0, now as int, offset as int);
        let ghost gone_pred = |k: Seq<char>| !(picked_spec.contains(k) && purged_slot(store0, k, now as int) is None);
        let n = self.keys.len();
        if n == 0 {
            proof {
                reveal(Seq::filter);
                assert(picked_spec =~= Seq::<Seq<char>>::empty());
                assert(keys0.filter(gone_pred) =~= keys0);
            }
            return true;
        }
        let (start, take) = if n <= 20 {
            (0, n)
        } else {
            (offset, 19 + n / 20)
        };
        let picked = pick_stale(&self.keys, cache, start, take, now);
        let cleaned = picked.len();
        let gone = purge_picked(cache, &picked, now);
        let kept = keep_remaining(&self.keys, &gone);
        proof {
            let none_pred = |k: Seq<char>| purged_slot(store0, k, now as int) is None;
            let gone_spec = picked_spec.filter(none_pred);
            let gone_not = |k: Seq<char>| !strings_model(gone@).contains(k);
            assert forall|ki: Seq<char>| #[trigger] gone_not(ki) == gone_pred(ki) by {
                if gone_spec.contains(ki) {
                    let m = choose|m: int| 0 <= m < gone_spec.len() && #[trigger] gone_spec[m] == ki;
                    picked_spec.lemma_filter_pred(none_pred, m);
                    lemma_filter_in(picked_spec, none_pred, m);
                }
                if picked_spec.contains(ki) && none_pred(ki) {
                    let m = choose|m: int| 0 <= m < picked_spec.len() && #[trigger] picked_spec[m] == ki;
                    picked_spec.lemma_filter_contains(none_pred, m);
                }
            }
            assert(gone_not =~= gone_pred);
        }
        self.keys = kept;
        cleaned < take / 20 || cleaned < 10
    }

    /// One pass of the clean-up at the current time: the keys added to the store since the last
    /// pass are taken in first, and the window is drawn at random beyond 20 keys (see
    /// `clean_up_at`). Whether to wait before the next pass.
    #[verifier::rlimit(50)]
    pub fn clean_up(&mut self, cache: &mut InnerCache) -> (wait: bool)
        requires
            old(self).wf(),
            old(cache).wf(),
        ensures
            final(self).wf(),
            final(cache).wf(),
            final(cache)@.added.len() == 0,
            exists|now: int, offset: int|
                -TIME_BOUND <= now <= TIME_BOUND && offset_ok(
                    add_keys(old(self)@, old(cache)@.added).len() as int,
                    offset,
                ) && #[trigger] pass_result(
                    add_keys(old(self)@, old(cache)@.added),
                    old(cache)@.store,
                    now,
                    offset,
                    final(self)@,
                    final(cache)@.store,
                ) && wait == pass_waits(add_keys(old(self)@, old(cache)@.added), old(cache)@.store, now, offset)
                    && same_live_from(final(cache)@.store, old(cache)@.store, now),
            final(cache)@.read_ops == old(cache)@.read_ops,
            final(cache)@.expired_ops == old(cache)@.expired_ops,
            final(cache)@.write_ops == old(cache)@.write_ops,
    {
        let ghost added0 = cache@.added;
        let added = cache.take_added();
        let ghost store0 = cache@.store;
        let mut added = added;
        while added.len() > 0
            invariant
                self.wf(),
                add_keys(self@, strings_model(added@)) == add_keys(old(self)@, added0),
                added0 == old(cache)@.added,
                cache.wf(),
                cache@.store == old(cache)@.store,
                cache@.added.len() == 0,
                cache@.read_ops == old(cache)@.read_ops,
                cache@.expired_ops == old(cache)@.expired_ops,
                cache@.write_ops == old(cache)@.write_ops,
            decreases added@.len(),
        {
            let ghost am = strings_model(added@);
            let ghost av = added@;
            let k = added.remove(0);
            assert(added@ =~= av.subrange(1, av.len() as int));
            assert(strings_model(added@) =~= am.drop_first());
            assert(am[0] == k@);
            self.add_key(k);
        }
        assert(strings_model(added@) =~= Seq::<Seq<char>>::empty());
        let now = now_nanos();
        let n = self.keys.len();
        let offset = if n > 20 {
            random_below(n - (19 + n / 20))
        } else {
            0
        };
        let ghost keys0 = self@;
        let wait = self.clean_up_at(cache, now, offset);
        proof {
            let picked = picked_keys(keys0, store0, now as int, offset as int);
            assert forall|k: Seq<char>, t: int| t >= now implies #[trigger] live_values(cache@.store, k, t) == live_values(store0, k, t) by {
                law_clean_up_keeps_live_values(store0, cache@.store, picked, now as int, k, t);
            }
            assert(same_live_from(cache@.store, store0, now as int));
            assert(pass_result(keys0, store0, now as int, offset as int, self@, cache@.store));
        }
        wait
    }
}

// ---------------------------------------------------------------------------------------------
// Laws.

proof fn lemma_unexpired_twice(es: Seq<(int, JsonModel)>, a: int, b: int)
    requires
        a <= b,
    ensures
        unexpired(unexpired(es, a), b) == unexpired(es, b),
    decreases es.len(),
{
    if es.len() > 0 {
        let init = es.drop_last();
        let x = es.last();
        lemma_unexpired_twice(init, a, b);
        assert(es =~= init.push(x));
        lemma_unexpired_push(init, x, a);
        lemma_unexpired_push(init, x, b);
        lemma_unexpired_push(unexpired(init, a), x, b);
    } else {
        reveal(Seq::filter);
    }
}

proof fn lemma_unexpired_push(es: Seq<(int, JsonModel)>, e: (int, JsonModel), t: int)
    ensures
        unexpired(es.push(e), t) == if e.0 > t {
            unexpired(es, t).push(e)
        } else {
            unexpired(es, t)
        },
{
    reveal(Seq::filter);
    assert(es.push(e).drop_last() =~= es);
}

/// The values live under a key are well formed.
pub proof fn lemma_live_wf(store: Seq<(Seq<char>, Seq<(int, JsonModel)>)>, k: Seq<char>, now: int)
    requires
        keys_distinct(store),
        values_wf(store),
    ensures
        forall|i: int| 0 <= i < live_values(store, k, now).len() ==> json_wf(#[trigger] live_values(store, k, now)[i]),
{
    if has_key(store, k) {
        let es = store[key_at(store, k)].1;
        assert(entries_wf(es)) by {
            assert forall|j: int| 0 <= j < es.len() implies json_wf(#[trigger] es[j].1) by {
                assert(json_wf(store[key_at(store, k)].1[j].1));
            }
        }
        lemma_unexpired_wf(es, now);
    }
}

/// A value stored for a positive time is read back, as the newest value under its key, at any
/// time from the write until it expires.
pub proof fn law_read_after_write(
    store: Seq<(Seq<char>, Seq<(int, JsonModel)>)>,
    k: Seq<char>,
    duration_seconds: u16,
    v: JsonModel,
    now: int,
    t: int,
)
    requires
        keys_distinct(store),
        now <= t < now + duration_seconds * 1_000_000_000,
    ensures
        live_values(store_insert(store, k, now + duration_seconds * 1_000_000_000, v, now), k, t).len() > 0,
        live_values(store_insert(store, k, now + duration_seconds * 1_000_000_000, v, now), k, t).last() == v,
{
    let exp = now + duration_seconds * 1_000_000_000;
    let n = store_insert(store, k, exp, v, now);
    if has_key(store, k) {
        let i = key_at(store, k);
        assert(store[i].0 == k);
        lemma_slot_other_update(store, i, unexpired(store[i].1, now).push((exp, v)), k);
        lemma_unexpired_push(unexpired(store[i].1, now), (exp, v), t);
    } else {
        assert(keys_distinct(n)) by {
            assert forall|a: int, b: int| 0 <= a < b < n.len() implies #[trigger] n[a].0 != #[trigger] n[b].0 by {
                if b == store.len() {
                    assert(n[a] == store[a]);
                    assert(store[a].0 != k);
                } else {
                    assert(n[a] == store[a] && n[b] == store[b]);
                }
            }
        }
        lemma_slot_at(n, k, store.len() as int);
        lemma_unexpired_push(Seq::empty(), (exp, v), t);
        reveal(Seq::filter);
        assert(seq![(exp, v)] =~= Seq::<(int, JsonModel)>::empty().push((exp, v)));
    }
}

/// A value written under a key where nothing was live at `t` is, at `t` before it expires, the one
/// value live under the key.
pub proof fn law_write_alone_is_live(
    store: Seq<(Seq<char>, Seq<(int, JsonModel)>)>,
    k: Seq<char>,
    expiry: int,
    v: JsonModel,
    now: int,
    t: int,
)
    requires
        keys_distinct(store),
        now <= t < expiry,
        live_values(store, k, t).len() == 0,
    ensures
        live_values(store_insert(store, k, expiry, v, now), k, t) == seq![v],
{
    let n = store_insert(store, k, expiry, v, now);
    if has_key(store, k) {
        let i = key_at(store, k);
        assert(store[i].0 == k);
        lemma_slot_other_update(store, i, unexpired(store[i].1, now).push((expiry, v)), k);
        lemma_unexpired_push(unexpired(store[i].1, now), (expiry, v), t);
        lemma_unexpired_twice(store[i].1, now, t);
        assert(unexpired(store[i].1, t).len() == 0);
        assert(unexpired(store[i].1, t) =~= Seq::<(int, JsonModel)>::empty());
        assert(values_of(Seq::<(int, JsonModel)>::empty().push((expiry, v))) =~= seq![v]);
    } else {
        assert(keys_distinct(n)) by {
            assert forall|a: int, b: int| 0 <= a < b < n.len() implies #[trigger] n[a].0 != #[trigger] n[b].0 by {
                if b == store.len() {
                    assert(n[a] == store[a]);
                    assert(store[a].0 != k);
                } else {
                    assert(n[a] == store[a] && n[b] == store[b]);
                }
            }
        }
        lemma_slot_at(n, k, store.len() as int);
        lemma_unexpired_push(Seq::empty(), (expiry, v), t);
        reveal(Seq::filter);
        assert(seq![(expiry, v)] =~= Seq::<(int, JsonModel)>::empty().push((expiry, v)));
        assert(unexpired(Seq::<(int, JsonModel)>::empty(), t) =~= Seq::<(int, JsonModel)>::empty());
        assert(values_of(Seq::<(int, JsonModel)>::empty().push((expiry, v))) =~= seq![v]);
    }
}

/// A write keeps the keys of the store distinct.
pub proof fn lemma_store_insert_distinct(
    store: Seq<(Seq<char>, Seq<(int, JsonModel)>)>,
    k: Seq<char>,
    expiry: int,
    v: JsonModel,
    now: int,
)
    requires
        keys_distinct(store),
    ensures
        keys_distinct(store_insert(store, k, expiry, v, now)),
{
    let n = store_insert(store, k, expiry, v, now);
    if has_key(store, k) {
        let i = key_at(store, k);
        assert(store[i].0 == k);
        lemma_slot_other_update(store, i, unexpired(store[i].1, now).push((expiry, v)), k);
    } else {
        assert forall|a: int, b: int| 0 <= a < b < n.len() implies #[trigger] n[a].0 != #[trigger] n[b].0 by {
            if b == store.len() {
                assert(n[a] == store[a]);
                assert(store[a].0 != k);
            } else {
                assert(n[a] == store[a] && n[b] == store[b]);
            }
        }
    }
}

/// A write under one key leaves every other key as it was.
pub proof fn law_write_keeps_other_keys(
    store: Seq<(Seq<char>, Seq<(int, JsonModel)>)>,
    k: Seq<char>,
    expiry: int,
    v: JsonModel,
    now: int,
    k2: Seq<char>,
)
    requires
        keys_distinct(store),
        k2 != k,
    ensures
        slot(store_insert(store, k, expiry, v, now), k2) == slot(store, k2),
{
    let n = store_insert(store, k, expiry, v, now);
    if has_key(store, k) {
        let i = key_at(store, k);
        assert(store[i].0 == k);
        lemma_slot_other_update(store, i, unexpired(store[i].1, now).push((expiry, v)), k2);
    } else {
        if has_key(store, k2) {
            let j = key_at(store, k2);
            assert(store[j].0 == k2);
            assert(n[j] == store[j]);
            assert(keys_distinct(n)) by {
                assert forall|a: int, b: int| 0 <= a < b < n.len() implies #[trigger] n[a].0 != #[trigger] n[b].0 by {
                    if b == store.len() {
                        assert(n[a] == store[a]);
                    } else {
                        assert(n[a] == store[a] && n[b] == store[b]);
                    }
                }
            }
            lemma_slot_at(n, k2, j);
        }
        if has_key(n, k2) {
            let j = key_at(n, k2);
            assert(n[j].0 == k2);
            assert(j < store.len());
            assert(n[j] == store[j]);
        }
    }
}

/// A read at `now` changes nothing of what is live at `now` or later, under any key.
pub proof fn law_read_keeps_live_values(
    store: Seq<(Seq<char>, Seq<(int, JsonModel)>)>,
    k: Seq<char>,
    now: int,
    k2: Seq<char>,
    t: int,
)
    requires
        keys_distinct(store),
        now <= t,
    ensures
        live_values(store_after_read(store, k, now), k2, t) == live_values(store, k2, t),
{
    if read_cleans(store, k, now) {
        let i = key_at(store, k);
        assert(store[i].0 == k);
        let r = unexpired(store[i].1, now);
        if r.len() == 0 {
            lemma_slot_other_remove(store, i, k2);
            if k2 == k {
                lemma_unexpired_twice(store[i].1, now, t);
                reveal(Seq::filter);
                assert(unexpired(r, t) =~= Seq::<(int, JsonModel)>::empty());
            }
        } else {
            lemma_slot_other_update(store, i, r, k2);
            if k2 == k {
                lemma_unexpired_twice(store[i].1, now, t);
            }
        }
    }
}

/// A clean-up pass at `now` changes nothing of what is live at `now` or later, under any key.
pub proof fn law_clean_up_keeps_live_values(
    before: Seq<(Seq<char>, Seq<(int, JsonModel)>)>,
    after: Seq<(Seq<char>, Seq<(int, JsonModel)>)>,
    picked: Seq<Seq<char>>,
    now: int,
    k: Seq<char>,
    t: int,
)
    requires
        now <= t,
        forall|k2: Seq<char>|
            #[trigger] slot(after, k2) == if picked.contains(k2) {
                purged_slot(before, k2, now)
            } else {
                slot(before, k2)
            },
    ensures
        live_values(after, k, t) == live_values(before, k, t),
{
    assert(slot(after, k) == slot(after, k));
    if picked.contains(k) {
        if let Some(es) = slot(before, k) {
            lemma_unexpired_twice(es, now, t);
            if unexpired(es, now).len() == 0 {
                reveal(Seq::filter);
                assert(unexpired(unexpired(es, now), t) =~= Seq::<(int, JsonModel)>::empty());
            }
        }
    }
}

} // verus!
