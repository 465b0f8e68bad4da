//! The persisted application store: review-rating accumulators, a bounded
//! visit-history map with approximate least-frequent eviction, a global
//! distinct-visit counter, and dirty tracking for periodic flushes.
//!
//! The store holds no clock of its own: every mutating operation takes the
//! current time as a plain argument, so each operation is a pure function of
//! the prior state and its inputs.
use vstd::prelude::*;

verus! {

/// Capacity bound of the visit-history map.
pub const VISIT_HISTORY_MAX_SIZE: usize = 5000;

/// Seconds the store may stay dirty before a flush is due.
pub const DATABASE_SAVE_INTERVAL_SECONDS: u64 = 60;

/// How many entries an eviction resample inspects.
pub const RESEED_SAMPLE: usize = 10;

/// A visitor address, stored as the integer value of the IPv4 or IPv6 address.
#[derive(Clone, Copy, Debug, PartialEq, Eq, Structural)]
pub enum StoredIp {
    V4(u32),
    V6(u128),
}

/// The cached candidate for eviction: an entry believed to have the lowest
/// visit count.
#[derive(Clone, Copy, Debug, PartialEq, Eq, Structural)]
pub struct LeastVisitor {
    pub ip: StoredIp,
    pub count: u32,
}

/// The store itself. Both maps are association lists with unique keys.
pub struct Database {
    pub review_ratings: Vec<(u8, i64)>,
    pub visit_history: Vec<(StoredIp, u32)>,
    pub least_visitor: Option<LeastVisitor>,
    pub visits: u64,
    pub dirty_start: Option<u64>,
}

/// The mathematical model of a `Database`.
pub struct StoreModel {
    pub ratings: Seq<(u8, i64)>,
    pub history: Seq<(StoredIp, u32)>,
    pub least: Option<LeastVisitor>,
    pub visits: u64,
    pub dirty: Option<u64>,
}

impl View for Database {
    type V = StoreModel;

    open spec fn view(&self) -> StoreModel {
        StoreModel {
            ratings: self.review_ratings@,
            history: self.visit_history@,
            least: self.least_visitor,
            visits: self.visits,
            dirty: self.dirty_start,
        }
    }
}

/// No key occurs twice.
pub open spec fn unique_keys<K, V>(s: Seq<(K, V)>) -> bool {
    forall|i: int, j: int| 0 <= i < j < s.len() ==> (#[trigger] s[i]).0 != (#[trigger] s[j]).0
}

/// `k` is a key of the association list.
pub open spec fn has_key<K, V>(s: Seq<(K, V)>, k: K) -> bool {
    exists|i: int| 0 <= i < s.len() && (#[trigger] s[i]).0 == k
}

/// The index of key `k`; under `unique_keys` it is the only one.
pub open spec fn key_idx<K, V>(s: Seq<(K, V)>, k: K) -> int {
    choose|i: int| 0 <= i < s.len() && (#[trigger] s[i]).0 == k
}

/// The value stored under key `k`.
pub open spec fn value_of<K, V>(s: Seq<(K, V)>, k: K) -> V
    recommends
        has_key(s, k),
{
    s[key_idx(s, k)].1
}

/// The list with key `k` taken out, or the list itself when `k` is absent.
pub open spec fn remove_key<K, V>(s: Seq<(K, V)>, k: K) -> Seq<(K, V)> {
    if has_key(s, k) {
        s.remove(key_idx(s, k))
    } else {
        s
    }
}

pub proof fn lemma_key_idx<K, V>(s: Seq<(K, V)>, k: K)
    requires
        has_key(s, k),
    ensures
        0 <= key_idx(s, k) < s.len(),
        s[key_idx(s, k)].0 == k,
{
}

pub proof fn lemma_key_idx_unique<K, V>(s: Seq<(K, V)>, k: K, i: int)
    requires
        unique_keys(s),
        0 <= i < s.len(),
        s[i].0 == k,
    ensures
        has_key(s, k),
        key_idx(s, k) == i,
        value_of(s, k) == s[i].1,
{
    assert(has_key(s, k));
    lemma_key_idx(s, k);
}

pub proof fn lemma_remove_keys<K, V>(s: Seq<(K, V)>, i: int)
    requires
        0 <= i < s.len(),
    ensures
        forall|k: K| has_key(#[trigger] s.remove(i), k) ==> has_key(s, k),
        unique_keys(s) ==> unique_keys(s.remove(i)),
        forall|k: K| !has_key(s, k) ==> !has_key(s.remove(i), k),
{
    let t = s.remove(i);
    assert forall|k: K| has_key(t, k) implies has_key(s, k) by {
        let j = choose|j: int| 0 <= j < t.len() && t[j].0 == k;
        if j < i {
            assert(s[j].0 == k);
        } else {
            assert(s[j + 1].0 == k);
        }
    }
    if unique_keys(s) {
        assert forall|p: int, q: int| 0 <= p < q < t.len() implies (#[trigger] t[p]).0 != (
        #[trigger] t[q]).0 by {
            let sp: int = if p < i {
                p
            } else {
                p + 1
            };
            let sq: int = if q < i {
                q
            } else {
                q + 1
            };
            assert(t[p] == s[sp]);
            assert(t[q] == s[sq]);
        }
    }
}

pub proof fn lemma_push_key<K, V>(s: Seq<(K, V)>, k: K, v: V)
    requires
        unique_keys(s),
        !has_key(s, k),
    ensures
        unique_keys(s.push((k, v))),
        forall|k2: K| #[trigger] has_key(s.push((k, v)), k2) <==> (has_key(s, k2) || k2 == k),
{
    let t = s.push((k, v));
    assert forall|p: int, q: int| 0 <= p < q < t.len() implies (#[trigger] t[p]).0 != (
    #[trigger] t[q]).0 by {
        if q == s.len() {
            assert(t[p] == s[p]);
            assert(!has_key(s, k) ==> s[p].0 != k);
        } else {
            assert(t[p] == s[p]);
            assert(t[q] == s[q]);
        }
    }
    assert forall|k2: K| #[trigger] has_key(t, k2) <==> (has_key(s, k2) || k2 == k) by {
        if has_key(s, k2) {
            let i = key_idx(s, k2);
            lemma_key_idx(s, k2);
            assert(t[i].0 == k2);
        }
        if k2 == k {
            assert(t[s.len() as int].0 == k2);
        }
        if has_key(t, k2) {
            let i = choose|i: int| 0 <= i < t.len() && t[i].0 == k2;
            if i < s.len() {
                assert(s[i].0 == k2);
            }
        }
    }
}

pub proof fn lemma_update_key<K, V>(s: Seq<(K, V)>, i: int, v: V)
    requires
        unique_keys(s),
        0 <= i < s.len(),
    ensures
        unique_keys(s.update(i, (s[i].0, v))),
        forall|k2: K| has_key(#[trigger] s.update(i, (s[i].0, v)), k2) <==> has_key(s, k2),
{
    let t = s.update(i, (s[i].0, v));
    assert(forall|j: int| 0 <= j < s.len() ==> (#[trigger] t[j]).0 == s[j].0);
    assert forall|k2: K| has_key(t, k2) <==> has_key(s, k2) by {
        if has_key(t, k2) {
            let j = choose|j: int| 0 <= j < t.len() && t[j].0 == k2;
            assert(s[j].0 == k2);
        }
        if has_key(s, k2) {
            let j = choose|j: int| 0 <= j < s.len() && s[j].0 == k2;
            assert(t[j].0 == k2);
        }
    }
}

/// `v + 1`, stopping at the top of the type.
pub open spec fn sat_inc_u32(v: u32) -> u32 {
    if v == u32::MAX {
        u32::MAX
    } else {
        (v + 1) as u32
    }
}

/// `v + 1`, stopping at the top of the type.
pub open spec fn sat_inc_u64(v: u64) -> u64 {
    if v == u64::MAX {
        u64::MAX
    } else {
        (v + 1) as u64
    }
}

/// `a + b`, clamped into the range of `i64`.
pub open spec fn sat_add_i64(a: i64, b: i64) -> i64 {
    if a + b > i64::MAX {
        i64::MAX
    } else if a + b < i64::MIN {
        i64::MIN
    } else {
        (a + b) as i64
    }
}

/// A dirty marker: unchanged once set, else stamped with the current time.
pub open spec fn spec_set_dirty(d: Option<u64>, now: u64) -> Option<u64> {
    if d is None {
        Some(now)
    } else {
        d
    }
}

/// The first entry of lowest count among entries `i..RESEED_SAMPLE` of the
/// history (the running best is threaded through `best`).
pub open spec fn spec_reseed_from(h: Seq<(StoredIp, u32)>, i: int, best: LeastVisitor) -> LeastVisitor
    decreases RESEED_SAMPLE - i,
{
    if 0 <= i < RESEED_SAMPLE && i < h.len() {
        let cand = if h[i].1 < best.count {
            LeastVisitor { ip: h[i].0, count: h[i].1 }
        } else {
            best
        };
        spec_reseed_from(h, i + 1, cand)
    } else {
        best
    }
}

/// A fresh eviction candidate: the first minimum over a bounded sample of
/// leading history entries, or `None` on an empty history.
pub open spec fn spec_reseed(h: Seq<(StoredIp, u32)>) -> Option<LeastVisitor> {
    if h.len() == 0 {
        None
    } else {
        Some(spec_reseed_from(h, 1, LeastVisitor { ip: h[0].0, count: h[0].1 }))
    }
}

pub proof fn lemma_reseed_from_in(h: Seq<(StoredIp, u32)>, i: int, best: LeastVisitor)
    ensures
        spec_reseed_from(h, i, best) == best || has_key(h, spec_reseed_from(h, i, best).ip),
    decreases RESEED_SAMPLE - i,
{
    if 0 <= i < RESEED_SAMPLE && i < h.len() {
        let cand = if h[i].1 < best.count {
            LeastVisitor { ip: h[i].0, count: h[i].1 }
        } else {
            best
        };
        if h[i].1 < best.count {
            assert(has_key(h, h[i].0));
        }
        lemma_reseed_from_in(h, i + 1, cand);
    }
}

pub proof fn lemma_reseed_in(h: Seq<(StoredIp, u32)>)
    requires
        h.len() > 0,
    ensures
        spec_reseed(h) is Some,
        has_key(h, spec_reseed(h).unwrap().ip),
{
    let first = LeastVisitor { ip: h[0].0, count: h[0].1 };
    assert(has_key(h, h[0].0));
    lemma_reseed_from_in(h, 1, first);
}

/// The model of one visit: a repeat visit bumps that key's count; a first
/// visit evicts the cached (or resampled) least-visited entry when the map is
/// full, inserts the key with count 1, and bumps the global counter; the
/// least-visitor cache is then lowered or reseeded, and the store goes dirty.
pub open spec fn spec_add_visit(m: StoreModel, ip: StoredIp, now: u64) -> StoreModel {
    let step = spec_add_visit_main(m, ip);
    let h1 = step.0;
    let least1 = step.1;
    let visits1 = step.2;
    let user_visits = step.3;
    let least2 = match least1 {
        Some(lv) => if user_visits < lv.count {
            Some(LeastVisitor { ip, count: user_visits })
        } else {
            Some(lv)
        },
        None => spec_reseed(h1),
    };
    StoreModel {
        ratings: m.ratings,
        history: h1,
        least: least2,
        visits: visits1,
        dirty: spec_set_dirty(m.dirty, now),
    }
}

/// The history, interim least cache, visit counter, and the visited key's new
/// count, after the map update of one visit.
pub open spec fn spec_add_visit_main(m: StoreModel, ip: StoredIp) -> (
    Seq<(StoredIp, u32)>,
    Option<LeastVisitor>,
    u64,
    u32,
) {
    if has_key(m.history, ip) {
        let i = key_idx(m.history, ip);
        let c2 = sat_inc_u32(m.history[i].1);
        (m.history.update(i, (ip, c2)), m.least, m.visits, c2)
    } else if m.history.len() + 1 > VISIT_HISTORY_MAX_SIZE {
        let victim = match m.least {
            Some(lv) => lv,
            None => spec_reseed(m.history).unwrap(),
        };
        (remove_key(m.history, victim.ip).push((ip, 1)), None, sat_inc_u64(m.visits), 1u32)
    } else {
        (m.history.push((ip, 1)), m.least, sat_inc_u64(m.visits), 1u32)
    }
}

/// The model of accumulating a rating: the delta is added (with saturation)
/// to the stored value, a missing id starting from zero, and the store goes
/// dirty.
pub open spec fn spec_add_rating(m: StoreModel, id: u8, rating: i64, now: u64) -> StoreModel {
    let ratings2 = if has_key(m.ratings, id) {
        let i = key_idx(m.ratings, id);
        m.ratings.update(i, (id, sat_add_i64(m.ratings[i].1, rating)))
    } else {
        m.ratings.push((id, rating))
    };
    StoreModel {
        ratings: ratings2,
        history: m.history,
        least: m.least,
        visits: m.visits,
        dirty: spec_set_dirty(m.dirty, now),
    }
}

/// The accumulated rating of `id`: the stored value, or zero when absent.
pub open spec fn rating_total(m: StoreModel, id: u8) -> i64 {
    if has_key(m.ratings, id) {
        value_of(m.ratings, id)
    } else {
        0
    }
}

/// The flush trigger: the store has been dirty longer than the save interval.
pub open spec fn spec_flush_due(m: StoreModel, now: u64) -> bool {
    match m.dirty {
        None => false,
        Some(t) => (if now >= t {
            now - t
        } else {
            0
        }) > DATABASE_SAVE_INTERVAL_SECONDS,
    }
}

impl StoreModel {
    /// Well-formedness: unique keys in both maps, the history within its
    /// capacity, and a cached least visitor that is a real entry.
    pub open spec fn wf(self) -> bool {
        &&& unique_keys(self.ratings)
        &&& unique_keys(self.history)
        &&& self.history.len() <= VISIT_HISTORY_MAX_SIZE
        &&& match self.least {
            Some(lv) => has_key(self.history, lv.ip),
            None => true,
        }
    }

    /// The empty store.
    pub open spec fn empty() -> StoreModel {
        StoreModel {
            ratings: Seq::empty(),
            history: Seq::empty(),
            least: None,
            visits: 0,
            dirty: None,
        }
    }
}

/// One visit preserves well-formedness; in particular the history never
/// outgrows its capacity.
pub proof fn lemma_add_visit_wf(m: StoreModel, ip: StoredIp, now: u64)
    requires
        m.wf(),
    ensures
        spec_add_visit(m, ip, now).wf(),
        spec_add_visit(m, ip, now).history.len() <= VISIT_HISTORY_MAX_SIZE,
        spec_add_visit(m, ip, now).ratings == m.ratings,
{
    let step = spec_add_visit_main(m, ip);
    let h1 = step.0;
    if has_key(m.history, ip) {
        let i = key_idx(m.history, ip);
        lemma_key_idx(m.history, ip);
        lemma_update_key(m.history, i, sat_inc_u32(m.history[i].1));
        assert(h1 == m.history.update(i, (ip, sat_inc_u32(m.history[i].1))));
        assert(m.history[i].0 == ip);
    } else if m.history.len() + 1 > VISIT_HISTORY_MAX_SIZE {
        let victim = match m.least {
            Some(lv) => lv,
            None => spec_reseed(m.history).unwrap(),
        };
        if m.least is None {
            lemma_reseed_in(m.history);
        }
        assert(has_key(m.history, victim.ip));
        let vi = key_idx(m.history, victim.ip);
        lemma_key_idx(m.history, victim.ip);
        lemma_remove_keys(m.history, vi);
        let hr = m.history.remove(vi);
        assert(remove_key(m.history, victim.ip) == hr);
        lemma_push_key(hr, ip, 1u32);
        assert(h1 == hr.push((ip, 1u32)));
    } else {
        lemma_push_key(m.history, ip, 1u32);
        assert(h1 == m.history.push((ip, 1u32)));
    }
    // The final least cache is a real entry of the new history.
    let r = spec_add_visit(m, ip, now);
    match step.1 {
        Some(lv) => {
            // The interim cache came from the old history; its key survives.
            if r.least == Some(lv) {
                assert(has_key(h1, lv.ip)) by {
                    lemma_has_key_after_main(m, ip, lv.ip);
                }
            } else {
                assert(has_key(h1, ip)) by {
                    lemma_visited_key_present(m, ip);
                }
            }
        },
        None => {
            if h1.len() > 0 {
                lemma_reseed_in(h1);
            }
        },
    }
}

/// A key of the old history that is cached as least remains a key after the
/// main step of a visit (it is never the evicted one, since eviction clears
/// the cache).
proof fn lemma_has_key_after_main(m: StoreModel, ip: StoredIp, k: StoredIp)
    requires
        m.wf(),
        spec_add_visit_main(m, ip).1 == Some(LeastVisitor { ip: k, count: spec_add_visit_main(m, ip).1.unwrap().count })
            || has_key(m.history, k),
        spec_add_visit_main(m, ip).1 is Some,
        spec_add_visit_main(m, ip).1.unwrap().ip == k,
    ensures
        has_key(spec_add_visit_main(m, ip).0, k),
{
    let step = spec_add_visit_main(m, ip);
    let h1 = step.0;
    if has_key(m.history, ip) {
        let i = key_idx(m.history, ip);
        lemma_key_idx(m.history, ip);
        lemma_update_key(m.history, i, sat_inc_u32(m.history[i].1));
        // step.1 == m.least, so k is a key of the old history by wf.
        assert(has_key(m.history, k));
    } else if m.history.len() + 1 > VISIT_HISTORY_MAX_SIZE {
        // Eviction clears the cache: step.1 is None, contradiction.
        assert(false);
    } else {
        assert(has_key(m.history, k));
        lemma_push_key(m.history, ip, 1u32);
    }
}

/// The visited key is present after the main step.
proof fn lemma_visited_key_present(m: StoreModel, ip: StoredIp)
    requires
        m.wf(),
    ensures
        has_key(spec_add_visit_main(m, ip).0, ip),
{
    let step = spec_add_visit_main(m, ip);
    let h1 = step.0;
    if has_key(m.history, ip) {
        let i = key_idx(m.history, ip);
        lemma_key_idx(m.history, ip);
        assert(h1[i].0 == ip);
    } else if m.history.len() + 1 > VISIT_HISTORY_MAX_SIZE {
        let victim = match m.least {
            Some(lv) => lv,
            None => spec_reseed(m.history).unwrap(),
        };
        if m.least is None {
            lemma_reseed_in(m.history);
        }
        let hr = remove_key(m.history, victim.ip);
        assert(h1 == hr.push((ip, 1u32)));
        assert(h1[hr.len() as int].0 == ip);
    } else {
        assert(h1[m.history.len() as int].0 == ip);
    }
}

/// Accumulating a rating preserves well-formedness and touches nothing but
/// the ratings map and the dirty marker.
pub proof fn lemma_add_rating_wf(m: StoreModel, id: u8, rating: i64, now: u64)
    requires
        m.wf(),
    ensures
        spec_add_rating(m, id, rating, now).wf(),
        spec_add_rating(m, id, rating, now).history == m.history,
        spec_add_rating(m, id, rating, now).visits == m.visits,
        rating_total(spec_add_rating(m, id, rating, now), id) == sat_add_i64(
            rating_total(m, id),
            rating,
        ),
        forall|other: u8|
            other != id ==> #[trigger] rating_total(spec_add_rating(m, id, rating, now), other)
                == rating_total(m, other),
{
    let r = spec_add_rating(m, id, rating, now);
    if has_key(m.ratings, id) {
        let i = key_idx(m.ratings, id);
        lemma_key_idx(m.ratings, id);
        lemma_update_key(m.ratings, i, sat_add_i64(m.ratings[i].1, rating));
        lemma_key_idx_unique(r.ratings, id, i);
        assert(value_of(m.ratings, id) == m.ratings[i].1);
        assert forall|other: u8| other != id implies #[trigger] rating_total(r, other)
            == rating_total(m, other) by {
            if has_key(m.ratings, other) {
                let j = key_idx(m.ratings, other);
                lemma_key_idx(m.ratings, other);
                lemma_key_idx_unique(r.ratings, other, j);
                lemma_key_idx_unique(m.ratings, other, j);
            } else {
                assert(!has_key(r.ratings, other));
            }
        }
    } else {
        lemma_push_key(m.ratings, id, rating);
        lemma_key_idx_unique(r.ratings, id, m.ratings.len() as int);
        assert(sat_add_i64(0, rating) == rating);
        assert forall|other: u8| other != id implies #[trigger] rating_total(r, other)
            == rating_total(m, other) by {
            if has_key(m.ratings, other) {
                let j = key_idx(m.ratings, other);
                lemma_key_idx(m.ratings, other);
                lemma_key_idx_unique(r.ratings, other, j);
                lemma_key_idx_unique(m.ratings, other, j);
            }
        }
    }
}


/// The store after a whole sequence of visits, all stamped at `now`.
pub open spec fn spec_apply_visits(m: StoreModel, ips: Seq<StoredIp>, now: u64) -> StoreModel
    decreases ips.len(),
{
    if ips.len() == 0 {
        m
    } else {
        spec_add_visit(spec_apply_visits(m, ips.drop_last(), now), ips.last(), now)
    }
}

/// For any sequence of visit insertions into a well-formed store, the
/// visit-history size never exceeds its configured capacity after any of the
/// insertions.
pub proof fn law_visit_history_bounded(m: StoreModel, ips: Seq<StoredIp>, now: u64)
    requires
        m.wf(),
    ensures
        spec_apply_visits(m, ips, now).wf(),
        spec_apply_visits(m, ips, now).history.len() <= VISIT_HISTORY_MAX_SIZE,
        forall|k: int|
            0 <= k <= ips.len() ==> #[trigger] spec_apply_visits(
                m,
                ips.subrange(0, k),
                now,
            ).history.len() <= VISIT_HISTORY_MAX_SIZE,
    decreases ips.len(),
{
    if ips.len() > 0 {
        law_visit_history_bounded(m, ips.drop_last(), now);
        lemma_add_visit_wf(spec_apply_visits(m, ips.drop_last(), now), ips.last(), now);
        assert forall|k: int|
            0 <= k <= ips.len() implies #[trigger] spec_apply_visits(
            m,
            ips.subrange(0, k),
            now,
        ).history.len() <= VISIT_HISTORY_MAX_SIZE by {
            if k < ips.len() {
                assert(ips.drop_last().subrange(0, k) =~= ips.subrange(0, k));
            } else {
                assert(ips.subrange(0, k) =~= ips);
            }
        }
    } else {
        assert forall|k: int|
            0 <= k <= ips.len() implies #[trigger] spec_apply_visits(
            m,
            ips.subrange(0, k),
            now,
        ).history.len() <= VISIT_HISTORY_MAX_SIZE by {
            assert(ips.subrange(0, k) =~= ips);
        }
    }
}

/// A first visit from a fresh key counts exactly once, and leaves every other
/// absent key still absent.
proof fn lemma_fresh_visit(m: StoreModel, k: StoredIp, now: u64)
    requires
        m.wf(),
        !has_key(m.history, k),
        m.visits < u64::MAX,
    ensures
        spec_add_visit(m, k, now).visits == m.visits + 1,
        forall|k2: StoredIp|
            k2 != k && !has_key(m.history, k2) ==> !has_key(
                #[trigger] spec_add_visit(m, k, now).history,
                k2,
            ),
{
    let step = spec_add_visit_main(m, k);
    if m.history.len() + 1 > VISIT_HISTORY_MAX_SIZE {
        let victim = match m.least {
            Some(lv) => lv,
            None => spec_reseed(m.history).unwrap(),
        };
        if m.least is None {
            lemma_reseed_in(m.history);
        }
        let vi = key_idx(m.history, victim.ip);
        lemma_key_idx(m.history, victim.ip);
        lemma_remove_keys(m.history, vi);
        lemma_push_key(m.history.remove(vi), k, 1u32);
    } else {
        lemma_push_key(m.history, k, 1u32);
    }
}

/// Recording first visits for two distinct fresh addresses, in either order,
/// raises the distinct-visit counter by exactly two: no increment is lost to
/// the ordering. (At a counter already within two of `u64::MAX` the counter
/// saturates instead.)
pub proof fn law_distinct_visits_count(
    m: StoreModel,
    a: StoredIp,
    b: StoredIp,
    now1: u64,
    now2: u64,
)
    requires
        m.wf(),
        a != b,
        !has_key(m.history, a),
        !has_key(m.history, b),
        m.visits + 2 <= u64::MAX,
    ensures
        spec_add_visit(spec_add_visit(m, a, now1), b, now2).visits == m.visits + 2,
        spec_add_visit(spec_add_visit(m, b, now1), a, now2).visits == m.visits + 2,
{
    lemma_fresh_visit(m, a, now1);
    lemma_add_visit_wf(m, a, now1);
    lemma_fresh_visit(spec_add_visit(m, a, now1), b, now2);
    lemma_fresh_visit(m, b, now1);
    lemma_add_visit_wf(m, b, now1);
    lemma_fresh_visit(spec_add_visit(m, b, now1), a, now2);
}

/// Sets element `i` of a vector.
fn set_entry<T>(v: &mut Vec<T>, i: usize, x: T)
    requires
        i < old(v)@.len(),
    ensures
        final(v)@ == old(v)@.update(i as int, x),
{
    let e = &mut v[i];
    *e = x;
}

/// The index of `id` in the ratings list, scanning from the front.
pub(crate) fn find_rating_index(v: &Vec<(u8, i64)>, id: u8) -> (r: Option<usize>)
    ensures
        match r {
            Some(i) => i < v@.len() && v@[i as int].0 == id,
            None => !has_key(v@, id),
        },
{
    let mut i: usize = 0;
    while i < v.len()
        invariant
            i <= v@.len(),
            forall|j: int| 0 <= j < i ==> (#[trigger] v@[j]).0 != id,
        decreases v@.len() - i,
    {
        if v[i].0 == id {
            return Some(i);
        }
        i = i + 1;
    }
    None
}

/// The index of `ip` in the visit history, scanning from the front.
pub(crate) fn find_history_index(v: &Vec<(StoredIp, u32)>, ip: StoredIp) -> (r: Option<usize>)
    ensures
        match r {
            Some(i) => i < v@.len() && v@[i as int].0 == ip,
            None => !has_key(v@, ip),
        },
{
    let mut i: usize = 0;
    while i < v.len()
        invariant
            i <= v@.len(),
            forall|j: int| 0 <= j < i ==> (#[trigger] v@[j]).0 != ip,
        decreases v@.len() - i,
    {
        if v[i].0 == ip {
            return Some(i);
        }
        i = i + 1;
    }
    None
}

impl Default for Database {
    /// The empty store.
    fn default() -> (r: Database)
        ensures
            r@ == StoreModel::empty(),
            r@.wf(),
    {
        Database {
            review_ratings: Vec::new(),
            visit_history: Vec::new(),
            least_visitor: None,
            visits: 0,
            dirty_start: None,
        }
    }
}

impl Database {
    /// Well-formedness of the in-memory store.
    pub open spec fn wf(&self) -> bool {
        self@.wf()
    }

    /// A copy of every stored (id, rating) pair, in insertion order.
    pub fn get_review_ratings(&self) -> (r: Vec<(u8, i64)>)
        ensures
            r@ == self@.ratings,
    {
        let mut r: Vec<(u8, i64)> = Vec::new();
        let mut i: usize = 0;
        while i < self.review_ratings.len()
            invariant
                i <= self.review_ratings@.len(),
                r@ == self.review_ratings@.subrange(0, i as int),
            decreases self.review_ratings@.len() - i,
        {
            r.push(self.review_ratings[i]);
            proof {
                assert(r@ =~= self.review_ratings@.subrange(0, i + 1));
            }
            i = i + 1;
        }
        proof {
            assert(self.review_ratings@.subrange(0, self.review_ratings@.len() as int)
                =~= self.review_ratings@);
        }
        r
    }

    /// The accumulated rating of `id`, zero when never rated.
    pub fn get_review_rating(&self, id: u8) -> (r: i64)
        requires
            self.wf(),
        ensures
            r == rating_total(self@, id),
    {
        match find_rating_index(&self.review_ratings, id) {
            Some(i) => {
                proof {
                    lemma_key_idx_unique(self@.ratings, id, i as int);
                }
                self.review_ratings[i].1
            },
            None => 0,
        }
    }

    /// Adds `rating` (saturating) to the accumulator of `id` and marks the
    /// store dirty as of `now`.
    pub fn add_review_rating(&mut self, id: u8, rating: i64, now: u64)
        requires
            old(self).wf(),
        ensures
            final(self)@ == spec_add_rating(old(self)@, id, rating, now),
            final(self).wf(),
            rating_total(final(self)@, id) == sat_add_i64(rating_total(old(self)@, id), rating),
    {
        let ghost m0 = self@;
        match find_rating_index(&self.review_ratings, id) {
            Some(i) => {
                proof {
                    lemma_key_idx_unique(m0.ratings, id, i as int);
                }
                let v = self.review_ratings[i].1;
                let sum: i64 = if rating >= 0 {
                    if v > i64::MAX - rating {
                        i64::MAX
                    } else {
                        v + rating
                    }
                } else {
                    if v < i64::MIN - rating {
                        i64::MIN
                    } else {
                        v + rating
                    }
                };
                assert(sum == sat_add_i64(v, rating));
                set_entry(&mut self.review_ratings, i, (id, sum));
            },
            None => {
                self.review_ratings.push((id, rating));
            },
        }
        if self.dirty_start.is_none() {
            self.dirty_start = Some(now);
        }
        proof {
            lemma_add_rating_wf(m0, id, rating, now);
        }
    }

    /// The global distinct-visit counter.
    pub fn get_visits(&self) -> (r: u64)
        ensures
            r == self@.visits,
    {
        self.visits
    }

    /// Reseeds the least-visitor cache from a bounded sample of leading
    /// history entries.
    fn reseed_least(&mut self)
        ensures
            final(self)@ == (StoreModel { least: spec_reseed(old(self)@.history), ..old(self)@ }),
    {
        if self.visit_history.len() == 0 {
            self.least_visitor = None;
            return;
        }
        let first = self.visit_history[0];
        let mut best = LeastVisitor { ip: first.0, count: first.1 };
        let mut i: usize = 1;
        let ghost h = self.visit_history@;
        while i < RESEED_SAMPLE && i < self.visit_history.len()
            invariant
                1 <= i,
                h == self.visit_history@,
                h.len() > 0,
                spec_reseed_from(h, 1, LeastVisitor { ip: h[0].0, count: h[0].1 })
                    == spec_reseed_from(h, i as int, best),
            decreases RESEED_SAMPLE - i,
        {
            let e = self.visit_history[i];
            if e.1 < best.count {
                best = LeastVisitor { ip: e.0, count: e.1 };
            }
            i = i + 1;
        }
        self.least_visitor = Some(best);
    }

    /// Records a visit from `ip` at time `now`: a repeat visit bumps that
    /// key's count; a first visit inserts the key (evicting the approximate
    /// least-visited entry when the map is full) and bumps the global
    /// counter. The history never exceeds its capacity.
    pub fn add_visit(&mut self, ip: StoredIp, now: u64)
        requires
            old(self).wf(),
        ensures
            final(self)@ == spec_add_visit(old(self)@, ip, now),
            final(self).wf(),
            final(self)@.history.len() <= VISIT_HISTORY_MAX_SIZE,
    {
        let ghost m0 = self@;
        let user_visits: u32;
        match find_history_index(&self.visit_history, ip) {
            Some(i) => {
                proof {
                    lemma_key_idx_unique(m0.history, ip, i as int);
                }
                let c = self.visit_history[i].1;
                let c2: u32 = if c == u32::MAX {
                    u32::MAX
                } else {
                    c + 1
                };
                set_entry(&mut self.visit_history, i, (ip, c2));
                user_visits = c2;
            },
            None => {
                if self.visit_history.len() + 1 > VISIT_HISTORY_MAX_SIZE {
                    if self.least_visitor.is_none() {
                        self.reseed_least();
                        proof {
                            lemma_reseed_in(m0.history);
                        }
                    }
                    let victim = self.least_visitor.unwrap();
                    proof {
                        if m0.least is Some {
                            assert(has_key(m0.history, victim.ip));
                        } else {
                            lemma_reseed_in(m0.history);
                        }
                    }
                    match find_history_index(&self.visit_history, victim.ip) {
                        Some(vi) => {
                            proof {
                                lemma_key_idx_unique(m0.history, victim.ip, vi as int);
                            }
                            self.visit_history.remove(vi);
                        },
                        None => {
                            proof {
                                assert(false);
                            }
                        },
                    }
                    self.least_visitor = None;
                }
                self.visit_history.push((ip, 1));
                self.visits = if self.visits == u64::MAX {
                    u64::MAX
                } else {
                    self.visits + 1
                };
                user_visits = 1;
            },
        }
        proof {
            let step = spec_add_visit_main(m0, ip);
            assert(self.visit_history@ == step.0);
            assert(self.least_visitor == step.1);
            assert(self.visits == step.2);
            assert(user_visits == step.3);
        }
        match self.least_visitor {
            Some(lv) => {
                if user_visits < lv.count {
                    self.least_visitor = Some(LeastVisitor { ip, count: user_visits });
                }
            },
            None => {
                self.reseed_least();
            },
        }
        if self.dirty_start.is_none() {
            self.dirty_start = Some(now);
        }
        proof {
            lemma_add_visit_wf(m0, ip, now);
        }
    }

    /// Stamps the dirty marker with `now` unless it is already set.
    pub fn set_dirty(&mut self, now: u64)
        ensures
            final(self)@ == (StoreModel { dirty: spec_set_dirty(old(self)@.dirty, now), ..old(self)@ }),
    {
        if self.dirty_start.is_none() {
            self.dirty_start = Some(now);
        }
    }

    /// Whether the store has been dirty for longer than the save interval.
    pub fn flush_due(&self, now: u64) -> (r: bool)
        ensures
            r == spec_flush_due(self@, now),
    {
        match self.dirty_start {
            None => false,
            Some(t) => {
                let elapsed: u64 = if now >= t {
                    now - t
                } else {
                    0
                };
                elapsed > DATABASE_SAVE_INTERVAL_SECONDS
            },
        }
    }

    /// Clears the dirty marker after a successful flush.
    pub fn mark_clean(&mut self)
        ensures
            final(self)@ == (StoreModel { dirty: None, ..old(self)@ }),
    {
        self.dirty_start = None;
    }
}

} // verus!
