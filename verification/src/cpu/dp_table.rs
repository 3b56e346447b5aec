//! Distinguished points of tame and wild kangaroos, and the key that a meeting
//! of the two gives away.
//!
//! ```text
//! tame: (start + tame_dist) * G = P
//! wild: (key   + wild_dist) * G = P
//! =>    key = start + tame_dist - wild_dist   (modulo 2^256)
//! ```

use crate::bytes;
use crate::cpu::bucket_map;
use crate::curve;
use crate::gpu::{GpuDistinguishedPoint, Sighting};
use dashmap::DashMap;
use vstd::arithmetic::div_mod::*;
use vstd::arithmetic::power2::*;
use vstd::prelude::*;

verus! {

/// A distinguished point at rest.
#[derive(Clone, Copy)]
pub struct StoredDP {
    /// Affine X coordinate, big-endian.
    pub affine_x_be: [u8; 32],
    /// Distance walked, little-endian.
    pub dist_le: [u8; 32],
    /// 0 for a tame kangaroo.
    pub ktype: u32,
}

/// The distinguished points seen so far.
///
/// Points are grouped in buckets by the top eight bytes of their X coordinate.
pub struct DPTable {
    table: DashMap<u64, Vec<StoredDP>>,
    start_le: [u8; 32],
}

/// How a kangaroo came to a point: the distance it walked and its kind.
pub struct Trail {
    pub dist: nat,
    pub ktype: u32,
}

/// The key that a tame and a wild kangaroo at one point give away.
pub open spec fn recovered_key(start: nat, tame_dist: nat, wild_dist: nat) -> nat {
    ((start + tame_dist - wild_dist) % (pow2(256) as int)) as nat
}

/// Two kangaroos are of one kind, both tame or both wild.
pub open spec fn same_kind(a: u32, b: u32) -> bool {
    (a == 0) == (b == 0)
}

/// The point was reached before, by a kangaroo of the other kind.
pub open spec fn collides(seen: Map<nat, Trail>, dp: Sighting) -> bool {
    seen.contains_key(dp.x) && !same_kind(seen[dp.x].ktype, dp.ktype)
}

/// The key that a collision gives away: of the stored and the new point, the one
/// of kind 0 is the tame one.
pub open spec fn collision_key(start: nat, stored: Trail, dp: Sighting) -> nat {
    if stored.ktype == 0 {
        recovered_key(start, stored.dist, dp.dist)
    } else {
        recovered_key(start, dp.dist, stored.dist)
    }
}

/// The points seen once `dp` was reported: the first visit to a point counts.
pub open spec fn after_sighting(seen: Map<nat, Trail>, dp: Sighting) -> Map<nat, Trail> {
    if seen.contains_key(dp.x) {
        seen
    } else {
        seen.insert(dp.x, Trail { dist: dp.dist, ktype: dp.ktype })
    }
}

/// What is reported for `dp`: on a collision the key, without leading zero
/// bytes, and otherwise nothing.
pub open spec fn sighting_report(
    seen: Map<nat, Trail>,
    start: nat,
    dp: Sighting,
    report: Option<Seq<u8>>,
) -> bool {
    match report {
        Some(key) => collides(seen, dp) && bytes::minimal_be(
            key,
            collision_key(start, seen[dp.x], dp),
        ),
        None => !collides(seen, dp),
    }
}

// ---------------------------------------------------------------------------
// Buckets
// ---------------------------------------------------------------------------

/// The X coordinate of a stored point.
spec fn x_of(dp: StoredDP) -> nat {
    bytes::be_value(dp.affine_x_be@)
}

/// How the kangaroo of a stored point came to it.
spec fn trail_of(dp: StoredDP) -> Trail {
    Trail { dist: bytes::le_value(dp.dist_le@), ktype: dp.ktype }
}

/// The trail to `x` that a bucket holds.
spec fn trail_in(bucket: Seq<StoredDP>, x: nat) -> Option<Trail>
    decreases bucket.len(),
{
    if bucket.len() == 0 {
        None
    } else if x_of(bucket.last()) == x {
        Some(trail_of(bucket.last()))
    } else {
        trail_in(bucket.drop_last(), x)
    }
}

/// The trail to `x` that some buckets hold.
spec fn trail_to(m: Map<u64, Seq<StoredDP>>, x: nat) -> Option<Trail> {
    let key = (x / pow2(192)) as u64;
    if m.contains_key(key) {
        trail_in(m[key], x)
    } else {
        None
    }
}

/// All points that some buckets hold, with the trails to them.
spec fn trails(m: Map<u64, Seq<StoredDP>>) -> Map<nat, Trail> {
    Map::new(|x: nat| trail_to(m, x) is Some, |x: nat| trail_to(m, x)->0)
}

/// A bucket is not empty, holds points of its own key only, and none twice.
spec fn bucket_wf(key: u64, bucket: Seq<StoredDP>) -> bool {
    &&& bucket.len() > 0
    &&& forall|i: int| 0 <= i < bucket.len() ==> x_of(#[trigger] bucket[i]) / pow2(192) == key
    &&& forall|i: int, j: int|
        0 <= i < j < bucket.len() ==> x_of(#[trigger] bucket[i]) != x_of(#[trigger] bucket[j])
}

/// Every bucket is in order.
spec fn buckets_wf(m: Map<u64, Seq<StoredDP>>) -> bool {
    &&& m.dom().finite()
    &&& forall|key: u64| #[trigger] m.contains_key(key) ==> bucket_wf(key, m[key])
}

/// A bucket without the point `x` holds no trail to it.
proof fn lemma_absent(bucket: Seq<StoredDP>, x: nat)
    requires
        forall|i: int| 0 <= i < bucket.len() ==> x_of(#[trigger] bucket[i]) != x,
    ensures
        trail_in(bucket, x) is None,
    decreases bucket.len(),
{
    if bucket.len() > 0 {
        assert(x_of(bucket[bucket.len() - 1]) != x);
        assert forall|i: int| 0 <= i < bucket.drop_last().len() implies x_of(
            #[trigger] bucket.drop_last()[i],
        ) != x by {
            assert(x_of(bucket[i]) != x);
        }
        lemma_absent(bucket.drop_last(), x);
    }
}

/// A point of a bucket in order has the trail that is stored with it.
proof fn lemma_present(key: u64, bucket: Seq<StoredDP>, i: int)
    requires
        bucket_wf(key, bucket),
        0 <= i < bucket.len(),
    ensures
        trail_in(bucket, x_of(bucket[i])) == Some(trail_of(bucket[i])),
    decreases bucket.len(),
{
    let n = bucket.len() - 1;
    if i < n {
        let rest = bucket.drop_last();
        assert(x_of(bucket[i]) != x_of(bucket[n]));
        assert(rest.len() > 0);
        assert forall|a: int| 0 <= a < rest.len() implies x_of(#[trigger] rest[a]) / pow2(192)
            == key by {
            assert(rest[a] == bucket[a]);
        }
        assert forall|a: int, b: int| 0 <= a < b < rest.len() implies x_of(#[trigger] rest[a])
            != x_of(#[trigger] rest[b]) by {
            assert(rest[a] == bucket[a] && rest[b] == bucket[b]);
        }
        lemma_present(key, rest, i);
        assert(rest[i] == bucket[i]);
    }
}

/// Appending a point that a bucket lacks adds its trail.
proof fn lemma_push(m: Map<u64, Seq<StoredDP>>, key: u64, dp: StoredDP)
    requires
        buckets_wf(m),
        m.contains_key(key),
        x_of(dp) / pow2(192) == key,
        forall|i: int| 0 <= i < m[key].len() ==> x_of(#[trigger] m[key][i]) != x_of(dp),
    ensures
        buckets_wf(m.insert(key, m[key].push(dp))),
        trails(m.insert(key, m[key].push(dp))) == trails(m).insert(x_of(dp), trail_of(dp)),
{
    let b = m[key].push(dp);
    let m2 = m.insert(key, b);
    assert(bucket_wf(key, m[key]));
    assert(b.drop_last() =~= m[key]);
    assert forall|x: nat| trail_to(m2, x) == (if x == x_of(dp) {
        Some(trail_of(dp))
    } else {
        trail_to(m, x)
    }) by {}
    assert(trails(m2) =~= trails(m).insert(x_of(dp), trail_of(dp)));
    assert forall|k: u64| #[trigger] m2.contains_key(k) implies bucket_wf(k, m2[k]) by {
        if k != key {
            assert(m.contains_key(k));
        } else {
            assert forall|i: int, j: int| 0 <= i < j < b.len() implies x_of(#[trigger] b[i])
                != x_of(#[trigger] b[j]) by {
                assert(b[i] == m[key][i]);
                if j < m[key].len() {
                    assert(b[j] == m[key][j]);
                }
            }
            assert forall|i: int| 0 <= i < b.len() implies x_of(#[trigger] b[i]) / pow2(192)
                == key by {
                if i < m[key].len() {
                    assert(b[i] == m[key][i]);
                }
            }
        }
    }
}

/// A new bucket with one point adds its trail.
proof fn lemma_open_bucket(m: Map<u64, Seq<StoredDP>>, key: u64, dp: StoredDP)
    requires
        buckets_wf(m),
        !m.contains_key(key),
        x_of(dp) / pow2(192) == key,
    ensures
        buckets_wf(m.insert(key, seq![dp])),
        trails(m.insert(key, seq![dp])) == trails(m).insert(x_of(dp), trail_of(dp)),
{
    let b = seq![dp];
    let m2 = m.insert(key, b);
    assert(b.drop_last() =~= Seq::<StoredDP>::empty());
    assert(b.last() == dp);
    assert forall|x: nat| trail_to(m2, x) == (if x == x_of(dp) {
        Some(trail_of(dp))
    } else {
        trail_to(m, x)
    }) by {
        if (x / pow2(192)) as u64 == key {
            assert(trail_in(b.drop_last(), x) is None);
        }
    }
    assert(trails(m2) =~= trails(m).insert(x_of(dp), trail_of(dp)));
    assert forall|k: u64| #[trigger] m2.contains_key(k) implies bucket_wf(k, m2[k]) by {
        if k != key {
            assert(m.contains_key(k));
        }
    }
}

/// The points of a bucket.
spec fn points_of(bucket: Seq<StoredDP>) -> Set<nat> {
    bucket.map_values(|dp: StoredDP| x_of(dp)).to_set()
}

/// The points in the buckets of some keys.
spec fn points_under(m: Map<u64, Seq<StoredDP>>, keys: Seq<u64>) -> Set<nat> {
    Set::new(|x: nat| trail_to(m, x) is Some && keys.contains((x / pow2(192)) as u64))
}

/// The points of a bucket are those that it holds a trail to, and there are as
/// many as entries.
proof fn lemma_points_of(key: u64, bucket: Seq<StoredDP>)
    requires
        bucket_wf(key, bucket),
    ensures
        points_of(bucket).finite(),
        points_of(bucket).len() == bucket.len(),
        forall|x: nat| #[trigger]
            points_of(bucket).contains(x) <==> trail_in(bucket, x) is Some && x / pow2(192) == key,
        forall|x: nat| #[trigger] trail_in(bucket, x) is Some ==> x / pow2(192) == key,
{
    let xs = bucket.map_values(|dp: StoredDP| x_of(dp));
    assert(xs.no_duplicates()) by {
        assert forall|i: int, j: int|
            0 <= i < xs.len() && 0 <= j < xs.len() && i != j implies xs[i] != xs[j] by {
            if i < j {
                assert(x_of(bucket[i]) != x_of(bucket[j]));
            } else {
                assert(x_of(bucket[j]) != x_of(bucket[i]));
            }
        }
    }
    xs.unique_seq_to_set();
    assert forall|x: nat| #[trigger] trail_in(bucket, x) is Some implies points_of(bucket).contains(
        x,
    ) && x / pow2(192) == key by {
        if forall|i: int| 0 <= i < bucket.len() ==> x_of(#[trigger] bucket[i]) != x {
            lemma_absent(bucket, x);
        }
        let i = choose|i: int| 0 <= i < bucket.len() && x_of(#[trigger] bucket[i]) == x;
        assert(xs[i] == x);
    }
    assert forall|x: nat| #[trigger] points_of(bucket).contains(x) implies trail_in(bucket, x)
        is Some by {
        let i = choose|i: int| 0 <= i < xs.len() && xs[i] == x;
        lemma_present(key, bucket, i);
    }
}

/// One more key adds the points of its bucket, all of them new.
proof fn lemma_points_under_push(m: Map<u64, Seq<StoredDP>>, keys: Seq<u64>, key: u64)
    requires
        buckets_wf(m),
        m.contains_key(key),
        !keys.contains(key),
    ensures
        points_under(m, keys.push(key)) == points_under(m, keys) + points_of(m[key]),
        points_under(m, keys).disjoint(points_of(m[key])),
{
    lemma_points_of(key, m[key]);
    let more = keys.push(key);
    assert forall|k: u64| more.contains(k) == (keys.contains(k) || k == key) by {
        if keys.contains(k) {
            let i = choose|i: int| 0 <= i < keys.len() && keys[i] == k;
            assert(more[i] == k);
        }
        if k == key {
            assert(more[keys.len() as int] == k);
        }
    }
    assert(points_under(m, more) =~= points_under(m, keys) + points_of(m[key]));
}

/// All keys together cover all points.
proof fn lemma_points_under_all(m: Map<u64, Seq<StoredDP>>, keys: Seq<u64>)
    requires
        keys.to_set() == m.dom(),
    ensures
        points_under(m, keys) == trails(m).dom(),
{
    assert forall|x: nat| trail_to(m, x) is Some implies #[trigger] keys.contains(
        (x / pow2(192)) as u64,
    ) by {
        assert(keys.to_set().contains((x / pow2(192)) as u64));
    }
    assert(points_under(m, keys) =~= trails(m).dom());
}

/// The points of the first keys are finitely many, and no more than there are.
proof fn lemma_points_under_bound(m: Map<u64, Seq<StoredDP>>, keys: Seq<u64>, n: int)
    requires
        buckets_wf(m),
        keys.no_duplicates(),
        keys.to_set() == m.dom(),
        0 <= n <= keys.len(),
    ensures
        points_under(m, keys.take(n)).finite(),
        trails(m).dom().finite(),
        points_under(m, keys.take(n)).len() <= trails(m).dom().len(),
{
    lemma_points_under_finite(m, keys, n);
    lemma_points_under_finite(m, keys, keys.len() as int);
    assert(keys.take(keys.len() as int) =~= keys);
    lemma_points_under_all(m, keys);
    assert(points_under(m, keys.take(n)).subset_of(trails(m).dom()));
    vstd::set_lib::lemma_len_subset(points_under(m, keys.take(n)), trails(m).dom());
}

/// The points of the first keys are finitely many.
proof fn lemma_points_under_finite(m: Map<u64, Seq<StoredDP>>, keys: Seq<u64>, n: int)
    requires
        buckets_wf(m),
        keys.no_duplicates(),
        keys.to_set() == m.dom(),
        0 <= n <= keys.len(),
    ensures
        points_under(m, keys.take(n)).finite(),
    decreases n,
{
    if n == 0 {
        assert(points_under(m, keys.take(0)) =~= Set::<nat>::empty());
    } else {
        lemma_points_under_finite(m, keys, n - 1);
        lemma_next_key(m, keys, n - 1);
        lemma_points_under_push(m, keys.take(n - 1), keys[n - 1]);
        lemma_points_of(keys[n - 1], m[keys[n - 1]]);
    }
}

/// The key after the first `n` is one of the table and not among them.
proof fn lemma_next_key(m: Map<u64, Seq<StoredDP>>, keys: Seq<u64>, n: int)
    requires
        keys.no_duplicates(),
        keys.to_set() == m.dom(),
        0 <= n < keys.len(),
    ensures
        m.contains_key(keys[n]),
        !keys.take(n).contains(keys[n]),
        keys.take(n + 1) == keys.take(n).push(keys[n]),
{
    assert(keys.to_set().contains(keys[n]));
    assert(keys.take(n + 1) =~= keys.take(n).push(keys[n]));
    if keys.take(n).contains(keys[n]) {
        let i = choose|i: int| 0 <= i < n && keys.take(n)[i] == keys[n];
        assert(keys[i] == keys[n]);
    }
}

/// The points of one more entry of a bucket.
proof fn lemma_take_points(key: u64, bucket: Seq<StoredDP>, j: int)
    requires
        bucket_wf(key, bucket),
        0 <= j < bucket.len(),
    ensures
        points_of(bucket.take(j + 1)) == points_of(bucket.take(j)).insert(x_of(bucket[j])),
        !points_of(bucket.take(j)).contains(x_of(bucket[j])),
        points_of(bucket.take(j + 1)).subset_of(points_of(bucket)),
{
    let f = |dp: StoredDP| x_of(dp);
    let (a, b, c) = (
        bucket.take(j).map_values(f),
        bucket.take(j + 1).map_values(f),
        bucket.map_values(f),
    );
    assert(b =~= a.push(x_of(bucket[j])));
    assert forall|x: nat| b.contains(x) == (a.contains(x) || x == x_of(bucket[j])) by {
        if a.contains(x) {
            let i = choose|i: int| 0 <= i < a.len() && a[i] == x;
            assert(b[i] == x);
        }
        if x == x_of(bucket[j]) {
            assert(b[j] == x);
        }
    }
    assert(b.to_set() =~= a.to_set().insert(x_of(bucket[j])));
    if a.contains(x_of(bucket[j])) {
        let i = choose|i: int| 0 <= i < a.len() && a[i] == x_of(bucket[j]);
        assert(x_of(bucket[i]) != x_of(bucket[j]));
    }
    assert forall|x: nat| b.to_set().contains(x) implies c.to_set().contains(x) by {
        let i = choose|i: int| 0 <= i < b.len() && b[i] == x;
        assert(c[i] == x);
    }
}

/// The first point of a bucket is one of the table.
proof fn lemma_bucket_has_point(m: Map<u64, Seq<StoredDP>>, k: u64)
    requires
        buckets_wf(m),
        m.contains_key(k),
    ensures
        x_of(m[k][0]) / pow2(192) == k,
        trails(m).contains_key(x_of(m[k][0])),
{
    assert(bucket_wf(k, m[k]));
    lemma_present(k, m[k], 0);
}

/// There are as many buckets as values of the top eight bytes.
proof fn lemma_bucket_count(m: Map<u64, Seq<StoredDP>>)
    requires
        buckets_wf(m),
    ensures
        m.dom().len() == trails(m).dom().map(|x: nat| x / pow2(192)).len(),
{
    let top = |x: nat| x / pow2(192);
    let wide = |k: u64| k as nat;
    let tops = trails(m).dom().map(top);
    let keys = m.dom().map(wide);
    assert forall|v: nat| tops.contains(v) == keys.contains(v) by {
        if tops.contains(v) {
            let x = choose|x: nat| trails(m).dom().contains(x) && top(x) == v;
            let k = (x / pow2(192)) as u64;
            assert(m.contains_key(k));
            lemma_points_of(k, m[k]);
            assert(trail_in(m[k], x) is Some);
            assert(wide(k) == v);
        }
        if keys.contains(v) {
            let k = choose|k: u64| m.dom().contains(k) && wide(k) == v;
            assert(m.contains_key(k));
            lemma_bucket_has_point(m, k);
            assert(top(x_of(m[k][0])) == v);
        }
    }
    assert(tops =~= keys);
    assert(vstd::relations::injective(wide));
    vstd::set_lib::lemma_map_size(m.dom(), keys, wide);
}

impl DPTable {
    /// The points seen so far, by X coordinate.
    pub closed spec fn seen(&self) -> Map<nat, Trail> {
        trails(bucket_map::buckets(self.table))
    }

    /// Where the search begins.
    pub closed spec fn start(&self) -> nat {
        bytes::le_value(self.start_le@)
    }

    /// The buckets are in order.
    pub closed spec fn wf(&self) -> bool {
        buckets_wf(bucket_map::buckets(self.table))
    }

    /// A table with nothing in it, for a search that begins at `start`
    /// (little-endian).
    pub fn new(start: [u8; 32]) -> (t: Self)
        ensures
            t.wf(),
            t.seen() == Map::<nat, Trail>::empty(),
            t.start() == bytes::le_value(start@),
    {
        let t = DPTable { table: bucket_map::new_map(), start_le: start };
        assert(t.seen() =~= Map::<nat, Trail>::empty());
        t
    }

    /// Files a distinguished point and, if a kangaroo of the other kind was at
    /// that point before, returns the private key: big-endian, without leading
    /// zero bytes.
    pub fn insert_and_check(&mut self, dp: GpuDistinguishedPoint) -> (r: Option<Vec<u8>>)
        requires
            old(self).wf(),
        ensures
            final(self).wf(),
            final(self).start() == old(self).start(),
            final(self).seen() == after_sighting(old(self).seen(), dp@),
            sighting_report(
                old(self).seen(),
                old(self).start(),
                dp@,
                match r {
                    Some(key) => Some(key@),
                    None => None,
                },
            ),
            ({
                let x = bytes::limbs_value(dp.x@);
                let dist = bytes::limbs_value(dp.dist@);
                let seen = old(self).seen();
                &&& final(self).seen().contains_key(x)
                &&& r is Some <==> seen.contains_key(x) && (seen[x].ktype == 0) != (dp.ktype == 0)
                &&& r matches Some(key) ==> bytes::be_value(key@) == (if dp.ktype == 0 {
                    old(self).start() + dist - seen[x].dist
                } else {
                    old(self).start() + seen[x].dist - dist
                }) % (pow2(256) as int)
            }),
    {
        let affine_x_be = bytes::le_limbs_to_be_bytes(&dp.x);
        let dist_le = bytes::limbs_to_le_bytes(&dp.dist);
        let hash_key = bytes::top_u64(&affine_x_be);
        let new_dp = StoredDP { affine_x_be, dist_le, ktype: dp.ktype };
        let ghost m = bucket_map::buckets(self.table);
        let ghost x = dp@.x;
        assert(x_of(new_dp) == x);
        assert(x / pow2(192) == hash_key);
        match bucket_map::get(&self.table, hash_key) {
            Some(bucket) => {
                assert(bucket_wf(hash_key, m[hash_key]));
                for i in 0..bucket.len()
                    invariant
                        bucket@ == m[hash_key],
                        m == bucket_map::buckets(self.table),
                        *self == *old(self),
                        m.contains_key(hash_key),
                        bucket_wf(hash_key, m[hash_key]),
                        hash_key == x / pow2(192),
                        x == x_of(new_dp),
                        x == dp@.x,
                        dp@.dist == bytes::le_value(dist_le@),
                        new_dp.affine_x_be == affine_x_be,
                        buckets_wf(m),
                        forall|j: int| 0 <= j < i ==> x_of(#[trigger] bucket@[j]) != x,
                {
                    let existing = bucket[i];
                    if bytes::same_bytes(&existing.affine_x_be, &affine_x_be) {
                        proof {
                            lemma_present(hash_key, m[hash_key], i as int);
                            assert(trail_to(m, x) == Some(trail_of(existing)));
                            assert(self.seen().contains_key(x));
                        }
                        if (existing.ktype == 0) == (dp.ktype == 0) {
                            return None;
                        }
                        let key = if existing.ktype == 0 {
                            self.key_from(&existing.dist_le, &dist_le)
                        } else {
                            self.key_from(&dist_le, &existing.dist_le)
                        };
                        proof {
                            lemma_pow2_pos(256);
                            let stored = self.seen()[x].dist as int;
                            let dist = dp@.dist as int;
                            let start = self.start() as int;
                            lemma_mod_bound(start + stored - dist, pow2(256) as int);
                            lemma_mod_bound(start + dist - stored, pow2(256) as int);
                        }
                        return Some(key);
                    }
                }
                proof {
                    lemma_absent(m[hash_key], x);
                    lemma_push(m, hash_key, new_dp);
                }
                bucket_map::push(&mut self.table, hash_key, new_dp);
            },
            None => {
                proof {
                    lemma_open_bucket(m, hash_key, new_dp);
                }
                let mut bucket: Vec<StoredDP> = Vec::new();
                bucket.push(new_dp);
                assert(bucket@ =~= seq![new_dp]);
                bucket_map::insert(&mut self.table, hash_key, bucket);
            },
        }
        assert(trail_to(m, x) is None);
        None
    }

    /// How many points the table holds.
    pub fn total_dps(&self) -> (n: usize)
        requires
            self.wf(),
            self.seen().len() <= usize::MAX,
        ensures
            self.seen().dom().finite(),
            n == self.seen().len(),
    {
        let ghost m = bucket_map::buckets(self.table);
        let keys = bucket_map::keys(&self.table);
        let mut n: usize = 0;
        assert(points_under(m, keys@.take(0)) =~= Set::<nat>::empty());
        for i in 0..keys.len()
            invariant
                m == bucket_map::buckets(self.table),
                buckets_wf(m),
                keys@.no_duplicates(),
                keys@.to_set() == m.dom(),
                trails(m).dom().len() <= usize::MAX,
                n == points_under(m, keys@.take(i as int)).len(),
        {
            proof {
                lemma_next_key(m, keys@, i as int);
                lemma_points_under_bound(m, keys@, i as int);
                lemma_points_under_bound(m, keys@, i + 1);
                lemma_points_under_push(m, keys@.take(i as int), keys@[i as int]);
                lemma_points_of(keys@[i as int], m[keys@[i as int]]);
                vstd::set_lib::lemma_set_disjoint_lens(
                    points_under(m, keys@.take(i as int)),
                    points_of(m[keys@[i as int]]),
                );
            }
            match bucket_map::get(&self.table, keys[i]) {
                Some(bucket) => {
                    n = n + bucket.len();
                },
                None => {},
            }
        }
        proof {
            lemma_points_under_bound(m, keys@, keys@.len() as int);
            assert(keys@.take(keys@.len() as int) =~= keys@);
            lemma_points_under_all(m, keys@);
        }
        n
    }

    /// How many points of tame and of wild kangaroos the table holds.
    pub fn count_by_type(&self) -> (r: (usize, usize))
        requires
            self.wf(),
            self.seen().len() <= usize::MAX,
        ensures
            self.seen().dom().finite(),
            r.0 == self.seen().dom().filter(|x: nat| self.seen()[x].ktype == 0).len(),
            r.1 == self.seen().dom().filter(|x: nat| self.seen()[x].ktype != 0).len(),
            r.0 + r.1 == self.seen().len(),
    {
        let ghost m = bucket_map::buckets(self.table);
        let ghost t = trails(m);
        let ghost is_tame = |x: nat| t[x].ktype == 0;
        let ghost is_wild = |x: nat| t[x].ktype != 0;
        let keys = bucket_map::keys(&self.table);
        let mut tame: usize = 0;
        let mut wild: usize = 0;
        let ghost mut done: Set<nat> = points_under(m, keys@.take(0));
        proof {
            assert(done =~= Set::<nat>::empty());
            assert(done.filter(is_tame) =~= Set::<nat>::empty());
            assert(done.filter(is_wild) =~= Set::<nat>::empty());
        }
        for i in 0..keys.len()
            invariant
                m == bucket_map::buckets(self.table),
                t == trails(m),
                is_tame == (|x: nat| t[x].ktype == 0),
                is_wild == (|x: nat| t[x].ktype != 0),
                buckets_wf(m),
                keys@.no_duplicates(),
                keys@.to_set() == m.dom(),
                t.dom().len() <= usize::MAX,
                done == points_under(m, keys@.take(i as int)),
                done.finite(),
                tame == done.filter(is_tame).len(),
                wild == done.filter(is_wild).len(),
                tame + wild == done.len(),
        {
            let ghost key = keys@[i as int];
            let ghost base = done;
            proof {
                lemma_next_key(m, keys@, i as int);
                lemma_points_under_bound(m, keys@, i + 1);
                lemma_points_under_push(m, keys@.take(i as int), key);
                lemma_points_of(key, m[key]);
            }
            match bucket_map::get(&self.table, keys[i]) {
                Some(bucket) => {
                    assert(base + points_of(bucket@.take(0)) =~= base);
                    for j in 0..bucket.len()
                        invariant
                            t == trails(m),
                            is_tame == (|x: nat| t[x].ktype == 0),
                            is_wild == (|x: nat| t[x].ktype != 0),
                            m.contains_key(key),
                            bucket@ == m[key],
                            bucket_wf(key, bucket@),
                            base.disjoint(points_of(bucket@)),
                            base + points_of(bucket@) == points_under(m, keys@.take(i + 1)),
                            points_under(m, keys@.take(i + 1)).subset_of(t.dom()),
                            t.dom().finite(),
                            t.dom().len() <= usize::MAX,
                            done == base + points_of(bucket@.take(j as int)),
                            done.finite(),
                            tame == done.filter(is_tame).len(),
                            wild == done.filter(is_wild).len(),
                            tame + wild == done.len(),
                    {
                        let ghost x = x_of(bucket@[j as int]);
                        proof {
                            lemma_take_points(key, bucket@, j as int);
                            lemma_present(key, bucket@, j as int);
                            lemma_points_of(key, bucket@);
                            assert(points_of(bucket@).contains(x));
                            assert(t[x] == trail_of(bucket@[j as int])) by {
                                assert(trail_to(m, x) == Some(trail_of(bucket@[j as int])));
                            }
                            assert(!done.contains(x));
                            assert(done.insert(x) =~= base + points_of(bucket@.take(j + 1)));
                            assert(done.insert(x).subset_of(t.dom())) by {
                                assert forall|y: nat| done.insert(x).contains(y) implies t.dom().contains(y) by {
                                    assert((base + points_of(bucket@)).contains(y));
                                    assert(points_under(m, keys@.take(i + 1)).contains(y));
                                }
                            }
                            vstd::set_lib::lemma_len_subset(done.insert(x), t.dom());
                            if is_tame(x) {
                                assert(done.insert(x).filter(is_tame) =~= done.filter(is_tame).insert(x));
                                assert(done.insert(x).filter(is_wild) =~= done.filter(is_wild));
                            } else {
                                assert(done.insert(x).filter(is_tame) =~= done.filter(is_tame));
                                assert(done.insert(x).filter(is_wild) =~= done.filter(is_wild).insert(x));
                            }
                            done = done.insert(x);
                        }
                        if bucket[j].ktype == 0 {
                            tame = tame + 1;
                        } else {
                            wild = wild + 1;
                        }
                    }
                    assert(bucket@.take(bucket@.len() as int) =~= bucket@);
                },
                None => {},
            }
        }
        proof {
            lemma_points_under_bound(m, keys@, keys@.len() as int);
            assert(keys@.take(keys@.len() as int) =~= keys@);
            lemma_points_under_all(m, keys@);
            assert(self.seen().dom().filter(|x: nat| self.seen()[x].ktype == 0) =~= done.filter(is_tame));
            assert(self.seen().dom().filter(|x: nat| self.seen()[x].ktype != 0) =~= done.filter(is_wild));
        }
        (tame, wild)
    }

    /// How many buckets the table holds: one for each value that the top eight
    /// bytes of the X coordinates take.
    pub fn len(&self) -> (n: usize)
        requires
            self.wf(),
        ensures
            n == self.seen().dom().map(|x: nat| x / pow2(192)).len(),
    {
        let ghost m = bucket_map::buckets(self.table);
        proof {
            lemma_bucket_count(m);
        }
        bucket_map::len(&self.table)
    }

    /// Whether the table holds no point.
    pub fn is_empty(&self) -> (r: bool)
        requires
            self.wf(),
        ensures
            r == (self.seen() == Map::<nat, Trail>::empty()),
    {
        let ghost m = bucket_map::buckets(self.table);
        proof {
            if m.dom() == Set::<u64>::empty() {
                assert(self.seen() =~= Map::<nat, Trail>::empty());
            } else {
                let k = choose|k: u64| m.dom().contains(k);
                assert(m.contains_key(k)) by {
                    if forall|k: u64| !m.dom().contains(k) {
                        assert(m.dom() =~= Set::<u64>::empty());
                    }
                }
                lemma_bucket_has_point(m, k);
                assert(self.seen().contains_key(x_of(m[k][0])));
            }
        }
        bucket_map::is_empty(&self.table)
    }

    /// The key that a tame and a wild distance give, without leading zero bytes.
    fn key_from(&self, tame_dist: &[u8; 32], wild_dist: &[u8; 32]) -> (key: Vec<u8>)
        ensures
            bytes::minimal_be(
                key@,
                recovered_key(
                    self.start(),
                    bytes::le_value(tame_dist@),
                    bytes::le_value(wild_dist@),
                ),
            ),
    {
        let mut tmp = [0u8; 32];
        let mut key_le = [0u8; 32];
        bytes::add_le(&self.start_le, tame_dist, &mut tmp);
        bytes::sub_le(&tmp, wild_dist, &mut key_le);
        proof {
            lemma_pow2_pos(256);
            lemma_reduce_then_subtract(
                (self.start() + bytes::le_value(tame_dist@)) as int,
                bytes::le_value(wild_dist@) as int,
                pow2(256) as int,
            );
        }
        let key_be = bytes::reversed(&key_le);
        bytes::strip_leading_zeros(&key_be)
    }
}

/// Reducing before a subtraction does not change the difference modulo `m`.
proof fn lemma_reduce_then_subtract(a: int, b: int, m: int)
    requires
        m > 0,
    ensures
        (a % m - b) % m == (a - b) % m,
{
    lemma_sub_mod_noop(a % m, b, m);
    lemma_mod_twice(a, m);
    lemma_sub_mod_noop(a, b, m);
}

// ---------------------------------------------------------------------------
// What holds of every table
// ---------------------------------------------------------------------------

/// Which of two kangaroos at one point, a tame and a wild one, is reported
/// first does not matter: the second report is a collision and gives the key
/// `start + tame_dist - wild_dist`.
pub proof fn lemma_meeting_order_is_irrelevant(
    seen: Map<nat, Trail>,
    start: nat,
    tame: Sighting,
    wild: Sighting,
)
    requires
        !seen.contains_key(tame.x),
        tame.x == wild.x,
        tame.ktype == 0,
        wild.ktype != 0,
    ensures
        collides(after_sighting(seen, tame), wild),
        collides(after_sighting(seen, wild), tame),
        collision_key(start, after_sighting(seen, tame)[wild.x], wild) == recovered_key(
            start,
            tame.dist,
            wild.dist,
        ),
        collision_key(start, after_sighting(seen, wild)[tame.x], tame) == recovered_key(
            start,
            tame.dist,
            wild.dist,
        ),
{
}

/// Two kangaroos of one kind at one point are harmless: the second report is
/// no collision and changes nothing.
pub proof fn lemma_same_kind_is_ignored(seen: Map<nat, Trail>, first: Sighting, second: Sighting)
    requires
        first.x == second.x,
        same_kind(first.ktype, second.ktype),
        !collides(seen, first),
    ensures
        !collides(after_sighting(seen, first), second),
        after_sighting(after_sighting(seen, first), second) == after_sighting(seen, first),
{
}

/// A table forgets no point and changes no trail; a report adds at most one point.
pub proof fn lemma_points_stay(seen: Map<nat, Trail>, dp: Sighting)
    requires
        seen.dom().finite(),
    ensures
        forall|x: nat| #[trigger]
            seen.contains_key(x) ==> after_sighting(seen, dp).contains_key(x) && after_sighting(
                seen,
                dp,
            )[x] == seen[x],
        after_sighting(seen, dp).contains_key(dp.x),
        seen.len() <= after_sighting(seen, dp).len() <= seen.len() + 1,
{
}

/// Where a tame and a wild kangaroo stand at one point, the key that they give
/// away is the private key, up to multiples of the group order.
///
/// The difference of the distances must not leave the 256 bits that it is
/// computed in.
pub proof fn lemma_collision_recovers_key(
    start: nat,
    key: nat,
    tame_dist: nat,
    wild_dist: nat,
    at: Option<(nat, nat)>,
)
    requires
        curve::only_multiple(at, start + tame_dist),
        at == curve::multiple(key + wild_dist),
        wild_dist <= start + tame_dist < wild_dist + pow2(256),
    ensures
        recovered_key(start, tame_dist, wild_dist) % curve::group_order() == key
            % curve::group_order(),
{
    let n = curve::group_order() as int;
    let (tame, wild) = (start + tame_dist, wild_dist as int);
    let diff = (tame - wild) as nat;
    lemma_small_mod(diff, pow2(256));
    lemma_mod_bound(key + wild, n);
    assert(curve::base_multiple(((key + wild_dist) % curve::group_order()) as nat) == at);
    assert((key + wild) % n == tame as int % n);
    lemma_sub_mod_noop(key + wild, wild, n);
    lemma_sub_mod_noop(tame as int, wild, n);
    assert((key + wild) - wild == key);
}

/// Two kangaroos of different kinds that meet are reported with the private key,
/// up to multiples of the group order, whichever of them came first.
pub proof fn lemma_meeting_reveals_key(
    seen: Map<nat, Trail>,
    start: nat,
    key: nat,
    tame: Sighting,
    wild: Sighting,
    tame_first: bool,
    at: (nat, nat),
    report: Option<Seq<u8>>,
)
    requires
        tame.ktype == 0,
        wild.ktype != 0,
        tame.x == at.0,
        wild.x == at.0,
        !seen.contains_key(at.0),
        curve::only_multiple(Some(at), start + tame.dist),
        Some(at) == curve::multiple(key + wild.dist),
        wild.dist <= start + tame.dist < wild.dist + pow2(256),
        tame_first ==> sighting_report(after_sighting(seen, tame), start, wild, report),
        !tame_first ==> sighting_report(after_sighting(seen, wild), start, tame, report),
    ensures
        report matches Some(found) && bytes::be_value(found) % curve::group_order() == key
            % curve::group_order(),
{
    lemma_collision_recovers_key(start, key, tame.dist, wild.dist, Some(at));
}

} // verus!
