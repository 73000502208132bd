//! The content cache: document bodies keyed by content hash, each stamped
//! with the time it was fetched and dropped once its time-to-live has passed.
//!
//! The cache lives in a persistent map with structural sharing, so that the
//! read path can replace the whole value copy-on-write instead of mutating
//! shared state in place.  Eviction is piggybacked on the read path: stale
//! records may linger until the next read, but are never served.

use vstd::prelude::*;

verus! {

/// Seconds a fetched document stays servable.
pub const CACHE_LIFETIME: u64 = 3600;

/// The structure holding the cache: content hash to (body, fetch time), in a
/// persistent map whose versions share structure.
#[verifier::external_body]
pub struct ContentMap {
    map: rpds::HashTrieMapSync<String, (Vec<u8>, u64)>,
}

/// What the cache holds: each cached content hash, with the body bytes and
/// the time they were fetched.
pub uninterp spec fn content_map(m: ContentMap) -> Map<Seq<char>, (Seq<u8>, u64)>;

/// What an empty content cache holds: nothing.
pub open spec fn empty_contents() -> Map<Seq<char>, (Seq<u8>, u64)> {
    Map::empty()
}

/// Relies on rpds::HashTrieMap::new_sync: the new map is empty.
#[verifier::external_body]
pub fn content_new() -> (r: ContentMap)
    ensures
        content_map(r) == empty_contents(),
{
    ContentMap { map: rpds::HashTrieMap::new_sync() }
}

/// Relies on rpds::HashTrieMap::get: it returns the value bound to the key,
/// or nothing when the key is unbound.
#[verifier::external_body]
pub(crate) fn content_get(m: &ContentMap, key: &String) -> (r: Option<(Vec<u8>, u64)>)
    ensures
        match r {
            Some(v) => content_map(*m).contains_key(key@) && content_map(*m)[key@] == (v.0@, v.1),
            None => !content_map(*m).contains_key(key@),
        },
{
    m.map.get(key.as_str()).map(|v| (v.0.clone(), v.1))
}

/// Relies on rpds::HashTrieMap::insert_mut: it binds the key to the value and
/// keeps every other binding, sharing structure with the previous version.
#[verifier::external_body]
pub(crate) fn content_insert(m: &mut ContentMap, key: String, body: Vec<u8>, stamp: u64)
    ensures
        content_map(*final(m)) == content_map(*old(m)).insert(key@, (body@, stamp)),
{
    m.map.insert_mut(key, (body, stamp));
}

/// Relies on rpds::HashTrieMap::remove_mut: it unbinds the key and keeps
/// every other binding, sharing structure with the previous version.
#[verifier::external_body]
pub(crate) fn content_remove(m: &mut ContentMap, key: &String)
    ensures
        content_map(*final(m)) == content_map(*old(m)).remove(key@),
{
    m.map.remove_mut(key.as_str());
}

/// Relies on rpds::HashTrieMap::clone: the clone holds the same records and
/// shares structure with the original, so taking one is cheap.
#[verifier::external_body]
pub fn content_clone(m: &ContentMap) -> (r: ContentMap)
    ensures
        content_map(r) == content_map(*m),
{
    ContentMap { map: m.map.clone() }
}

/// Relies on rpds::HashTrieMap::iter: it yields each binding exactly once, in
/// no promised order.
#[verifier::external_body]
pub(crate) fn content_stamps(m: &ContentMap) -> (r: Vec<(String, u64)>)
    ensures
        forall|i: int|
            0 <= i < r@.len() ==> content_map(*m).contains_key(#[trigger] r@[i].0@)
                && content_map(*m)[r@[i].0@].1 == r@[i].1,
        forall|k: Seq<char>|
            content_map(*m).contains_key(k) ==> exists|i: int|
                0 <= i < r@.len() && (#[trigger] r@[i].0)@ == k,
        forall|i: int, j: int| 0 <= i < j < r@.len() ==> r@[i].0@ != r@[j].0@,
{
    m.map.iter().map(|(k, v)| (k.clone(), v.1)).collect()
}

/// Holds when a record fetched at `stamp` may still be served at `now`:
/// only strictly before its time-to-live has passed.  At `stamp` plus the
/// lifetime, and at every later instant, the record is stale.
pub open spec fn is_live(stamp: u64, now: u64) -> bool {
    stamp + CACHE_LIFETIME > now
}

/// The records still servable at `now`.
pub open spec fn live_part(m: Map<Seq<char>, (Seq<u8>, u64)>, now: u64) -> Map<
    Seq<char>,
    (Seq<u8>, u64),
> {
    Map::new(|k: Seq<char>| m.dom().contains(k) && is_live(m[k].1, now), |k: Seq<char>| m[k])
}

/// The hashes among the listed stamps whose time-to-live has passed at `now`.
pub open spec fn expired_keys(s: Seq<(String, u64)>, now: u64) -> Set<Seq<char>> {
    Set::new(
        |k: Seq<char>| exists|i: int| 0 <= i < s.len() && (#[trigger] s[i]).0@ == k && !is_live(
            s[i].1,
            now,
        ),
    )
}

/// Drops every record whose time-to-live has passed at `now`.
pub fn evict_expired(m: &mut ContentMap, now: u64)
    ensures
        content_map(*final(m)) == live_part(content_map(*old(m)), now),
{
    let ghost m0 = content_map(*m);
    let stamps = content_stamps(m);
    let mut i: usize = 0;
    while i < stamps.len()
        invariant
            i <= stamps.len(),
            content_map(*m) == m0.remove_keys(expired_keys(stamps@.take(i as int), now)),
            forall|t: int|
                0 <= t < stamps@.len() ==> m0.contains_key(#[trigger] stamps@[t].0@)
                    && m0[stamps@[t].0@].1 == stamps@[t].1,
            forall|k: Seq<char>|
                m0.contains_key(k) ==> exists|t: int|
                    0 <= t < stamps@.len() && (#[trigger] stamps@[t].0)@ == k,
        decreases stamps.len() - i,
    {
        let ghost ks = expired_keys(stamps@.take(i as int), now);
        let ghost s0 = stamps@.take(i as int);
        let ghost s1 = stamps@.take(i + 1);
        proof {
            assert(forall|u: int| 0 <= u < i ==> s1[u] == #[trigger] s0[u]);
            assert(s1[i as int] == stamps@[i as int]);
        }
        let expired = now >= CACHE_LIFETIME && stamps[i].1 <= now - CACHE_LIFETIME;
        if expired {
            content_remove(m, &stamps[i].0);
            proof {
                assert(!is_live(stamps@[i as int].1, now));
                assert(expired_keys(s1, now) =~= ks.insert(stamps@[i as int].0@)) by {
                    assert forall|k: Seq<char>| expired_keys(s1, now).contains(k) implies ks.insert(
                        stamps@[i as int].0@,
                    ).contains(k) by {
                        let u = choose|u: int|
                            0 <= u < s1.len() && (#[trigger] s1[u]).0@ == k && !is_live(
                                s1[u].1,
                                now,
                            );
                        if u < i {
                            assert(s0[u].0@ == k && !is_live(s0[u].1, now));
                        }
                    }
                    assert forall|k: Seq<char>|
                        ks.insert(stamps@[i as int].0@).contains(k) implies expired_keys(
                        s1,
                        now,
                    ).contains(k) by {
                        if k == stamps@[i as int].0@ {
                            assert(0 <= i < s1.len() && s1[i as int].0@ == k && !is_live(
                                s1[i as int].1,
                                now,
                            ));
                        } else {
                            let u = choose|u: int|
                                0 <= u < s0.len() && (#[trigger] s0[u]).0@ == k && !is_live(
                                    s0[u].1,
                                    now,
                                );
                            assert(0 <= u < s1.len() && s1[u].0@ == k && !is_live(s1[u].1, now));
                        }
                    }
                }
                assert(content_map(*m) =~= m0.remove_keys(expired_keys(s1, now)));
            }
        } else {
            proof {
                assert(is_live(stamps@[i as int].1, now));
                assert(expired_keys(s1, now) =~= ks) by {
                    assert forall|k: Seq<char>| expired_keys(s1, now).contains(k) implies ks.contains(
                        k,
                    ) by {
                        let u = choose|u: int|
                            0 <= u < s1.len() && (#[trigger] s1[u]).0@ == k && !is_live(
                                s1[u].1,
                                now,
                            );
                        assert(u != i);
                        assert(s0[u].0@ == k && !is_live(s0[u].1, now));
                    }
                    assert forall|k: Seq<char>| ks.contains(k) implies expired_keys(
                        s1,
                        now,
                    ).contains(k) by {
                        let u = choose|u: int|
                            0 <= u < s0.len() && (#[trigger] s0[u]).0@ == k && !is_live(
                                s0[u].1,
                                now,
                            );
                        assert(0 <= u < s1.len() && s1[u].0@ == k && !is_live(s1[u].1, now));
                    }
                }
            }
        }
        i = i + 1;
    }
    proof {
        assert(stamps@.take(stamps@.len() as int) =~= stamps@);
        assert(content_map(*m) =~= live_part(m0, now)) by {
            assert forall|k: Seq<char>|
                m0.remove_keys(expired_keys(stamps@, now)).dom().contains(k)
                    <==> live_part(m0, now).dom().contains(k) by {
                if m0.contains_key(k) {
                    let t = choose|t: int|
                        0 <= t < stamps@.len() && (#[trigger] stamps@[t].0)@ == k;
                    assert(0 <= t < stamps@.len() && stamps@[t].0@ == k);
                    if !is_live(m0[k].1, now) {
                        assert(expired_keys(stamps@, now).contains(k));
                    } else {
                        if expired_keys(stamps@, now).contains(k) {
                            let u = choose|u: int|
                                0 <= u < stamps@.len() && (#[trigger] stamps@[u]).0@ == k
                                    && !is_live(stamps@[u].1, now);
                            assert(m0[k].1 == stamps@[u].1);
                            assert(false);
                        }
                    }
                }
            }
        }
    }
}

/// An identical body, free of the original's storage.
pub fn clone_bytes(b: &Vec<u8>) -> (r: Vec<u8>)
    ensures
        r@ == b@,
{
    let mut r: Vec<u8> = Vec::new();
    let mut i: usize = 0;
    while i < b.len()
        invariant
            i <= b.len(),
            r@ =~= b@.subrange(0, i as int),
        decreases b.len() - i,
    {
        r.push(b[i]);
        i = i + 1;
    }
    proof {
        assert(r@ =~= b@);
    }
    r
}

/// One read of the content cache: stale records are dropped first, and a
/// record still live under the hash is served without any fetch.
pub fn lookup(m: &mut ContentMap, sha: &String, now: u64) -> (r: Option<Vec<u8>>)
    ensures
        content_map(*final(m)) == live_part(content_map(*old(m)), now),
        match r {
            Some(b) => live_part(content_map(*old(m)), now).contains_key(sha@) && b@ == live_part(
                content_map(*old(m)),
                now,
            )[sha@].0,
            None => !live_part(content_map(*old(m)), now).contains_key(sha@),
        },
{
    evict_expired(m, now);
    match content_get(m, sha) {
        Some(v) => Some(v.0),
        None => None,
    }
}

/// Completes a read after a provider fetch: a fetched body is cached with
/// fetch time `now` and handed back; a failed fetch caches nothing, so no
/// negative result is ever cached.
pub fn store_fetched(m: &mut ContentMap, sha: &String, fetched: Option<Vec<u8>>, now: u64) -> (r:
    Option<Vec<u8>>)
    ensures
        match fetched {
            Some(b) => content_map(*final(m)) == content_map(*old(m)).insert(sha@, (b@, now))
                && (r matches Some(rb) && rb@ == b@),
            None => content_map(*final(m)) == content_map(*old(m)) && r is None,
        },
{
    match fetched {
        Some(b) => {
            let copy = clone_bytes(&b);
            content_insert(m, sha.clone(), copy, now);
            Some(b)
        },
        None => None,
    }
}

/// A record fetched at some time is no longer served by any read at or after
/// that time plus the lifetime: the read drops the record instead of serving
/// it.
pub proof fn lemma_ttl_expiry(m: Map<Seq<char>, (Seq<u8>, u64)>, sha: Seq<char>, now: u64)
    requires
        m.contains_key(sha),
        m[sha].1 + CACHE_LIFETIME <= now,
    ensures
        !live_part(m, now).contains_key(sha),
{
}

} // verus!
