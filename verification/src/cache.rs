//! The merged document tree and its renewal.
//!
//! A [`TreeCache`] is one immutable snapshot of the merged tree: a sequence
//! of [`CacheEntry`] values, each tagging one provider entry with the source
//! it came from.  Several entries may share a path (one per source).  A
//! renewal cycle builds a fresh snapshot from the previous one and the
//! listings the providers returned; snapshots are never mutated in place.

use vstd::prelude::*;

use crate::config::Config;
use crate::content::{content_map, live_part, lookup, ContentMap};
use crate::order::{lemma_lex_le_total, lemma_lex_le_trans, lex_le, lex_le_exec};
use crate::repo::{TreeEntry, TreeEntryView};
use crate::strutil::{
    ends_with, ends_with_exec, last_segment, last_segment_exec, last_slash_at,
};

verus! {

/// One provider entry together with the name of the source that listed it.
#[derive(Debug)]
pub struct CacheEntry {
    pub config_entry: String,
    pub tree: TreeEntry,
}

/// Mathematical model of a [`CacheEntry`].
pub ghost struct CacheEntryView {
    pub config_entry: Seq<char>,
    pub tree: TreeEntryView,
}

impl View for CacheEntry {
    type V = CacheEntryView;

    open spec fn view(&self) -> CacheEntryView {
        CacheEntryView { config_entry: self.config_entry@, tree: self.tree@ }
    }
}

impl Clone for CacheEntry {
    fn clone(&self) -> (r: Self)
        ensures
            r == *self,
    {
        CacheEntry { config_entry: self.config_entry.clone(), tree: self.tree.clone() }
    }
}

/// One snapshot of the merged document tree.
#[derive(Debug)]
pub struct TreeCache {
    pub entries: Vec<CacheEntry>,
}

impl View for TreeCache {
    type V = Seq<CacheEntryView>;

    open spec fn view(&self) -> Seq<CacheEntryView> {
        self.entries@.map_values(|e: CacheEntry| e@)
    }
}

impl TreeCache {
    /// The empty snapshot the service starts from.
    pub fn new() -> (r: TreeCache)
        ensures
            r@ == Seq::<CacheEntryView>::empty(),
    {
        let r = TreeCache { entries: Vec::new() };
        proof {
            assert(r@ =~= Seq::<CacheEntryView>::empty());
        }
        r
    }

    /// An identical snapshot, free of the original's storage.
    pub fn duplicate(&self) -> (r: TreeCache)
        ensures
            r@ == self@,
    {
        let mut entries: Vec<CacheEntry> = Vec::new();
        let mut i: usize = 0;
        while i < self.entries.len()
            invariant
                i <= self.entries.len(),
                entries@ =~= self.entries@.subrange(0, i as int),
            decreases self.entries.len() - i,
        {
            entries.push(self.entries[i].clone());
            i = i + 1;
        }
        proof {
            assert(entries@ =~= self.entries@);
        }
        TreeCache { entries }
    }
}

/// The model of one listed entry once it is tagged with its source.
pub open spec fn entry_of(k: Seq<char>, t: TreeEntryView) -> CacheEntryView {
    CacheEntryView { config_entry: k, tree: t }
}

/// The model of a whole listing tagged with its source.
pub open spec fn entries_of(k: Seq<char>, ts: Seq<TreeEntryView>) -> Seq<CacheEntryView> {
    ts.map_values(|t: TreeEntryView| entry_of(k, t))
}

/// The models of the entries of one listing.
pub open spec fn views_of(ts: Seq<TreeEntry>) -> Seq<TreeEntryView> {
    ts.map_values(|t: TreeEntry| t@)
}

/// Holds of the entries that do not belong to the source named `k`.
pub open spec fn other_source(k: Seq<char>) -> spec_fn(CacheEntryView) -> bool {
    |e: CacheEntryView| e.config_entry != k
}

/// What updating one source does to a snapshot: every entry of that source is
/// dropped, and the fresh listing is appended under that source.  Entries of
/// other sources are untouched.
pub open spec fn insert_spec(
    c: Seq<CacheEntryView>,
    k: Seq<char>,
    ts: Seq<TreeEntryView>,
) -> Seq<CacheEntryView> {
    c.filter(other_source(k)) + entries_of(k, ts)
}

/// What one filtering step does: filtering a sequence extended by one element
/// keeps the element exactly when the predicate holds of it.
pub proof fn lemma_filter_push<A>(s: Seq<A>, pred: spec_fn(A) -> bool, x: A)
    ensures
        s.push(x).filter(pred) == if pred(x) {
            s.filter(pred).push(x)
        } else {
            s.filter(pred)
        },
{
    reveal(Seq::filter);
    assert(s.push(x).drop_last() =~= s);
    assert(s.push(x).last() == x);
}

/// Replaces one source's entries in the snapshot by the given fresh listing.
pub fn insert(cache: &mut TreeCache, key: &String, tree: Vec<TreeEntry>)
    ensures
        final(cache)@ == insert_spec(old(cache)@, key@, views_of(tree@)),
{
    let mut kept: Vec<CacheEntry> = Vec::new();
    let mut i: usize = 0;
    while i < cache.entries.len()
        invariant
            i <= cache.entries.len(),
            kept@.map_values(|e: CacheEntry| e@) == old(cache)@.subrange(0, i as int).filter(
                other_source(key@),
            ),
            cache.entries@ == old(cache).entries@,
        decreases cache.entries.len() - i,
    {
        let ghost prev = kept@;
        let ghost part = old(cache)@.subrange(0, i as int);
        let ghost ev = cache.entries@[i as int]@;
        let e = &cache.entries[i];
        if !(e.config_entry == *key) {
            kept.push(e.clone());
            proof {
                assert(kept@.map_values(|e: CacheEntry| e@) =~= prev.map_values(
                    |e: CacheEntry| e@,
                ).push(ev));
            }
        }
        proof {
            assert(old(cache)@.subrange(0, i + 1) =~= part.push(ev));
            lemma_filter_push(part, other_source(key@), ev);
        }
        i = i + 1;
    }
    proof {
        assert(old(cache)@.subrange(0, old(cache)@.len() as int) =~= old(cache)@);
    }
    let mut j: usize = 0;
    while j < tree.len()
        invariant
            j <= tree.len(),
            kept@.map_values(|e: CacheEntry| e@) == old(cache)@.filter(other_source(key@)) + entries_of(
                key@,
                views_of(tree@.subrange(0, j as int)),
            ),
        decreases tree.len() - j,
    {
        let ghost prev = kept@;
        let t = tree[j].clone();
        kept.push(CacheEntry { config_entry: key.clone(), tree: t });
        proof {
            assert(kept@.map_values(|e: CacheEntry| e@) =~= prev.map_values(
                |e: CacheEntry| e@,
            ).push(entry_of(key@, tree@[j as int]@)));
            assert(entries_of(key@, views_of(tree@.subrange(0, j + 1))) =~= entries_of(
                key@,
                views_of(tree@.subrange(0, j as int)),
            ).push(entry_of(key@, tree@[j as int]@)));
            assert(kept@.map_values(|e: CacheEntry| e@) =~= old(cache)@.filter(other_source(key@)) + entries_of(
                key@,
                views_of(tree@.subrange(0, j + 1)),
            ));
        }
        j = j + 1;
    }
    proof {
        assert(tree@.subrange(0, tree@.len() as int) =~= tree@);
        assert(kept@.map_values(|e: CacheEntry| e@) == insert_spec(
            old(cache)@,
            key@,
            views_of(tree@),
        ));
    }
    cache.entries = kept;
}

/// What one provider reported in a renewal cycle: its configured name and
/// either the fresh listing or a failure.
pub struct Listing {
    pub source: String,
    pub result: Result<Vec<TreeEntry>, ()>,
}

/// Mathematical model of a [`Listing`]: the source name, and the listed
/// entries where the listing succeeded.
pub ghost struct ListingView {
    pub source: Seq<char>,
    pub result: Option<Seq<TreeEntryView>>,
}

impl View for Listing {
    type V = ListingView;

    open spec fn view(&self) -> ListingView {
        ListingView {
            source: self.source@,
            result: match self.result {
                Ok(ts) => Some(views_of(ts@)),
                Err(_) => None,
            },
        }
    }
}

/// What a whole renewal cycle does to the previous snapshot: each source whose
/// listing succeeded is updated in turn; a source whose listing failed is left
/// as the previous snapshot had it.
pub open spec fn merge_spec(
    c: Seq<CacheEntryView>,
    ls: Seq<ListingView>,
) -> Seq<CacheEntryView>
    decreases ls.len(),
{
    if ls.len() == 0 {
        c
    } else {
        let rest = merge_spec(c, ls.drop_last());
        match ls.last().result {
            Some(ts) => insert_spec(rest, ls.last().source, ts),
            None => rest,
        }
    }
}

/// The models of a cycle's listings.
pub open spec fn listing_views(ls: Seq<Listing>) -> Seq<ListingView> {
    ls.map_values(|l: Listing| l@)
}

/// One renewal cycle that fails as a whole as soon as any provider's listing
/// failed, as the startup cycle must: nothing may be published then.  On
/// success the merged snapshot is returned for publication.
pub fn renew(prev: &TreeCache, listings: &Vec<Listing>) -> (r: Result<TreeCache, ()>)
    ensures
        r is Ok <==> (forall|i: int|
            0 <= i < listings@.len() ==> (#[trigger] listings@[i]@.result) is Some),
        r matches Ok(c) ==> c@ == merge_spec(prev@, listing_views(listings@)),
{
    let mut k: usize = 0;
    while k < listings.len()
        invariant
            k <= listings.len(),
            forall|i: int| 0 <= i < k ==> (#[trigger] listings@[i]@.result) is Some,
        decreases listings.len() - k,
    {
        if listings[k].result.is_err() {
            proof {
                assert(!((listings@[k as int]@.result) is Some));
            }
            return Err(());
        }
        k = k + 1;
    }
    Ok(renew_ignoring_errors(prev, listings))
}

/// One recurring renewal cycle: sources whose listing failed keep their
/// previous entries (stale but available), the others contribute fresh
/// entries, and the merged snapshot is always returned for publication.
pub fn renew_ignoring_errors(prev: &TreeCache, listings: &Vec<Listing>) -> (c: TreeCache)
    ensures
        c@ == merge_spec(prev@, listing_views(listings@)),
{
    let mut cache = prev.duplicate();
    let mut i: usize = 0;
    while i < listings.len()
        invariant
            i <= listings.len(),
            cache@ == merge_spec(prev@, listing_views(listings@.subrange(0, i as int))),
        decreases listings.len() - i,
    {
        let ghost part = listing_views(listings@.subrange(0, i as int));
        proof {
            assert(listing_views(listings@.subrange(0, i + 1)) =~= part.push(
                listings@[i as int]@,
            ));
            assert(listing_views(listings@.subrange(0, i + 1)).drop_last() =~= part);
        }
        let l = &listings[i];
        match &l.result {
            Ok(t) => {
                let fresh = clone_entries(t);
                insert(&mut cache, &l.source, fresh);
            },
            Err(_) => {},
        }
        i = i + 1;
    }
    proof {
        assert(listings@.subrange(0, listings@.len() as int) =~= listings@);
    }
    cache
}

/// Filtering keeps a sequence whole when the predicate holds everywhere.
pub proof fn lemma_filter_all<A>(s: Seq<A>, pred: spec_fn(A) -> bool)
    requires
        forall|i: int| 0 <= i < s.len() ==> pred(#[trigger] s[i]),
    ensures
        s.filter(pred) == s,
    decreases s.len(),
{
    reveal(Seq::filter);
    if s.len() > 0 {
        assert(forall|i: int|
            0 <= i < s.drop_last().len() ==> pred(#[trigger] s.drop_last()[i]));
        lemma_filter_all(s.drop_last(), pred);
        assert(s.filter(pred) =~= s);
    }
}

/// Filtering empties a sequence when the predicate holds nowhere.
pub proof fn lemma_filter_none<A>(s: Seq<A>, pred: spec_fn(A) -> bool)
    requires
        forall|i: int| 0 <= i < s.len() ==> !pred(#[trigger] s[i]),
    ensures
        s.filter(pred) == Seq::<A>::empty(),
    decreases s.len(),
{
    reveal(Seq::filter);
    if s.len() > 0 {
        assert(forall|i: int|
            0 <= i < s.drop_last().len() ==> !pred(#[trigger] s.drop_last()[i]));
        lemma_filter_none(s.drop_last(), pred);
    }
}

/// Two filters in a row are one filter by any predicate that agrees with
/// their conjunction.
pub proof fn lemma_filter_compose<A>(
    s: Seq<A>,
    p: spec_fn(A) -> bool,
    q: spec_fn(A) -> bool,
    both: spec_fn(A) -> bool,
)
    requires
        forall|x: A| #[trigger] both(x) == (p(x) && q(x)),
    ensures
        s.filter(p).filter(q) == s.filter(both),
    decreases s.len(),
{
    reveal(Seq::filter);
    if s.len() == 0 {
        assert(s.filter(p) =~= Seq::<A>::empty());
    } else {
        let d = s.drop_last();
        let l = s.last();
        lemma_filter_compose(d, p, q, both);
        if p(l) {
            lemma_filter_push(d.filter(p), q, l);
        }
    }
}

/// The sources that a cycle's successful listings update.
pub open spec fn updated_sources(ls: Seq<ListingView>) -> Set<Seq<char>>
    decreases ls.len(),
{
    if ls.len() == 0 {
        Set::empty()
    } else {
        let rest = updated_sources(ls.drop_last());
        match ls.last().result {
            Some(_) => rest.insert(ls.last().source),
            None => rest,
        }
    }
}

/// All entries that a cycle's successful listings contribute, in cycle order.
pub open spec fn fresh_entries(ls: Seq<ListingView>) -> Seq<CacheEntryView>
    decreases ls.len(),
{
    if ls.len() == 0 {
        Seq::empty()
    } else {
        let rest = fresh_entries(ls.drop_last());
        match ls.last().result {
            Some(ts) => rest + entries_of(ls.last().source, ts),
            None => rest,
        }
    }
}

/// No two listings of the cycle come from the same source, as listings drawn
/// from the configuration mapping are.
pub open spec fn distinct_sources(ls: Seq<ListingView>) -> bool {
    forall|i: int, j: int| 0 <= i < j < ls.len() ==> ls[i].source != ls[j].source
}

/// Holds of the entries whose source is not among the given ones.
pub open spec fn carried_over(ks: Set<Seq<char>>) -> spec_fn(CacheEntryView) -> bool {
    |e: CacheEntryView| !ks.contains(e.config_entry)
}

/// Holds of the entries of exactly the source named `k`.
pub open spec fn same_source(k: Seq<char>) -> spec_fn(CacheEntryView) -> bool {
    |e: CacheEntryView| e.config_entry == k
}

/// Every fresh entry of a cycle belongs to one of the cycle's updated sources.
pub proof fn lemma_fresh_sources(ls: Seq<ListingView>)
    ensures
        forall|i: int|
            0 <= i < fresh_entries(ls).len() ==> updated_sources(ls).contains(
                #[trigger] fresh_entries(ls)[i].config_entry,
            ),
    decreases ls.len(),
{
    if ls.len() > 0 {
        lemma_fresh_sources(ls.drop_last());
        assert forall|i: int| 0 <= i < fresh_entries(ls).len() implies updated_sources(
            ls,
        ).contains(fresh_entries(ls)[i].config_entry) by {
            let fd = fresh_entries(ls.drop_last());
            match ls.last().result {
                Some(ts) => {
                    let es = entries_of(ls.last().source, ts);
                    assert(fresh_entries(ls) == fd + es);
                    if i < fd.len() {
                        assert(fresh_entries(ls)[i] == fd[i]);
                        assert(updated_sources(ls.drop_last()).contains(fd[i].config_entry));
                    } else {
                        assert(fresh_entries(ls)[i] == es[i - fd.len()]);
                        assert(es[i - fd.len()].config_entry == ls.last().source);
                    }
                },
                None => {
                    assert(fresh_entries(ls)[i] == fd[i]);
                    assert(updated_sources(ls.drop_last()).contains(fd[i].config_entry));
                },
            }
        }
    }
}

/// The closed form of a renewal cycle: the previous snapshot stripped of the
/// updated sources' entries, followed by the fresh entries in cycle order.
pub proof fn lemma_merge_canonical(c: Seq<CacheEntryView>, ls: Seq<ListingView>)
    requires
        distinct_sources(ls),
    ensures
        merge_spec(c, ls) == c.filter(carried_over(updated_sources(ls))) + fresh_entries(ls),
    decreases ls.len(),
{
    broadcast use vstd::seq_lib::group_filter_ensures;

    if ls.len() == 0 {
        lemma_filter_all(c, carried_over(updated_sources(ls)));
        assert(merge_spec(c, ls) =~= c.filter(carried_over(updated_sources(ls)))
            + fresh_entries(ls));
    } else {
        let d = ls.drop_last();
        let l = ls.last();
        assert(distinct_sources(d)) by {
            assert(forall|i: int, j: int| 0 <= i < j < d.len() ==> d[i] == ls[i] && d[j] == ls[j]);
        }
        lemma_merge_canonical(c, d);
        let kprev = updated_sources(d);
        match l.result {
            None => {},
            Some(ts) => {
                let k = l.source;
                let ks = kprev.insert(k);
                Seq::filter_distributes_over_add(
                    c.filter(carried_over(kprev)),
                    fresh_entries(d),
                    other_source(k),
                );
                assert(forall|x: CacheEntryView|
                    #[trigger] carried_over(ks)(x) == (carried_over(kprev)(x) && other_source(
                        k,
                    )(x)));
                lemma_filter_compose(c, carried_over(kprev), other_source(k), carried_over(ks));
                lemma_fresh_sources(d);
                assert(forall|i: int| 0 <= i < d.len() ==> d[i].source != k) by {
                    assert(forall|i: int| 0 <= i < d.len() ==> ls[i] == d[i]);
                }
                assert(!kprev.contains(k)) by {
                    lemma_updated_source_listed(d, k);
                }
                assert(forall|i: int|
                    0 <= i < fresh_entries(d).len() ==> other_source(k)(
                        #[trigger] fresh_entries(d)[i],
                    ));
                lemma_filter_all(fresh_entries(d), other_source(k));
                assert(merge_spec(c, ls) =~= c.filter(carried_over(updated_sources(ls)))
                    + fresh_entries(ls));
            },
        }
    }
}

/// A source is among a cycle's updated sources only when one of its listings
/// names it.
pub proof fn lemma_updated_source_listed(ls: Seq<ListingView>, k: Seq<char>)
    requires
        forall|i: int| 0 <= i < ls.len() ==> ls[i].source != k,
    ensures
        !updated_sources(ls).contains(k),
    decreases ls.len(),
{
    if ls.len() > 0 {
        assert(forall|i: int| 0 <= i < ls.drop_last().len() ==> ls.drop_last()[i] == ls[i]);
        lemma_updated_source_listed(ls.drop_last(), k);
    }
}

/// Renewal is idempotent: merging the same listings into the snapshot they
/// already produced gives that snapshot back unchanged.  Together with the
/// exact contract of `finalize` this makes a cycle re-run on byte-identical
/// provider output publish a tree and a rendering identical to the previous
/// ones.
pub proof fn lemma_renewal_idempotent(prev: Seq<CacheEntryView>, ls: Seq<ListingView>)
    requires
        distinct_sources(ls),
    ensures
        merge_spec(merge_spec(prev, ls), ls) == merge_spec(prev, ls),
{
    broadcast use vstd::seq_lib::group_filter_ensures;

    let ks = updated_sources(ls);
    let f = fresh_entries(ls);
    lemma_merge_canonical(prev, ls);
    let m = prev.filter(carried_over(ks)) + f;
    lemma_merge_canonical(m, ls);
    Seq::filter_distributes_over_add(prev.filter(carried_over(ks)), f, carried_over(ks));
    assert(forall|i: int|
        0 <= i < prev.filter(carried_over(ks)).len() ==> carried_over(ks)(
            #[trigger] prev.filter(carried_over(ks))[i],
        ));
    lemma_filter_all(prev.filter(carried_over(ks)), carried_over(ks));
    lemma_fresh_sources(ls);
    assert(forall|i: int| 0 <= i < f.len() ==> !carried_over(ks)(#[trigger] f[i]));
    lemma_filter_none(f, carried_over(ks));
    assert(m.filter(carried_over(ks)) =~= prev.filter(carried_over(ks)));
    assert(merge_spec(m, ls) =~= m);
}

/// A source whose listing failed keeps exactly its previous entries: the
/// published snapshot holds, for that source, the same entries in the same
/// order as the previous snapshot.
pub proof fn lemma_failed_source_carried_over(
    prev: Seq<CacheEntryView>,
    ls: Seq<ListingView>,
    k: Seq<char>,
)
    requires
        distinct_sources(ls),
        !updated_sources(ls).contains(k),
    ensures
        merge_spec(prev, ls).filter(same_source(k)) == prev.filter(same_source(k)),
{
    broadcast use vstd::seq_lib::group_filter_ensures;

    let ks = updated_sources(ls);
    lemma_merge_canonical(prev, ls);
    Seq::filter_distributes_over_add(
        prev.filter(carried_over(ks)),
        fresh_entries(ls),
        same_source(k),
    );
    assert(forall|x: CacheEntryView|
        #[trigger] same_source(k)(x) == (carried_over(ks)(x) && same_source(k)(x)));
    lemma_filter_compose(prev, carried_over(ks), same_source(k), same_source(k));
    lemma_fresh_sources(ls);
    assert(forall|i: int|
        0 <= i < fresh_entries(ls).len() ==> !same_source(k)(#[trigger] fresh_entries(ls)[i]));
    lemma_filter_none(fresh_entries(ls), same_source(k));
    assert(prev.filter(same_source(k)) + Seq::<CacheEntryView>::empty() =~= prev.filter(
        same_source(k),
    ));
}

/// A source whose listing succeeded contributes exactly its fresh listing:
/// the published snapshot holds, for that source, one entry per listed node,
/// in listing order — no node lost, none duplicated.
pub proof fn lemma_updated_source_exact(
    prev: Seq<CacheEntryView>,
    ls: Seq<ListingView>,
    i: int,
)
    requires
        distinct_sources(ls),
        0 <= i < ls.len(),
        ls[i].result is Some,
    ensures
        merge_spec(prev, ls).filter(same_source(ls[i].source)) == entries_of(
            ls[i].source,
            ls[i].result.unwrap(),
        ),
{
    broadcast use vstd::seq_lib::group_filter_ensures;

    let k = ls[i].source;
    let ks = updated_sources(ls);
    lemma_merge_canonical(prev, ls);
    Seq::filter_distributes_over_add(
        prev.filter(carried_over(ks)),
        fresh_entries(ls),
        same_source(k),
    );
    assert(ks.contains(k)) by {
        lemma_updated_source_contained(ls, i);
    }
    let both = |x: CacheEntryView| carried_over(ks)(x) && same_source(k)(x);
    assert(forall|x: CacheEntryView| #[trigger] both(x) == (carried_over(ks)(x) && same_source(
        k,
    )(x)));
    lemma_filter_compose(prev, carried_over(ks), same_source(k), both);
    assert(forall|a: int| 0 <= a < prev.len() ==> !both(#[trigger] prev[a]));
    lemma_filter_none(prev, both);
    lemma_fresh_one_source(ls, i);
    assert(Seq::<CacheEntryView>::empty() + fresh_entries(ls).filter(same_source(k))
        =~= fresh_entries(ls).filter(same_source(k)));
}

/// A listed source is among the cycle's updated sources.
pub proof fn lemma_updated_source_contained(ls: Seq<ListingView>, i: int)
    requires
        0 <= i < ls.len(),
        ls[i].result is Some,
    ensures
        updated_sources(ls).contains(ls[i].source),
    decreases ls.len(),
{
    if i == ls.len() - 1 {
    } else {
        assert(ls.drop_last()[i] == ls[i]);
        lemma_updated_source_contained(ls.drop_last(), i);
    }
}

/// Among a cycle's fresh entries, those of one source are exactly that
/// source's listing.
pub proof fn lemma_fresh_one_source(ls: Seq<ListingView>, i: int)
    requires
        distinct_sources(ls),
        0 <= i < ls.len(),
        ls[i].result is Some,
    ensures
        fresh_entries(ls).filter(same_source(ls[i].source)) == entries_of(
            ls[i].source,
            ls[i].result.unwrap(),
        ),
    decreases ls.len(),
{
    broadcast use vstd::seq_lib::group_filter_ensures;

    let k = ls[i].source;
    let d = ls.drop_last();
    let l = ls.last();
    assert(forall|a: int| 0 <= a < d.len() ==> d[a] == ls[a]);
    assert(distinct_sources(d));
    if i == ls.len() - 1 {
        let ts = l.result.unwrap();
        Seq::filter_distributes_over_add(fresh_entries(d), entries_of(k, ts), same_source(k));
        lemma_fresh_sources(d);
        assert(!updated_sources(d).contains(k)) by {
            lemma_updated_source_listed(d, k);
        }
        assert(forall|a: int|
            0 <= a < fresh_entries(d).len() ==> !same_source(k)(#[trigger] fresh_entries(d)[a]));
        lemma_filter_none(fresh_entries(d), same_source(k));
        assert(forall|a: int|
            0 <= a < entries_of(k, ts).len() ==> same_source(k)(#[trigger] entries_of(k, ts)[a]));
        lemma_filter_all(entries_of(k, ts), same_source(k));
        assert(Seq::<CacheEntryView>::empty() + entries_of(k, ts) =~= entries_of(k, ts));
    } else {
        lemma_fresh_one_source(d, i);
        match l.result {
            None => {},
            Some(ts) => {
                Seq::filter_distributes_over_add(
                    fresh_entries(d),
                    entries_of(l.source, ts),
                    same_source(k),
                );
                assert(l.source != k);
                assert(forall|a: int|
                    0 <= a < entries_of(l.source, ts).len() ==> !same_source(k)(
                        #[trigger] entries_of(l.source, ts)[a],
                    ));
                lemma_filter_none(entries_of(l.source, ts), same_source(k));
                assert(fresh_entries(d).filter(same_source(k)) + Seq::<CacheEntryView>::empty()
                    =~= fresh_entries(d).filter(same_source(k)));
            },
        }
    }
}

/// An identical listing, free of the original's storage.
fn clone_entries(ts: &Vec<TreeEntry>) -> (r: Vec<TreeEntry>)
    ensures
        r@ == ts@,
{
    let mut r: Vec<TreeEntry> = Vec::new();
    let mut i: usize = 0;
    while i < ts.len()
        invariant
            i <= ts.len(),
            r@ =~= ts@.subrange(0, i as int),
        decreases ts.len() - i,
    {
        r.push(ts[i].clone());
        i = i + 1;
    }
    proof {
        assert(r@ =~= ts@);
    }
    r
}

/// The label the listing shows for an entry: the last path segment; for a
/// document, with the three extension characters stripped and the owning
/// source appended in parentheses.
pub open spec fn display_spec(e: CacheEntryView) -> Seq<char> {
    if e.tree.is_dir {
        last_segment(e.tree.path)
    } else {
        last_segment(e.tree.path).take(last_segment(e.tree.path).len() - 3) + " ("@
            + e.config_entry + ")"@
    }
}

impl CacheEntry {
    /// The display label of this entry.  A document's label exists only when
    /// its file name can carry the extension at all.
    pub fn display(&self) -> (r: String)
        requires
            self@.tree.is_dir || last_segment(self@.tree.path).len() >= 3,
        ensures
            r@ == display_spec(self@),
    {
        let leaf = last_segment_exec(self.tree.path.as_str());
        if self.tree.is_dir {
            leaf
        } else {
            let n = leaf.as_str().unicode_len();
            let stem = leaf.as_str().substring_char(0, n - 3);
            let mut out = stem.to_owned();
            out.append(" (");
            out.append(self.config_entry.as_str());
            out.append(")");
            proof {
                assert(leaf@.subrange(0, n - 3) =~= leaf@.take(leaf@.len() - 3));
            }
            out
        }
    }
}

/// A document path always has a last segment long enough to carry its
/// extension: the extension's characters are no `/`.
pub proof fn lemma_md_segment(p: Seq<char>)
    requires
        ends_with(p, ".md"@),
    ensures
        last_segment(p).len() >= 3,
{
    reveal_strlit(".md");
    let n = p.len();
    assert(p.skip(n - 3) == ".md"@);
    assert(p[n - 3] == '.' && p[n - 2] == 'm' && p[n - 1] == 'd') by {
        assert(p.skip(n - 3)[0] == p[n - 3]);
        assert(p.skip(n - 3)[1] == p[n - 2]);
        assert(p.skip(n - 3)[2] == p[n - 1]);
    }
    if exists|i: int| last_slash_at(p, i) {
        let k = choose|i: int| last_slash_at(p, i);
        assert(last_slash_at(p, k));
        assert(k < n - 3);
    }
}

/// One line of the rendered listing.
#[derive(Debug)]
pub struct RenderEntry {
    pub path: String,
    pub is_dir: bool,
    pub display: String,
    pub source: String,
    pub sha: String,
}

/// Mathematical model of a [`RenderEntry`].
pub ghost struct RenderEntryView {
    pub path: Seq<char>,
    pub is_dir: bool,
    pub display: Seq<char>,
    pub source: Seq<char>,
    pub sha: Seq<char>,
}

impl View for RenderEntry {
    type V = RenderEntryView;

    open spec fn view(&self) -> RenderEntryView {
        RenderEntryView {
            path: self.path@,
            is_dir: self.is_dir,
            display: self.display@,
            source: self.source@,
            sha: self.sha@,
        }
    }
}

impl Clone for RenderEntry {
    fn clone(&self) -> (r: Self)
        ensures
            r == *self,
    {
        RenderEntry {
            path: self.path.clone(),
            is_dir: self.is_dir,
            display: self.display.clone(),
            source: self.source.clone(),
            sha: self.sha.clone(),
        }
    }
}

/// The models of the rows of a listing.
pub open spec fn rviews(rs: Seq<RenderEntry>) -> Seq<RenderEntryView> {
    rs.map_values(|r: RenderEntry| r@)
}

/// Holds of the entries the rendered listing shows: documents and
/// directories.
pub open spec fn rendered_entry() -> spec_fn(CacheEntryView) -> bool {
    |e: CacheEntryView| ends_with(e.tree.path, ".md"@) || e.tree.is_dir
}

/// The row an entry contributes to the listing.
pub open spec fn row_of(e: CacheEntryView) -> RenderEntryView {
    RenderEntryView {
        path: e.tree.path,
        is_dir: e.tree.is_dir,
        display: display_spec(e),
        source: e.config_entry,
        sha: e.tree.sha,
    }
}

/// The rows of a sequence of entries, in that order.
pub open spec fn rows_of(t: Seq<CacheEntryView>) -> Seq<RenderEntryView> {
    t.map_values(|e: CacheEntryView| row_of(e))
}

/// Rows compare by path, in lexicographic codepoint order.
pub open spec fn row_le() -> spec_fn(RenderEntryView, RenderEntryView) -> bool {
    |a: RenderEntryView, b: RenderEntryView| lex_le(a.path, b.path)
}

/// Where one row lands in a sorted sequence: after every row whose path comes
/// no later than its own, before the rest.  Rows of equal paths keep their
/// order.
pub open spec fn insert_row(s: Seq<RenderEntryView>, x: RenderEntryView) -> Seq<RenderEntryView>
    decreases s.len(),
{
    if s.len() > 0 && !lex_le(s.last().path, x.path) {
        insert_row(s.drop_last(), x).push(s.last())
    } else {
        s.push(x)
    }
}

/// The rows in listing order: the stable insertion of each row in turn.
pub open spec fn sort_rows(s: Seq<RenderEntryView>) -> Seq<RenderEntryView>
    decreases s.len(),
{
    if s.len() == 0 {
        Seq::empty()
    } else {
        insert_row(sort_rows(s.drop_last()), s.last())
    }
}

/// What the rendered listing shows of a snapshot: one row per document or
/// directory entry, labeled, sorted by path.
pub open spec fn rows_spec(t: Seq<CacheEntryView>) -> Seq<RenderEntryView> {
    sort_rows(rows_of(t.filter(rendered_entry())))
}

/// Inserting a row at a position bounded by comparisons is what `insert_row`
/// does.
proof fn lemma_insert_row_at(s: Seq<RenderEntryView>, x: RenderEntryView, p: int)
    requires
        0 <= p <= s.len(),
        forall|j: int| p <= j < s.len() ==> !lex_le(#[trigger] s[j].path, x.path),
        p > 0 ==> lex_le(s[p - 1].path, x.path),
    ensures
        insert_row(s, x) == s.take(p).push(x) + s.skip(p),
    decreases s.len(),
{
    if p == s.len() {
        assert(insert_row(s, x) =~= s.take(p).push(x) + s.skip(p));
    } else {
        let d = s.drop_last();
        assert(forall|j: int| 0 <= j < d.len() ==> d[j] == s[j]);
        lemma_insert_row_at(d, x, p);
        assert(d.take(p) =~= s.take(p));
        assert(insert_row(s, x) =~= s.take(p).push(x) + s.skip(p));
    }
}

/// A row inserted into a sorted sequence leaves it sorted.
proof fn lemma_sorted_insert_at(s: Seq<RenderEntryView>, x: RenderEntryView, p: int)
    requires
        vstd::relations::sorted_by(s, row_le()),
        0 <= p <= s.len(),
        forall|j: int| p <= j < s.len() ==> !lex_le(#[trigger] s[j].path, x.path),
        p > 0 ==> lex_le(s[p - 1].path, x.path),
    ensures
        vstd::relations::sorted_by(s.take(p).push(x) + s.skip(p), row_le()),
{
    let r = s.take(p).push(x) + s.skip(p);
    assert forall|i: int, j: int| 0 <= i < j < r.len() implies row_le()(r[i], r[j]) by {
        if i < p {
            assert(r[i] == s[i]);
        } else if i == p {
            assert(r[i] == x);
        } else {
            assert(r[i] == s[i - 1]);
        }
        if j < p {
            assert(r[j] == s[j]);
        } else if j == p {
            assert(r[j] == x);
        } else {
            assert(r[j] == s[j - 1]);
        }
        if j == p {
            // r[i] == s[i] with i < p: s[i] <= s[p-1] <= x
            if i < p - 1 {
                assert(row_le()(s[i], s[p - 1]));
                lemma_lex_le_trans(s[i].path, s[p - 1].path, x.path);
            }
        }
        if i == p && j > p {
            lemma_lex_le_total(s[j - 1].path, x.path);
        }
    }
}

/// The sorted rows hold exactly the rows given, each exactly as often.
proof fn lemma_insert_row_multiset(s: Seq<RenderEntryView>, x: RenderEntryView)
    ensures
        insert_row(s, x).to_multiset() == s.to_multiset().insert(x),
        insert_row(s, x).len() == s.len() + 1,
    decreases s.len(),
{
    broadcast use vstd::seq_lib::group_to_multiset_ensures;

    if s.len() > 0 && !lex_le(s.last().path, x.path) {
        lemma_insert_row_multiset(s.drop_last(), x);
        assert(s.drop_last().push(s.last()) =~= s);
        assert(insert_row(s, x).to_multiset() =~= s.to_multiset().insert(x));
    }
}

/// A row lands where the comparisons put it: `insert_row` keeps sortedness.
proof fn lemma_insert_row_sorted(s: Seq<RenderEntryView>, x: RenderEntryView)
    requires
        vstd::relations::sorted_by(s, row_le()),
    ensures
        vstd::relations::sorted_by(insert_row(s, x), row_le()),
    decreases s.len(),
{
    let p = choose|p: int| insert_pos_at(s, x, p);
    lemma_insert_pos_exists(s, x);
    assert(insert_pos_at(s, x, p));
    lemma_insert_row_at(s, x, p);
    lemma_sorted_insert_at(s, x, p);
}

/// Position `p` is where a row of path `x.path` lands in `s`.
pub open spec fn insert_pos_at(s: Seq<RenderEntryView>, x: RenderEntryView, p: int) -> bool {
    &&& 0 <= p <= s.len()
    &&& forall|j: int| p <= j < s.len() ==> !lex_le(#[trigger] s[j].path, x.path)
    &&& (p > 0 ==> lex_le(s[p - 1].path, x.path))
}

/// Some position always receives the row.
proof fn lemma_insert_pos_exists(s: Seq<RenderEntryView>, x: RenderEntryView)
    ensures
        exists|p: int| insert_pos_at(s, x, p),
    decreases s.len(),
{
    if s.len() == 0 {
        assert(insert_pos_at(s, x, 0));
    } else if lex_le(s.last().path, x.path) {
        assert(insert_pos_at(s, x, s.len() as int));
    } else {
        lemma_insert_pos_exists(s.drop_last(), x);
        let p = choose|p: int| insert_pos_at(s.drop_last(), x, p);
        assert(insert_pos_at(s.drop_last(), x, p));
        assert(forall|j: int| 0 <= j < s.len() - 1 ==> s.drop_last()[j] == s[j]);
        assert(insert_pos_at(s, x, p));
    }
}

/// The position the row lands at: after every row whose path comes no later
/// than its own.
fn insert_pos(out: &Vec<RenderEntry>, x: &RenderEntry) -> (p: usize)
    ensures
        insert_pos_at(rviews(out@), x@, p as int),
{
    let mut p = out.len();
    while p > 0
        invariant
            p <= out@.len(),
            forall|j: int|
                p <= j < out@.len() ==> !lex_le(#[trigger] rviews(out@)[j].path, x@.path),
        decreases p,
    {
        if lex_le_exec(out[p - 1].path.as_str(), x.path.as_str()) {
            return p;
        }
        p = p - 1;
    }
    0
}

/// Inserts one row where the listing order puts it.
fn insert_sorted(out: &mut Vec<RenderEntry>, x: RenderEntry)
    ensures
        rviews(final(out)@) == insert_row(rviews(old(out)@), x@),
{
    let p = insert_pos(out, &x);
    let ghost s = rviews(out@);
    let ghost xv = x@;
    out.insert(p, x);
    proof {
        lemma_insert_row_at(s, xv, p as int);
        assert(rviews(out@) =~= s.take(p as int).push(xv) + s.skip(p as int));
    }
}

/// The rendered listing of a snapshot: its document and directory entries,
/// labeled, sorted by path.
pub fn render_rows(cache: &TreeCache) -> (rows: Vec<RenderEntry>)
    ensures
        rviews(rows@) == rows_spec(cache@),
{
    let mut picked: Vec<RenderEntry> = Vec::new();
    let mut i: usize = 0;
    while i < cache.entries.len()
        invariant
            i <= cache.entries.len(),
            rviews(picked@) == rows_of(
                cache@.subrange(0, i as int).filter(rendered_entry()),
            ),
        decreases cache.entries.len() - i,
    {
        let ghost part = cache@.subrange(0, i as int);
        let ghost ev = cache.entries@[i as int]@;
        let ghost prev = picked@;
        let e = &cache.entries[i];
        let is_md = ends_with_exec(e.tree.path.as_str(), ".md");
        if is_md || e.tree.is_dir {
            proof {
                if !ev.tree.is_dir {
                    lemma_md_segment(ev.tree.path);
                }
            }
            let display = e.display();
            picked.push(
                RenderEntry {
                    path: e.tree.path.clone(),
                    is_dir: e.tree.is_dir,
                    display,
                    source: e.config_entry.clone(),
                    sha: e.tree.sha.clone(),
                },
            );
            proof {
                assert(rviews(picked@) =~= rviews(prev).push(row_of(ev)));
            }
        }
        proof {
            assert(cache@.subrange(0, i + 1) =~= part.push(ev));
            lemma_filter_push(part, rendered_entry(), ev);
            assert(rows_of(part.filter(rendered_entry()).push(ev)) =~= rows_of(
                part.filter(rendered_entry()),
            ).push(row_of(ev)));
        }
        i = i + 1;
    }
    proof {
        assert(cache@.subrange(0, cache@.len() as int) =~= cache@);
    }
    let mut rows: Vec<RenderEntry> = Vec::new();
    let mut j: usize = 0;
    while j < picked.len()
        invariant
            j <= picked.len(),
            rviews(rows@) == sort_rows(rviews(picked@).take(j as int)),
        decreases picked.len() - j,
    {
        insert_sorted(&mut rows, picked[j].clone());
        proof {
            assert(rviews(picked@).take(j + 1).drop_last() =~= rviews(picked@).take(j as int));
            assert(rviews(picked@).take(j + 1).last() == rviews(picked@)[j as int]);
        }
        j = j + 1;
    }
    proof {
        assert(rviews(picked@).take(picked@.len() as int) =~= rviews(picked@));
    }
    rows
}

/// The listing's sort returns the same rows, sorted by path.
pub proof fn lemma_sort_rows_ensures(s: Seq<RenderEntryView>)
    ensures
        vstd::relations::sorted_by(sort_rows(s), row_le()),
        sort_rows(s).to_multiset() == s.to_multiset(),
        sort_rows(s).len() == s.len(),
    decreases s.len(),
{
    broadcast use vstd::seq_lib::group_to_multiset_ensures;

    if s.len() > 0 {
        lemma_sort_rows_ensures(s.drop_last());
        lemma_insert_row_sorted(sort_rows(s.drop_last()), s.last());
        lemma_insert_row_multiset(sort_rows(s.drop_last()), s.last());
        assert(s.drop_last().push(s.last()) =~= s);
        assert(sort_rows(s).to_multiset() =~= s.to_multiset());
    }
}

/// The first entry of the snapshot under the given path that the given
/// source owns, as the retrieval path resolves it.
pub open spec fn find_entry(
    t: Seq<CacheEntryView>,
    path: Seq<char>,
    owner: Seq<char>,
) -> Option<CacheEntryView>
    decreases t.len(),
{
    if t.len() == 0 {
        None
    } else if t[0].tree.path == path && t[0].config_entry == owner {
        Some(t[0])
    } else {
        find_entry(t.drop_first(), path, owner)
    }
}

/// What one document request comes to, before any provider is involved.
#[derive(Debug)]
pub enum RetrieveStep {
    /// The path is not in the tree under that source, or the source is not
    /// configured: nothing is served and no provider is invoked.
    NotFound,
    /// A record still live in the content cache is served, without invoking
    /// any provider.
    Served(Vec<u8>),
    /// No live record exists: the caller is to fetch this content hash from
    /// the owning provider and hand the outcome to
    /// [`crate::content::store_fetched`].
    Fetch(String),
}

/// Serves one document request from the published snapshot and the content
/// cache.  The content cache is read through copy-on-write: stale records are
/// dropped on the way, and it is touched at all only once path and source
/// have resolved.
pub fn retrieve(
    tree: &TreeCache,
    config: &Config,
    content: &mut ContentMap,
    path: &str,
    owner: &str,
    now: u64,
) -> (r: RetrieveStep)
    ensures
        match r {
            RetrieveStep::NotFound => (find_entry(tree@, path@, owner@) is None
                || !config.contains_name(owner@)) && content_map(*final(content)) == content_map(
                *old(content),
            ),
            RetrieveStep::Served(b) => {
                &&& find_entry(tree@, path@, owner@) is Some
                &&& config.contains_name(owner@)
                &&& content_map(*final(content)) == live_part(content_map(*old(content)), now)
                &&& live_part(content_map(*old(content)), now).contains_key(
                    find_entry(tree@, path@, owner@).unwrap().tree.sha,
                )
                &&& b@ == live_part(content_map(*old(content)), now)[find_entry(
                    tree@,
                    path@,
                    owner@,
                ).unwrap().tree.sha].0
            },
            RetrieveStep::Fetch(sha) => {
                &&& find_entry(tree@, path@, owner@) is Some
                &&& config.contains_name(owner@)
                &&& sha@ == find_entry(tree@, path@, owner@).unwrap().tree.sha
                &&& content_map(*final(content)) == live_part(content_map(*old(content)), now)
                &&& !live_part(content_map(*old(content)), now).contains_key(sha@)
            },
        },
{
    let path_s = path.to_owned();
    let owner_s = owner.to_owned();
    let mut i: usize = 0;
    proof {
        assert(tree@.skip(0) =~= tree@);
    }
    while i < tree.entries.len()
        invariant
            i <= tree.entries.len(),
            path_s@ == path@,
            owner_s@ == owner@,
            *content == *old(content),
            find_entry(tree@, path@, owner@) == find_entry(
                tree@.skip(i as int),
                path@,
                owner@,
            ),
        decreases tree.entries.len() - i,
    {
        let e = &tree.entries[i];
        proof {
            assert(tree@.skip(i as int)[0] == tree@[i as int]);
            assert(tree@.skip(i as int).drop_first() =~= tree@.skip(i + 1));
        }
        if e.tree.path == path_s && e.config_entry == owner_s {
            proof {
                assert(tree@.skip(i as int)[0].tree.path == path@);
                assert(tree@.skip(i as int)[0].config_entry == owner@);
                assert(find_entry(tree@, path@, owner@) == Some(tree@[i as int]));
            }
            let sha = e.tree.sha.clone();
            match config.retrieve(owner) {
                Some(_) => {},
                None => {
                    return RetrieveStep::NotFound;
                },
            }
            match lookup(content, &sha, now) {
                Some(b) => {
                    return RetrieveStep::Served(b);
                },
                None => {
                    return RetrieveStep::Fetch(sha);
                },
            }
        }
        i = i + 1;
    }
    proof {
        assert(tree@.skip(tree@.len() as int) =~= Seq::<CacheEntryView>::empty());
    }
    RetrieveStep::NotFound
}

/// The two artifacts a renewal cycle publishes together: the merged tree and
/// the rendering derived from it.  Readers take them as one value, so no
/// reader sees a tree and a rendering from different cycles.
pub struct Published {
    pub tree: TreeCache,
    pub render: String,
}

/// The rows as the template renderer receives them: path, display label,
/// directory flag, source name, content hash.
pub open spec fn plain_rows(rs: Seq<RenderEntryView>) -> Seq<
    (Seq<char>, Seq<char>, bool, Seq<char>, Seq<char>),
> {
    rs.map_values(|r: RenderEntryView| (r.path, r.display, r.is_dir, r.source, r.sha))
}

pub uninterp spec fn rendered_of(
    rows: Seq<(Seq<char>, Seq<char>, bool, Seq<char>, Seq<char>)>,
) -> Option<Seq<char>>;

/// Relies on mustache::compile_str and mustache::Template::render_data_to_string,
/// applied to the fixed listing template written below.  The template holds no
/// partial tag, so compiling and rendering it reads nothing from disk; its
/// interpolation tags name only the four string fields, and the directory
/// flag is only tested by sections, so the renderer meets no value it rejects;
/// the output is then a function of the row data alone.
#[verifier::external_body]
fn render_template(rows: &Vec<RenderEntry>) -> (r: Option<String>)
    ensures
        match (r, rendered_of(plain_rows(rviews(rows@)))) {
            (Some(s), Some(d)) => s@ == d,
            (None, None) => true,
            _ => false,
        },
{
    let t = match mustache::compile_str(
        "<!DOCTYPE html><html><head><meta charset=\"utf-8\"><title>Documentation</title><link rel=\"stylesheet\" href=\"/style.css\"></head><body><ul>{{#tree}}<li>{{#is_dir}}{{display}}{{/is_dir}}{{^is_dir}}<a href=\"/{{path}}?owner={{source}}\">{{display}}</a>{{/is_dir}}</li>{{/tree}}</ul></body></html>",
    ) {
        Ok(t) => t,
        Err(_) => {
            return None;
        },
    };
    let data = mustache::MapBuilder::new().insert_vec("tree", |mut b| {
        for r in rows.iter() {
            b = b.push_map(|m| m.insert_str("path", r.path.as_str()).insert_str("display", r.display.as_str()).insert_str("source", r.source.as_str()).insert_str("sha", r.sha.as_str()).insert_bool("is_dir", r.is_dir));
        }
        b
    }).build();
    t.render_data_to_string(&data).ok()
}

impl Published {
    /// The empty state the service starts from: nothing published yet.
    pub fn new() -> (r: Published)
        ensures
            r.tree@ == Seq::<CacheEntryView>::empty(),
            r.render@ == Seq::<char>::empty(),
    {
        Published { tree: TreeCache::new(), render: String::new() }
    }

    /// The current rendering, exactly as the last successful publication left
    /// it.
    pub fn get(&self) -> (r: &String)
        ensures
            r@ == self.render@,
    {
        &self.render
    }

    /// Publishes a finished renewal cycle.  The rendering is computed first;
    /// on success both artifacts are replaced together.  A renderer failure
    /// is reported, the merged tree is still published, and the previous
    /// rendering stays current.
    pub fn finalize(&mut self, cache: TreeCache) -> (r: Result<(), ()>)
        ensures
            final(self).tree@ == cache@,
            match rendered_of(plain_rows(rows_spec(cache@))) {
                Some(s) => final(self).render@ == s && r is Ok,
                None => final(self).render@ == old(self).render@ && r is Err,
            },
    {
        let rows = render_rows(&cache);
        match render_template(&rows) {
            Some(s) => {
                self.render = s;
                self.tree = cache;
                Ok(())
            },
            None => {
                self.tree = cache;
                Err(())
            },
        }
    }
}

/// The rendered listing is faithful to the snapshot it came from: it holds a
/// row for each document and directory entry of the snapshot — no others,
/// none twice — and its rows come sorted by path.
pub proof fn lemma_render_listing_faithful(t: Seq<CacheEntryView>)
    ensures
        vstd::relations::sorted_by(rows_spec(t), row_le()),
        rows_spec(t).to_multiset() == rows_of(t.filter(rendered_entry())).to_multiset(),
        rows_spec(t).len() == t.filter(rendered_entry()).len(),
{
    lemma_sort_rows_ensures(rows_of(t.filter(rendered_entry())));
}

/// Re-running a renewal on byte-identical provider output changes nothing:
/// the merged tree is the same, and so is the rendering derived from it.
pub proof fn lemma_cycle_idempotent(prev: Seq<CacheEntryView>, ls: Seq<ListingView>)
    requires
        distinct_sources(ls),
    ensures
        merge_spec(merge_spec(prev, ls), ls) == merge_spec(prev, ls),
        rendered_of(plain_rows(rows_spec(merge_spec(merge_spec(prev, ls), ls)))) == rendered_of(
            plain_rows(rows_spec(merge_spec(prev, ls))),
        ),
{
    lemma_renewal_idempotent(prev, ls);
}

} // verus!
