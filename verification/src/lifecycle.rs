//! Tile lifecycle bookkeeping: which tiles are resident, and which must be
//! requested or unloaded when the viewer moves.

use vstd::prelude::*;

use crate::geo::GeoLocation;

verus! {

/// The wanted list with duplicates and already-excluded keys removed,
/// keeping the first occurrence order.
pub open spec fn dedup_keep_first(s: Seq<GeoLocation>, seen: Set<GeoLocation>) -> Seq<GeoLocation>
    decreases s.len(),
{
    if s.len() == 0 {
        Seq::empty()
    } else if seen.contains(s.first()) {
        dedup_keep_first(s.drop_first(), seen)
    } else {
        seq![s.first()] + dedup_keep_first(s.drop_first(), seen.insert(s.first()))
    }
}

/// A nonempty sequence holds its head and the elements of its tail.
proof fn lemma_contains_split_first<A>(s: Seq<A>)
    requires
        s.len() > 0,
    ensures
        forall|x: A| s.contains(x) <==> (x == s.first() || s.drop_first().contains(x)),
{
    let rest = s.drop_first();
    assert forall|x: A| s.contains(x) <==> (x == s.first() || rest.contains(x)) by {
        if s.contains(x) {
            let i = choose|i: int| 0 <= i < s.len() && s[i] == x;
            if i > 0 {
                assert(rest[i - 1] == x);
            }
        }
        if rest.contains(x) {
            let i = choose|i: int| 0 <= i < rest.len() && rest[i] == x;
            assert(s[i + 1] == x);
        }
        if x == s.first() {
            assert(s[0] == x);
        }
    }
}

/// A pushed sequence holds its new last element and the old ones.
proof fn lemma_contains_push<A>(s: Seq<A>, v: A)
    ensures
        forall|x: A| s.push(v).contains(x) <==> (s.contains(x) || x == v),
{
    let p = s.push(v);
    assert forall|x: A| p.contains(x) <==> (s.contains(x) || x == v) by {
        if p.contains(x) {
            let i = choose|i: int| 0 <= i < p.len() && p[i] == x;
            if i < s.len() {
                assert(s[i] == x);
            }
        }
        if s.contains(x) {
            let i = choose|i: int| 0 <= i < s.len() && s[i] == x;
            assert(p[i] == x);
        }
        if x == v {
            assert(p[s.len() as int] == x);
        }
    }
}

/// What `dedup_keep_first` keeps: exactly the listed keys outside `seen`,
/// each once.
pub proof fn lemma_dedup_keep_first(s: Seq<GeoLocation>, seen: Set<GeoLocation>)
    ensures
        forall|x: GeoLocation|
            dedup_keep_first(s, seen).contains(x) <==> (s.contains(x) && !seen.contains(x)),
        dedup_keep_first(s, seen).no_duplicates(),
    decreases s.len(),
{
    if s.len() == 0 {
    } else {
        let first = s.first();
        let rest = s.drop_first();
        lemma_contains_split_first(s);
        if seen.contains(first) {
            lemma_dedup_keep_first(rest, seen);
        } else {
            lemma_dedup_keep_first(rest, seen.insert(first));
            let tail = dedup_keep_first(rest, seen.insert(first));
            let whole = seq![first] + tail;
            assert(whole.len() > 0 && whole.first() == first);
            assert(whole.drop_first() =~= tail);
            lemma_contains_split_first(whole);
            assert forall|i: int, j: int| 0 <= i < j < whole.len() implies whole[i] != whole[j] by {
                assert(whole[j] == tail[j - 1]);
                assert(tail.contains(tail[j - 1]));
                if i == 0 {
                    assert(whole[0] == first);
                    assert(!seen.insert(first).contains(tail[j - 1]));
                } else {
                    assert(whole[i] == tail[i - 1]);
                }
            }
            assert(whole.no_duplicates());
        }
    }
}

/// Filtering keeps exactly the listed keys that satisfy the predicate.
proof fn lemma_filter_contains_iff<A>(s: Seq<A>, pred: spec_fn(A) -> bool)
    ensures
        forall|x: A| s.filter(pred).contains(x) <==> (s.contains(x) && pred(x)),
    decreases s.len(),
{
    reveal(Seq::filter);
    if s.len() > 0 {
        lemma_filter_contains_iff(s.drop_last(), pred);
        let rest = s.drop_last();
        assert forall|x: A| s.contains(x) <==> (rest.contains(x) || x == s.last()) by {
            if s.contains(x) {
                let i = choose|i: int| 0 <= i < s.len() && s[i] == x;
                if i < s.len() - 1 {
                    assert(rest[i] == x);
                }
            }
            if rest.contains(x) {
                let i = choose|i: int| 0 <= i < rest.len() && rest[i] == x;
                assert(s[i] == x);
            }
            if x == s.last() {
                assert(s[s.len() - 1] == x);
            }
        }
        if pred(s.last()) {
            let f = rest.filter(pred);
            assert forall|x: A| s.filter(pred).contains(x) <==> (f.contains(x) || x == s.last())
                by {
                if s.filter(pred).contains(x) {
                    let i = choose|i: int| 0 <= i < s.filter(pred).len() && s.filter(pred)[i] == x;
                    if i < f.len() {
                        assert(f[i] == x);
                    }
                }
                if f.contains(x) {
                    let i = choose|i: int| 0 <= i < f.len() && f[i] == x;
                    assert(s.filter(pred)[i] == x);
                }
                if x == s.last() {
                    assert(s.filter(pred)[f.len() as int] == x);
                }
            }
        }
    }
}

/// Whether a key is listed in the vector.
fn vec_contains_location(v: &Vec<GeoLocation>, x: &GeoLocation) -> (r: bool)
    ensures
        r == v@.contains(*x),
{
    let mut i: usize = 0;
    while i < v.len()
        invariant
            0 <= i <= v@.len(),
            forall|k: int| 0 <= k < i ==> v@[k] != *x,
        decreases v@.len() - i,
    {
        if v[i] == *x {
            return true;
        }
        i = i + 1;
    }
    false
}

/// Keeps the keys of `s` that are not in `seen` and not yet kept, in their
/// first-occurrence order.
fn dedup_keep_first_exec(s: &Vec<GeoLocation>, seen: &Vec<GeoLocation>) -> (r: Vec<GeoLocation>)
    ensures
        r@ == dedup_keep_first(s@, seen@.to_set()),
{
    let ghost seen0 = seen@.to_set();
    let mut r: Vec<GeoLocation> = Vec::new();
    let mut i: usize = 0;
    proof {
        assert(s@.skip(0) =~= s@);
        assert(r@.to_set() =~= Set::<GeoLocation>::empty());
        assert(seen0.union(r@.to_set()) =~= seen0);
        assert(r@ + dedup_keep_first(s@, seen0) =~= dedup_keep_first(s@, seen0));
    }
    while i < s.len()
        invariant
            0 <= i <= s@.len(),
            seen0 == seen@.to_set(),
            dedup_keep_first(s@, seen0) == r@ + dedup_keep_first(
                s@.skip(i as int),
                seen0.union(r@.to_set()),
            ),
            forall|x: GeoLocation| r@.contains(x) ==> !seen0.contains(x),
        decreases s@.len() - i,
    {
        let ghost seen_i = seen0.union(r@.to_set());
        let ghost suffix = s@.skip(i as int);
        proof {
            assert(suffix.len() > 0);
            assert(suffix.first() == s@[i as int]);
            assert(suffix.drop_first() =~= s@.skip(i + 1));
        }
        let x = s[i];
        let in_seen = vec_contains_location(seen, &x);
        let in_r = vec_contains_location(&r, &x);
        if !in_seen && !in_r {
            let ghost old_r = r@;
            r.push(x);
            proof {
                assert(r@ =~= old_r + seq![x]);
                assert(r@ =~= old_r.push(x));
                lemma_contains_push(old_r, x);
                assert(r@.to_set() =~= old_r.to_set().insert(x));
                assert(seen_i.insert(x) =~= seen0.union(r@.to_set()));
                assert(dedup_keep_first(suffix, seen_i) == seq![x] + dedup_keep_first(
                    suffix.drop_first(),
                    seen_i.insert(x),
                ));
                assert(old_r + (seq![x] + dedup_keep_first(s@.skip(i + 1), seen0.union(r@.to_set())))
                    =~= r@ + dedup_keep_first(s@.skip(i + 1), seen0.union(r@.to_set())));
            }
        } else {
            proof {
                assert(seen_i.contains(suffix.first()));
                assert(dedup_keep_first(suffix, seen_i) == dedup_keep_first(
                    suffix.drop_first(),
                    seen_i,
                ));
            }
        }
        i = i + 1;
    }
    proof {
        assert(s@.skip(i as int) =~= Seq::<GeoLocation>::empty());
        assert(dedup_keep_first(Seq::empty(), seen0.union(r@.to_set())) =~= Seq::<
            GeoLocation,
        >::empty());
        assert(r@ + Seq::<GeoLocation>::empty() =~= r@);
    }
    r
}

/// Owns the set of resident tiles and computes the request/unload deltas
/// when the wanted range changes.
pub struct TileLifecycleManager {
    loaded: Vec<GeoLocation>,
}

impl TileLifecycleManager {
    /// The resident keys.
    pub closed spec fn loaded_seq(self) -> Seq<GeoLocation> {
        self.loaded@
    }

    /// The resident keys as a set.
    pub open spec fn loaded_set(self) -> Set<GeoLocation> {
        self.loaded_seq().to_set()
    }

    /// Each resident key is tracked once.
    pub open spec fn wf(self) -> bool {
        self.loaded_seq().no_duplicates()
    }

    pub fn new() -> (r: TileLifecycleManager)
        ensures
            r.wf(),
            r.loaded_set() =~= Set::empty(),
    {
        let r = TileLifecycleManager { loaded: Vec::new() };
        proof {
            assert(forall|x: GeoLocation| !r.loaded@.contains(x));
            assert(r.loaded@.to_set() =~= Set::empty());
        }
        r
    }

    /// The resident keys, for display and tests.
    pub fn loaded_locations(&self) -> (r: &Vec<GeoLocation>)
        ensures
            r@ == self.loaded_seq(),
    {
        &self.loaded
    }

    /// Whether a finished tile result may still be committed: the guard
    /// against stale results, checked after a fetch races with an unload
    /// of the same key.
    pub fn is_wanted(&self, location: &GeoLocation) -> (r: bool)
        ensures
            r == self.loaded_set().contains(*location),
    {
        vec_contains_location(&self.loaded, location)
    }

    /// Reconciles the resident set against the wanted range: returns which
    /// tiles to request (wanted but not resident, in wanted order, each
    /// once) and which to unload (resident but no longer wanted); the
    /// resident set becomes exactly the wanted set afterwards.
    pub fn reconcile(&mut self, wanted: &Vec<GeoLocation>) -> (r: (Vec<GeoLocation>, Vec<
        GeoLocation,
    >))
        requires
            old(self).wf(),
        ensures
            r.0@ == dedup_keep_first(wanted@, old(self).loaded_set()),
            r.1@ == old(self).loaded_seq().filter(|l: GeoLocation| !wanted@.contains(l)),
            final(self).wf(),
            final(self).loaded_set() =~= wanted@.to_set(),
            forall|x: GeoLocation|
                r.0@.contains(x) <==> (wanted@.contains(x) && !old(self).loaded_set().contains(x)),
            forall|x: GeoLocation|
                r.1@.contains(x) <==> (old(self).loaded_set().contains(x) && !wanted@.contains(x)),
    {
        let to_request = dedup_keep_first_exec(wanted, &self.loaded);
        let mut to_unload: Vec<GeoLocation> = Vec::new();
        let ghost pred = |l: GeoLocation| !wanted@.contains(l);
        let mut i: usize = 0;
        proof {
            assert(self.loaded@.subrange(0, 0).filter(pred) =~= Seq::<GeoLocation>::empty());
            assert(to_unload@ =~= Seq::<GeoLocation>::empty());
        }
        while i < self.loaded.len()
            invariant
                0 <= i <= self.loaded@.len(),
                pred == (|l: GeoLocation| !wanted@.contains(l)),
                to_unload@ == self.loaded@.subrange(0, i as int).filter(pred),
            decreases self.loaded@.len() - i,
        {
            let ghost prefix = self.loaded@.subrange(0, i as int);
            let ghost prefix1 = self.loaded@.subrange(0, i + 1);
            proof {
                assert(prefix1.drop_last() =~= prefix);
                assert(prefix1.last() == self.loaded@[i as int]);
                reveal(Seq::filter);
            }
            let x = self.loaded[i];
            if !vec_contains_location(wanted, &x) {
                to_unload.push(x);
            }
            i = i + 1;
        }
        proof {
            assert(self.loaded@.subrange(0, self.loaded@.len() as int) =~= self.loaded@);
        }
        let fresh: Vec<GeoLocation> = Vec::new();
        let new_loaded = dedup_keep_first_exec(wanted, &fresh);
        proof {
            assert(fresh@.to_set() =~= Set::<GeoLocation>::empty());
            lemma_dedup_keep_first(wanted@, fresh@.to_set());
            lemma_dedup_keep_first(wanted@, old(self).loaded@.to_set());
            assert(new_loaded@.to_set() =~= wanted@.to_set()) by {
                assert(forall|x: GeoLocation|
                    new_loaded@.contains(x) <==> #[trigger] wanted@.contains(x));
                assert(forall|x: GeoLocation|
                    new_loaded@.contains(x) <==> new_loaded@.to_set().contains(x));
                assert(forall|x: GeoLocation|
                    wanted@.contains(x) <==> wanted@.to_set().contains(x));
            }
        }
        self.loaded = new_loaded;
        proof {
            assert(forall|x: GeoLocation|
                to_unload@.contains(x) <==> (old(self).loaded@.contains(x) && !wanted@.contains(
                    x,
                ))) by {
                lemma_filter_contains_iff(old(self).loaded@, pred);
            }
            assert(forall|x: GeoLocation|
                old(self).loaded@.contains(x) <==> old(self).loaded@.to_set().contains(x));
        }
        (to_request, to_unload)
    }
}

/// Reconciling twice with the same wanted range is idempotent: once the
/// resident set equals the wanted set, a further reconcile with the same
/// range requests nothing and unloads nothing.
pub proof fn lemma_reconcile_idempotent(wanted: Seq<GeoLocation>, loaded: Seq<GeoLocation>)
    requires
        loaded.to_set() == wanted.to_set(),
    ensures
        dedup_keep_first(wanted, loaded.to_set()).len() == 0,
        loaded.filter(|l: GeoLocation| !wanted.contains(l)).len() == 0,
{
    lemma_dedup_keep_first(wanted, loaded.to_set());
    let empty_request = dedup_keep_first(wanted, loaded.to_set());
    assert forall|x: GeoLocation| !empty_request.contains(x) by {
        if empty_request.contains(x) {
            assert(wanted.contains(x));
            assert(wanted.to_set().contains(x));
            assert(loaded.to_set().contains(x));
        }
    }
    if empty_request.len() > 0 {
        assert(empty_request.contains(empty_request[0]));
    }
    let pred = |l: GeoLocation| !wanted.contains(l);
    lemma_filter_contains_iff(loaded, pred);
    let unload = loaded.filter(pred);
    assert forall|x: GeoLocation| !unload.contains(x) by {
        if unload.contains(x) {
            assert(loaded.contains(x) && !wanted.contains(x));
            assert(loaded.to_set().contains(x));
            assert(wanted.to_set().contains(x));
        }
    }
    if unload.len() > 0 {
        assert(unload.contains(unload[0]));
    }
}

} // verus!
