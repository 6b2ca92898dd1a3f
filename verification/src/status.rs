//! The pending-operations status board: which pipeline stages are still
//! running per tile, and the status line shown for them.

use vstd::prelude::*;
use vstd::string::StringExecFns;

use crate::decimal::dec_digits;
use crate::decimal::usize_dec_string;
use crate::geo::GeoLocation;
use crate::scheduler::PendingOperation;
use crate::scheduler::StatusListener;

verus! {

/// The pending operations recorded for one tile (or for no tile, such as
/// font loading).
pub struct StatusEntry {
    pub key: Option<GeoLocation>,
    pub ops: Vec<PendingOperation>,
}

/// Index of the entry with this key, or the length when there is none.
pub open spec fn key_index(s: Seq<StatusEntry>, key: Option<GeoLocation>) -> int
    decreases s.len(),
{
    if s.len() == 0 {
        0
    } else if s.first().key == key {
        0
    } else {
        1 + key_index(s.drop_first(), key)
    }
}

/// What `key_index` finds: the first entry with the key.
pub proof fn lemma_key_index(s: Seq<StatusEntry>, key: Option<GeoLocation>)
    ensures
        0 <= key_index(s, key) <= s.len(),
        key_index(s, key) < s.len() ==> s[key_index(s, key)].key == key,
        forall|k: int| 0 <= k < key_index(s, key) ==> (#[trigger] s[k]).key != key,
    decreases s.len(),
{
    if s.len() > 0 && s.first().key != key {
        let rest = s.drop_first();
        lemma_key_index(rest, key);
        assert(forall|k: int| 0 <= k < rest.len() ==> #[trigger] rest[k] == s[k + 1]);
        assert(s[0] == s.first());
        assert forall|k: int| 0 <= k < key_index(s, key) implies (#[trigger] s[k]).key != key by {
            if k > 0 {
                assert(s[k] == rest[k - 1]);
            }
        }
    }
}

/// How many operations are pending over all entries.
pub open spec fn total_pending(s: Seq<StatusEntry>) -> int
    decreases s.len(),
{
    if s.len() == 0 {
        0
    } else {
        total_pending(s.drop_last()) + s.last().ops@.len()
    }
}

/// Prefixes never count more than the whole.
proof fn lemma_total_pending_prefix(s: Seq<StatusEntry>, i: int)
    requires
        0 <= i <= s.len(),
    ensures
        total_pending(s.subrange(0, i)) <= total_pending(s),
        total_pending(s) >= 0,
    decreases s.len(),
{
    if s.len() == 0 {
        assert(s.subrange(0, i) =~= s);
    } else if i == s.len() {
        assert(s.subrange(0, i) =~= s);
        lemma_total_pending_prefix(s.drop_last(), s.len() - 1);
    } else {
        assert(s.subrange(0, i) =~= s.drop_last().subrange(0, i));
        lemma_total_pending_prefix(s.drop_last(), i);
    }
}

/// Replacing one entry changes the total by the difference of that entry.
proof fn lemma_total_pending_update(s: Seq<StatusEntry>, i: int, e: StatusEntry)
    requires
        0 <= i < s.len(),
    ensures
        total_pending(s.update(i, e)) == total_pending(s) - s[i].ops@.len() + e.ops@.len(),
    decreases s.len(),
{
    let t = s.update(i, e);
    if i == s.len() - 1 {
        assert(t.drop_last() =~= s.drop_last());
        assert(t.last() == e);
    } else {
        assert(t.drop_last() =~= s.drop_last().update(i, e));
        assert(t.last() == s.last());
        lemma_total_pending_update(s.drop_last(), i, e);
    }
}

/// The status line for a pending count: empty when nothing is pending.
pub open spec fn status_of(n: int) -> Seq<char> {
    if n > 0 {
        "Pending: "@ + dec_digits(n as nat)
    } else {
        Seq::empty()
    }
}

/// Whether two entry keys are the same key.
fn key_eq_exec(a: &Option<GeoLocation>, b: &Option<GeoLocation>) -> (r: bool)
    ensures
        r == (a == b),
{
    match (a, b) {
        (Option::None, Option::None) => true,
        (Option::Some(x), Option::Some(y)) => *x == *y,
        _ => false,
    }
}

/// Finds the entry with this key, scanning in order.
fn find_key_index(entries: &Vec<StatusEntry>, location: &Option<GeoLocation>) -> (idx: usize)
    ensures
        idx as int == key_index(entries@, *location),
{
    proof {
        lemma_key_index(entries@, *location);
    }
    let mut idx: usize = 0;
    while idx < entries.len() && !key_eq_exec(&entries[idx].key, location)
        invariant
            0 <= idx <= entries@.len(),
            forall|k: int| 0 <= k < idx ==> (#[trigger] entries@[k]).key != *location,
        decreases entries@.len() - idx,
    {
        idx = idx + 1;
    }
    proof {
        let ki = key_index(entries@, *location);
        if ki < idx {
            assert(entries@[ki].key == *location);
        }
        if (ki > idx) && idx < entries@.len() {
            assert(entries@[idx as int].key == *location);
        }
    }
    idx
}

/// Whether the operation is listed.
fn ops_contains(v: &Vec<PendingOperation>, x: PendingOperation) -> (r: bool)
    ensures
        r == v@.contains(x),
{
    let mut i: usize = 0;
    while i < v.len()
        invariant
            0 <= i <= v@.len(),
            forall|k: int| 0 <= k < i ==> v@[k] != x,
        decreases v@.len() - i,
    {
        if v[i] == x {
            return true;
        }
        i = i + 1;
    }
    false
}

/// Removes the operation from the set, if present.
#[verifier::loop_isolation(false)]
fn ops_remove(v: &mut Vec<PendingOperation>, x: PendingOperation)
    requires
        old(v)@.no_duplicates(),
    ensures
        final(v)@.no_duplicates(),
        final(v)@.to_set() == old(v)@.to_set().remove(x),
        final(v)@.len() <= old(v)@.len(),
        !final(v)@.contains(x),
        forall|y: PendingOperation| final(v)@.contains(y) <==> (old(v)@.contains(y) && y != x),
{
    let mut i: usize = 0;
    while i < v.len()
        invariant
            0 <= i <= v@.len(),
            v@ == old(v)@,
            forall|k: int| 0 <= k < i ==> v@[k] != x,
        decreases v@.len() - i,
    {
        if v[i] == x {
            let ghost before = v@;
            v.remove(i);
            proof {
                before.remove_ensures(i as int);
                assert forall|y: PendingOperation| v@.contains(y) <==> (before.contains(y) && y
                    != x) by {
                    if v@.contains(y) {
                        let k = choose|k: int| 0 <= k < v@.len() && v@[k] == y;
                        if k < i {
                            assert(before[k] == y);
                        } else {
                            assert(before[k + 1] == y);
                        }
                        if y == x {
                            let j = choose|j: int| 0 <= j < v@.len() && v@[j] == x;
                            if j < i {
                                assert(before[j] == x && before[i as int] == x);
                            } else {
                                assert(before[j + 1] == x && before[i as int] == x);
                            }
                        }
                    }
                    if before.contains(y) && y != x {
                        let k = choose|k: int| 0 <= k < before.len() && before[k] == y;
                        if k < i {
                            assert(v@[k] == y);
                        } else {
                            assert(k > i);
                            assert(v@[k - 1] == y);
                        }
                    }
                }
                assert forall|p: int, q: int| 0 <= p < q < v@.len() implies v@[p] != v@[q] by {
                    if q < i {
                        assert(v@[p] == before[p] && v@[q] == before[q]);
                    } else if p < i {
                        assert(v@[p] == before[p] && v@[q] == before[q + 1]);
                    } else {
                        assert(v@[p] == before[p + 1] && v@[q] == before[q + 1]);
                    }
                }
                assert(v@.to_set() =~= before.to_set().remove(x));
            }
            return ;
        }
        i = i + 1;
    }
    proof {
        assert(!v@.contains(x));
        assert(v@.to_set() =~= old(v)@.to_set().remove(x));
    }
}

/// Adds the operation to the set, if absent.
fn ops_insert(v: &mut Vec<PendingOperation>, x: PendingOperation)
    requires
        old(v)@.no_duplicates(),
    ensures
        final(v)@.no_duplicates(),
        final(v)@.to_set() == old(v)@.to_set().insert(x),
        final(v)@.len() <= old(v)@.len() + 1,
        forall|y: PendingOperation| final(v)@.contains(y) <==> (old(v)@.contains(y) || y == x),
{
    if !ops_contains(v, x) {
        let ghost before = v@;
        v.push(x);
        proof {
            assert forall|y: PendingOperation| v@.contains(y) <==> (before.contains(y) || y
                == x) by {
                if v@.contains(y) {
                    let k = choose|k: int| 0 <= k < v@.len() && v@[k] == y;
                    if k < before.len() {
                        assert(before[k] == y);
                    }
                }
                if before.contains(y) {
                    let k = choose|k: int| 0 <= k < before.len() && before[k] == y;
                    assert(v@[k] == y);
                }
                if y == x {
                    assert(v@[before.len() as int] == y);
                }
            }
            assert forall|p: int, q: int| 0 <= p < q < v@.len() implies v@[p] != v@[q] by {
                if q < before.len() {
                    assert(v@[p] == before[p] && v@[q] == before[q]);
                } else {
                    assert(v@[q] == x && v@[p] == before[p]);
                    assert(before.contains(before[p]));
                }
            }
            assert(v@.to_set() =~= before.to_set().insert(x));
        }
    } else {
        proof {
            assert(v@.to_set() =~= old(v)@.to_set().insert(x));
        }
    }
}

/// Tracks the pending operations per tile and tells its listeners the
/// current status line after every change.
pub struct StatusNotifier<L: StatusListener> {
    pending_operations: Vec<StatusEntry>,
    listeners: Vec<L>,
}

impl<L: StatusListener> StatusNotifier<L> {
    /// The recorded entries.
    pub closed spec fn entries(self) -> Seq<StatusEntry> {
        self.pending_operations@
    }

    /// Keys are unique and each entry's operations form a set.
    pub open spec fn wf(self) -> bool {
        &&& forall|i: int, j: int|
            0 <= i < j < self.entries().len() ==> (#[trigger] self.entries()[i]).key != (
            #[trigger] self.entries()[j]).key
        &&& forall|i: int|
            0 <= i < self.entries().len() ==> (#[trigger] self.entries()[i]).ops@.no_duplicates()
    }

    /// The operations pending for one key.
    pub open spec fn ops_of(self, key: Option<GeoLocation>) -> Set<PendingOperation> {
        let idx = key_index(self.entries(), key);
        if idx < self.entries().len() {
            self.entries()[idx].ops@.to_set()
        } else {
            Set::empty()
        }
    }

    pub fn new() -> (r: StatusNotifier<L>)
        ensures
            r.wf(),
            r.entries().len() == 0,
    {
        StatusNotifier { pending_operations: Vec::new(), listeners: Vec::new() }
    }

    /// Registers a consumer of status lines.
    pub fn add_listener(&mut self, listener: L)
        ensures
            final(self).entries() == old(self).entries(),
    {
        self.listeners.push(listener);
    }

    /// The current status line: the total pending count, or nothing when
    /// no operation is pending.
    pub fn status_string(&self) -> (r: String)
        requires
            total_pending(self.entries()) <= usize::MAX,
        ensures
            r@ == status_of(total_pending(self.entries())),
    {
        let mut num_pending: usize = 0;
        let mut i: usize = 0;
        proof {
            assert(self.pending_operations@.subrange(0, 0) =~= Seq::<StatusEntry>::empty());
        }
        while i < self.pending_operations.len()
            invariant
                0 <= i <= self.pending_operations@.len(),
                total_pending(self.pending_operations@) <= usize::MAX,
                num_pending == total_pending(self.pending_operations@.subrange(0, i as int)),
            decreases self.pending_operations@.len() - i,
        {
            let ghost pre = self.pending_operations@.subrange(0, i as int);
            let ghost cur = self.pending_operations@.subrange(0, i + 1);
            proof {
                assert(cur.drop_last() =~= pre);
                assert(cur.last() == self.pending_operations@[i as int]);
                lemma_total_pending_prefix(self.pending_operations@, i + 1);
                lemma_total_pending_prefix(cur, i as int);
            }
            num_pending = num_pending + self.pending_operations[i].ops.len();
            i = i + 1;
        }
        proof {
            assert(self.pending_operations@.subrange(0, i as int) =~= self.pending_operations@);
        }
        if num_pending > 0 {
            let mut s = String::from_str("Pending: ");
            let digits = usize_dec_string(num_pending);
            s.append(digits.as_str());
            proof {
                assert(s@ =~= status_of(total_pending(self.entries())));
            }
            s
        } else {
            let s = String::new();
            proof {
                assert(s@ =~= status_of(total_pending(self.entries())));
            }
            s
        }
    }

    /// Applies removals, then additions, to the entry of `location`
    /// (created empty when missing), and hands every listener the new
    /// status line.
    #[verifier::loop_isolation(false)]
    pub fn update_pending_operations(
        &mut self,
        location: Option<GeoLocation>,
        to_add: &[PendingOperation],
        to_remove: &[PendingOperation],
    )
        requires
            old(self).wf(),
            total_pending(old(self).entries()) + to_add@.len() <= usize::MAX,
        ensures
            final(self).wf(),
            final(self).ops_of(location) == old(self).ops_of(location).difference(
                to_remove@.to_set(),
            ).union(to_add@.to_set()),
            forall|k: Option<GeoLocation>|
                k != location ==> final(self).ops_of(k) == old(self).ops_of(k),
    {
        let ghost entries0 = self.pending_operations@;
        proof {
            lemma_key_index(entries0, location);
        }
        let idx = find_key_index(&self.pending_operations, &location);
        let at_end = idx == self.pending_operations.len();
        if at_end {
            self.pending_operations.push(StatusEntry { key: location, ops: Vec::new() });
        }
        let ghost entries1 = self.pending_operations@;
        let ghost old_ops = if at_end {
            Seq::<PendingOperation>::empty()
        } else {
            entries0[idx as int].ops@
        };
        proof {
            if at_end {
                assert(entries1[idx as int].ops@ =~= Seq::<PendingOperation>::empty());
                assert(entries1.drop_last() =~= entries0);
                assert(total_pending(entries1) == total_pending(entries0));
            }
            assert(entries1[idx as int].ops@ == old_ops);
            assert(old_ops.to_set() == old(self).ops_of(location)) by {
                if at_end {
                    assert(old_ops.to_set() =~= Set::<PendingOperation>::empty());
                }
            }
        }
        let ghost key0 = self.pending_operations@[idx as int].key;
        let mut j: usize = 0;
        let row = &mut self.pending_operations[idx];
        let ghost row_ops0 = row.ops@;
        while j < to_remove.len()
            invariant
                0 <= j <= to_remove@.len(),
                row.key == key0,
                row.ops@.no_duplicates(),
                row.ops@.len() <= row_ops0.len(),
                row.ops@.to_set() == row_ops0.to_set().difference(
                    to_remove@.subrange(0, j as int).to_set(),
                ),
            decreases to_remove@.len() - j,
        {
            let x = to_remove[j];
            ops_remove(&mut row.ops, x);
            proof {
                assert(row.ops@.to_set() =~= row_ops0.to_set().difference(
                    to_remove@.subrange(0, j + 1).to_set(),
                )) by {
                    assert(forall|y: PendingOperation|
                        to_remove@.subrange(0, j + 1).contains(y) <==> (to_remove@.subrange(
                            0,
                            j as int,
                        ).contains(y) || y == x)) by {
                        assert forall|y: PendingOperation|
                            to_remove@.subrange(0, j + 1).contains(y) implies (to_remove@.subrange(
                            0,
                            j as int,
                        ).contains(y) || y == x) by {
                            let k = choose|k: int|
                                0 <= k < j + 1 && #[trigger] to_remove@.subrange(0, j + 1)[k]
                                    == y;
                            if k < j {
                                assert(to_remove@.subrange(0, j as int)[k] == y);
                            }
                        }
                        assert forall|y: PendingOperation|
                            to_remove@.subrange(0, j as int).contains(y) implies to_remove@
                            .subrange(0, j + 1).contains(y) by {
                            let k = choose|k: int|
                                0 <= k < j && #[trigger] to_remove@.subrange(0, j as int)[k]
                                    == y;
                            assert(to_remove@.subrange(0, j + 1)[k] == y);
                        }
                        assert(to_remove@.subrange(0, j + 1)[j as int] == x);
                    }
                }
            }
            j = j + 1;
        }
        proof {
            assert(to_remove@.subrange(0, to_remove@.len() as int) =~= to_remove@);
        }
        let mut j2: usize = 0;
        let ghost row_ops1 = row.ops@;
        while j2 < to_add.len()
            invariant
                0 <= j2 <= to_add@.len(),
                row.key == key0,
                row.ops@.no_duplicates(),
                row.ops@.len() <= row_ops1.len() + j2,
                row.ops@.to_set() == row_ops1.to_set().union(
                    to_add@.subrange(0, j2 as int).to_set(),
                ),
            decreases to_add@.len() - j2,
        {
            let x = to_add[j2];
            ops_insert(&mut row.ops, x);
            proof {
                assert(row.ops@.to_set() =~= row_ops1.to_set().union(
                    to_add@.subrange(0, j2 + 1).to_set(),
                )) by {
                    assert forall|y: PendingOperation|
                        to_add@.subrange(0, j2 + 1).contains(y) implies (to_add@.subrange(
                        0,
                        j2 as int,
                    ).contains(y) || y == x) by {
                        let k = choose|k: int|
                            0 <= k < j2 + 1 && #[trigger] to_add@.subrange(0, j2 + 1)[k] == y;
                        if k < j2 {
                            assert(to_add@.subrange(0, j2 as int)[k] == y);
                        }
                    }
                    assert forall|y: PendingOperation|
                        to_add@.subrange(0, j2 as int).contains(y) implies to_add@.subrange(
                        0,
                        j2 + 1,
                    ).contains(y) by {
                        let k = choose|k: int|
                            0 <= k < j2 && #[trigger] to_add@.subrange(0, j2 as int)[k] == y;
                        assert(to_add@.subrange(0, j2 + 1)[k] == y);
                    }
                    assert(to_add@.subrange(0, j2 + 1)[j2 as int] == x);
                }
            }
            j2 = j2 + 1;
        }
        proof {
            assert(to_add@.subrange(0, to_add@.len() as int) =~= to_add@);
        }
        let ghost entries2 = self.pending_operations@;
        proof {
            assert(entries2 == entries1.update(
                idx as int,
                StatusEntry { key: key0, ops: self.pending_operations@[idx as int].ops },
            )) by {
                assert(entries2 =~= entries1.update(idx as int, entries2[idx as int]));
            }
            lemma_total_pending_update(
                entries1,
                idx as int,
                StatusEntry { key: key0, ops: self.pending_operations@[idx as int].ops },
            );
            assert(self.pending_operations@[idx as int].ops@.len() <= old_ops.len()
                + to_add@.len());
            if at_end {
                assert(total_pending(entries1) == total_pending(entries0));
            }
            assert(total_pending(entries2) <= usize::MAX);
            assert(self.wf()) by {
                assert forall|i: int, j: int|
                    0 <= i < j < entries2.len() implies (#[trigger] entries2[i]).key != (
                #[trigger] entries2[j]).key by {
                    if at_end {
                        assert(j < entries2.len());
                        if j < entries2.len() - 1 {
                            assert(entries2[i].key == entries0[i].key && entries2[j].key
                                == entries0[j].key);
                        } else {
                            assert(entries2[j].key == location);
                            assert(entries2[i].key == entries0[i].key);
                            assert(key_index(entries0, location) == entries0.len());
                        }
                    } else {
                        assert(entries2[i].key == entries0[i].key || i == idx as int);
                        assert(entries2[j].key == entries0[j].key || j == idx as int);
                        assert(entries2[idx as int].key == entries0[idx as int].key);
                    }
                }
            }
        }
        let status = self.status_string();
        let mut li: usize = 0;
        let n = self.listeners.len();
        while li < n
            invariant
                0 <= li <= n,
                n == self.listeners@.len(),
                self.pending_operations@ == entries2,
            decreases n - li,
        {
            let listener = &mut self.listeners[li];
            listener.notify(&status);
            li = li + 1;
        }
        proof {
            lemma_key_index(entries2, location);
            let ki2 = key_index(entries2, location);
            assert(entries2[idx as int].key == location);
            assert(ki2 == idx as int) by {
                if ki2 < idx as int {
                    assert(entries2[ki2].key == location);
                    if at_end && ki2 < entries0.len() {
                        assert(entries0[ki2].key == location);
                    }
                    if !at_end {
                        assert(entries0[ki2].key == location);
                        assert(key_index(entries0, location) == idx as int);
                    }
                }
                if ki2 > idx as int {
                    assert(entries2[idx as int].key != location);
                }
            }
            assert(final(self).ops_of(location) =~= old(self).ops_of(location).difference(
                to_remove@.to_set(),
            ).union(to_add@.to_set()));
            assert forall|k: Option<GeoLocation>| k != location implies final(self).ops_of(k)
                == old(self).ops_of(k) by {
                lemma_key_index(entries0, k);
                lemma_key_index(entries2, k);
                let a = key_index(entries0, k);
                let b = key_index(entries2, k);
                assert forall|t: int|
                    0 <= t < entries2.len() implies (entries2[t].key == k <==> (t
                    < entries0.len() && entries0[t].key == k)) by {
                    if t == idx as int {
                        assert(entries2[t].key == location);
                        if !at_end {
                            assert(entries0[t].key == location);
                        }
                    } else if t < entries0.len() {
                        assert(entries2[t].key == entries0[t].key);
                    }
                }
                if a < entries0.len() {
                    assert(entries2[a].key == k);
                    assert(b == a) by {
                        if b < a {
                            assert(entries2[b].key == k);
                            assert(entries0[b].key == k);
                        }
                        if b > a {
                            assert(entries2[a].key != k);
                        }
                    }
                    assert(entries2[a] == entries0[a]);
                } else {
                    assert(b == entries2.len()) by {
                        if b < entries2.len() {
                            assert(entries2[b].key == k);
                            assert(entries0[b].key == k);
                        }
                    }
                }
                assert(final(self).ops_of(k) =~= old(self).ops_of(k));
            }
        }
    }
}

} // verus!
