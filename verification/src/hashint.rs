use vstd::prelude::*;

use crate::backstore::{empty_slots, BackStore};
use crate::ring::{ring_index, wrap_add};

verus! {

/// Errors of the hash table.
#[derive(Debug, Clone, Copy, PartialEq, Eq, Structural)]
pub enum HashError {
    MmapFailed,
    Full,
}

/// An entry of the table: a key and its value.
pub struct HashVal<T> {
    pub id: usize,
    pub val: T,
}

/// The slots of a table.
pub type Slots<T> = Seq<Option<HashVal<T>>>;

/// The slot where the search for key `k` starts in a table of `n` slots.
pub open spec fn home(k: usize, n: nat) -> int {
    (k as int) % (n as int)
}

/// The slot visited `j` steps after the home slot of `k`.
pub open spec fn probe<T>(s: Slots<T>, k: usize, j: int) -> int {
    wrap_add(home(k, s.len()), j, s.len() as int)
}

/// The slot `j` steps after the home slot of `k` is in use.
pub open spec fn occupied_at<T>(s: Slots<T>, k: usize, j: int) -> bool {
    s[probe(s, k, j)] is Some
}

/// Slot `p` holds an entry for `k`.
pub open spec fn entry_has<T>(s: Slots<T>, p: int, k: usize) -> bool {
    s[p] matches Some(x) && x.id == k
}

/// The slot `j` steps after the home slot of `k` holds an entry for `k`.
pub open spec fn holds_at<T>(s: Slots<T>, k: usize, j: int) -> bool {
    s[probe(s, k, j)] matches Some(x) && x.id == k
}

/// Every entry is reached from the home slot of its key without crossing an empty slot.
pub open spec fn no_gap<T>(s: Slots<T>) -> bool {
    forall|k: usize, e: int, j: int|
        #![trigger holds_at(s, k, e), occupied_at(s, k, j)]
        0 <= j < e < s.len() && holds_at(s, k, e) ==> occupied_at(s, k, j)
}

/// Every slot is in use.
pub open spec fn all_occupied<T>(s: Slots<T>) -> bool {
    forall|p: int| 0 <= p < s.len() ==> (#[trigger] s[p]) is Some
}

/// No two entries share a key.
pub open spec fn distinct_ids<T>(s: Slots<T>) -> bool {
    forall|p: int, q: int|
        0 <= p < q < s.len() && (#[trigger] s[p]) is Some && (#[trigger] s[q]) is Some ==> s[p]->Some_0.id
            != s[q]->Some_0.id
}

/// Steps from the home slot of `k`, from step `j` on, to the first entry for `k`.
pub open spec fn first_copy<T>(s: Slots<T>, k: usize, j: nat) -> Option<nat>
    decreases s.len() - j,
{
    if j >= s.len() {
        None
    } else if holds_at(s, k, j as int) {
        Some(j)
    } else {
        first_copy(s, k, j + 1)
    }
}

/// Steps from the home slot of `k`, from step `j` on, to the first empty slot.
pub open spec fn first_free<T>(s: Slots<T>, k: usize, j: nat) -> Option<nat>
    decreases s.len() - j,
{
    if j >= s.len() {
        None
    } else if !occupied_at(s, k, j as int) {
        Some(j)
    } else {
        first_free(s, k, j + 1)
    }
}

/// The key-value map that the slots represent: each key present maps to the
/// value of its entry nearest to the key's home slot.
pub open spec fn table_view<T>(s: Slots<T>) -> Map<usize, T> {
    Map::new(
        |k: usize| first_copy(s, k, 0) is Some,
        |k: usize| s[probe(s, k, first_copy(s, k, 0)->Some_0 as int)]->Some_0.val,
    )
}

/// The slots after `x` is stored in the first empty slot from its key's home;
/// unchanged when there is none.
pub open spec fn insert_spec<T>(s: Slots<T>, x: HashVal<T>) -> Slots<T> {
    match first_free(s, x.id, 0) {
        Some(d) => s.update(probe(s, x.id, d as int), Some(x)),
        None => s,
    }
}

/// Number of slots in use.
pub open spec fn count<T>(s: Slots<T>) -> nat
    decreases s.len(),
{
    if s.len() == 0 {
        0
    } else {
        count(s.drop_last()) + if s.last() is Some {
            1nat
        } else {
            0nat
        }
    }
}

/// The slots of a table of `m` slots into which the entries of the first `i`
/// slots of `s` were inserted, in slot order.
pub open spec fn rehash_upto<T>(s: Slots<T>, m: nat, i: nat) -> Slots<T>
    decreases i,
{
    if i == 0 {
        empty_slots::<HashVal<T>>(m)
    } else {
        let t = rehash_upto(s, m, (i - 1) as nat);
        match s[i - 1] {
            Some(x) => insert_spec(t, x),
            None => t,
        }
    }
}

/// The map from key to value of the entries in the first `i` slots of `s`,
/// later slots taking precedence.
pub open spec fn entries_view<T>(s: Slots<T>, i: nat) -> Map<usize, T>
    decreases i,
{
    if i == 0 {
        Map::empty()
    } else {
        let m = entries_view(s, (i - 1) as nat);
        match s[i - 1] {
            Some(x) => m.insert(x.id, x.val),
            None => m,
        }
    }
}

pub proof fn lemma_home_bound(k: usize, n: nat)
    requires
        n > 0,
    ensures
        0 <= home(k, n) < n,
{
    vstd::arithmetic::div_mod::lemma_mod_bound(k as int, n as int);
}

/// The first entry for `k` at or after step `j`.
pub proof fn lemma_first_copy<T>(s: Slots<T>, k: usize, j: nat)
    requires
        j <= s.len(),
    ensures
        match first_copy(s, k, j) {
            Some(m) => j <= m < s.len() && holds_at(s, k, m as int) && forall|i: int|
                j <= i < m ==> !#[trigger] holds_at(s, k, i),
            None => forall|i: int| j <= i < s.len() ==> !#[trigger] holds_at(s, k, i),
        },
    decreases s.len() - j,
{
    if j < s.len() && !holds_at(s, k, j as int) {
        lemma_first_copy(s, k, j + 1);
    }
}

/// The first empty slot for `k` at or after step `j`.
pub proof fn lemma_first_free<T>(s: Slots<T>, k: usize, j: nat)
    requires
        j <= s.len(),
    ensures
        match first_free(s, k, j) {
            Some(m) => j <= m < s.len() && !occupied_at(s, k, m as int) && forall|i: int|
                j <= i < m ==> #[trigger] occupied_at(s, k, i),
            None => forall|i: int| j <= i < s.len() ==> #[trigger] occupied_at(s, k, i),
        },
    decreases s.len() - j,
{
    if j < s.len() && occupied_at(s, k, j as int) {
        lemma_first_free(s, k, j + 1);
    }
}

/// Steps from home slot `h` to slot `p` on a ring of `n` slots.
pub open spec fn steps_to(h: int, p: int, n: int) -> int {
    if p >= h {
        p - h
    } else {
        p + n - h
    }
}

/// Each slot is visited once on the probe path of each key.
pub proof fn lemma_probe_path<T>(s: Slots<T>, k: usize)
    requires
        s.len() > 0,
    ensures
        forall|j: int| 0 <= j < s.len() ==> 0 <= #[trigger] probe(s, k, j) < s.len(),
        forall|p: int|
            0 <= p < s.len() ==> 0 <= steps_to(home(k, s.len()), p, s.len() as int) < s.len()
                && probe(s, k, steps_to(home(k, s.len()), p, s.len() as int)) == p,
        forall|i: int, j: int|
            0 <= i < s.len() && 0 <= j < s.len() && #[trigger] probe(s, k, i) == #[trigger] probe(
                s,
                k,
                j,
            ) ==> i == j,
{
    lemma_home_bound(k, s.len());
}

/// A key that the map lacks is held by no slot.
pub proof fn lemma_absent_key<T>(s: Slots<T>, k: usize)
    requires
        s.len() > 0,
        !table_view(s).contains_key(k),
    ensures
        forall|p: int| 0 <= p < s.len() ==> !#[trigger] entry_has(s, p, k),
{
    lemma_first_copy(s, k, 0);
    lemma_probe_path(s, k);
    assert forall|p: int| 0 <= p < s.len() implies !#[trigger] entry_has(s, p, k) by {
        let j = steps_to(home(k, s.len()), p, s.len() as int);
        assert(!holds_at(s, k, j));
    }
}

/// A table has no empty slot exactly when the search for a free slot fails.
pub proof fn lemma_full_iff_no_free<T>(s: Slots<T>, k: usize)
    requires
        s.len() > 0,
    ensures
        all_occupied(s) <==> first_free(s, k, 0) is None,
{
    lemma_first_free(s, k, 0);
    lemma_probe_path(s, k);
    if first_free(s, k, 0) is None {
        assert forall|p: int| 0 <= p < s.len() implies (#[trigger] s[p]) is Some by {
            let j = steps_to(home(k, s.len()), p, s.len() as int);
            assert(occupied_at(s, k, j));
        }
    } else {
        let d = first_free(s, k, 0)->Some_0;
        assert(!occupied_at(s, k, d as int));
        assert(s[probe(s, k, d as int)] is None);
    }
}

/// A table has an empty slot exactly when it holds fewer entries than slots.
pub proof fn lemma_count_full<T>(s: Slots<T>)
    ensures
        count(s) <= s.len(),
        all_occupied(s) <==> count(s) == s.len(),
    decreases s.len(),
{
    if s.len() > 0 {
        lemma_count_full(s.drop_last());
        if all_occupied(s) {
            assert forall|p: int| 0 <= p < s.drop_last().len() implies (#[trigger] s.drop_last()[p]) is Some by {
                assert(s[p] is Some);
            }
            assert(s[s.len() - 1] is Some);
        }
        if count(s) == s.len() {
            assert(s.last() is Some);
            assert(all_occupied(s.drop_last()));
            assert forall|p: int| 0 <= p < s.len() implies (#[trigger] s[p]) is Some by {
                if p < s.len() - 1 {
                    assert(s.drop_last()[p] is Some);
                }
            }
        }
    }
}

/// Filling an empty slot adds one to the count.
pub proof fn lemma_count_fill<T>(s: Slots<T>, p: int, x: HashVal<T>)
    requires
        0 <= p < s.len(),
        s[p] is None,
    ensures
        count(s.update(p, Some(x))) == count(s) + 1,
    decreases s.len(),
{
    let t = s.update(p, Some(x));
    if p == s.len() - 1 {
        assert(t.drop_last() =~= s.drop_last());
    } else {
        assert(t.drop_last() =~= s.drop_last().update(p, Some(x)));
        lemma_count_fill(s.drop_last(), p, x);
    }
}

/// The first `i + 1` slots count one more than the first `i` when slot `i` is in use.
pub proof fn lemma_count_take<T>(s: Slots<T>, i: int)
    requires
        0 <= i < s.len(),
    ensures
        count(s.take(i + 1)) == count(s.take(i)) + if s[i] is Some {
            1nat
        } else {
            0nat
        },
{
    assert(s.take(i + 1).drop_last() =~= s.take(i));
}

/// Storing an entry in the first empty slot from its key's home keeps the
/// table searchable, adds the key to the map when it was absent and leaves
/// the map as it was when the key was present.
pub proof fn lemma_insert_spec<T>(s: Slots<T>, x: HashVal<T>)
    requires
        s.len() > 0,
        no_gap(s),
        first_free(s, x.id, 0) is Some,
    ensures
        insert_spec(s, x).len() == s.len(),
        no_gap(insert_spec(s, x)),
        count(insert_spec(s, x)) == count(s) + 1,
        table_view(insert_spec(s, x)) == if table_view(s).contains_key(x.id) {
            table_view(s)
        } else {
            table_view(s).insert(x.id, x.val)
        },
{
    let n = s.len();
    let d = first_free(s, x.id, 0)->Some_0;
    lemma_first_free(s, x.id, 0);
    lemma_probe_path(s, x.id);
    let pp = probe(s, x.id, d as int);
    let t = s.update(pp, Some(x));
    assert(insert_spec(s, x) == t);
    lemma_count_fill(s, pp, x);
    // the table stays searchable
    assert forall|k: usize, e: int, j: int|
        #![trigger holds_at(t, k, e), occupied_at(t, k, j)]
        0 <= j < e < t.len() && holds_at(t, k, e) implies occupied_at(t, k, j) by {
        lemma_probe_path(s, k);
        if probe(t, k, e) == pp {
            assert(k == x.id);
            assert(e == d);
            assert(occupied_at(s, k, j));
        } else {
            assert(holds_at(s, k, e));
            assert(occupied_at(s, k, j));
        }
    }
    // the map
    let before = table_view(s);
    let after = table_view(t);
    let expected = if before.contains_key(x.id) {
        before
    } else {
        before.insert(x.id, x.val)
    };
    assert forall|k: usize| #[trigger] after.contains_key(k) == expected.contains_key(k) && (
    after.contains_key(k) ==> after[k] == expected[k]) by {
        lemma_probe_path(s, k);
        lemma_first_copy(s, k, 0);
        lemma_first_copy(t, k, 0);
        if k != x.id {
            assert forall|i: int| 0 <= i < n implies #[trigger] holds_at(t, k, i) == holds_at(s, k, i) by {
                if probe(s, k, i) == pp {
                    assert(s[pp] is None);
                }
            }
            match first_copy(s, k, 0) {
                Some(m) => {
                    match first_copy(t, k, 0) {
                        Some(m2) => {
                            if m2 < m {
                                assert(holds_at(s, k, m2 as int));
                            }
                            if m < m2 {
                                assert(holds_at(t, k, m as int));
                            }
                        },
                        None => {
                            assert(holds_at(t, k, m as int));
                        },
                    }
                },
                None => {
                    if first_copy(t, k, 0) is Some {
                        assert(holds_at(s, k, first_copy(t, k, 0)->Some_0 as int));
                    }
                },
            }
        } else {
            assert(holds_at(t, k, d as int));
            match first_copy(s, k, 0) {
                Some(e) => {
                    assert(holds_at(s, k, e as int));
                    if e > d {
                        assert(occupied_at(s, k, d as int));
                    }
                    assert(e != d);
                    assert(holds_at(t, k, e as int));
                    assert forall|i: int| 0 <= i < e implies !#[trigger] holds_at(t, k, i) by {
                        assert(!holds_at(s, k, i));
                    }
                    let m2 = first_copy(t, k, 0)->Some_0;
                    if m2 < e {
                        assert(!holds_at(t, k, m2 as int));
                    }
                },
                None => {
                    assert forall|i: int| 0 <= i < n && i != d implies !#[trigger] holds_at(t, k, i) by {
                        assert(!holds_at(s, k, i));
                    }
                    let m2 = first_copy(t, k, 0)->Some_0;
                    assert(m2 == d);
                },
            }
        }
    }
    assert(after =~= expected);
}

/// Empty slots count zero.
pub proof fn lemma_count_empty<T>(m: nat)
    ensures
        count(empty_slots::<HashVal<T>>(m)) == 0,
    decreases m,
{
    if m > 0 {
        assert(empty_slots::<HashVal<T>>(m).drop_last() =~= empty_slots::<HashVal<T>>((m - 1) as nat));
        lemma_count_empty::<T>((m - 1) as nat);
    }
}

/// Empty slots represent the empty map.
pub proof fn lemma_view_empty<T>(m: nat)
    requires
        m > 0,
    ensures
        table_view(empty_slots::<HashVal<T>>(m)) == Map::<usize, T>::empty(),
        no_gap(empty_slots::<HashVal<T>>(m)),
{
    let s = empty_slots::<HashVal<T>>(m);
    assert forall|k: usize| !(#[trigger] table_view(s).contains_key(k)) by {
        lemma_first_copy(s, k, 0);
        lemma_probe_path(s, k);
        if first_copy(s, k, 0) is Some {
            assert(holds_at(s, k, first_copy(s, k, 0)->Some_0 as int));
        }
    }
    assert(table_view(s) =~= Map::<usize, T>::empty());
}

/// The keys of the entries in the first `i` slots, and, when no key repeats,
/// their values.
pub proof fn lemma_entries_view<T>(s: Slots<T>, i: nat)
    requires
        i <= s.len(),
    ensures
        forall|k: usize|
            #[trigger] entries_view(s, i).contains_key(k) <==> exists|p: int|
                0 <= p < i && #[trigger] entry_has(s, p, k),
        distinct_ids(s) ==> forall|p: int|
            0 <= p < i && (#[trigger] s[p]) is Some ==> entries_view(s, i)[s[p]->Some_0.id]
                == s[p]->Some_0.val,
    decreases i,
{
    if i > 0 {
        lemma_entries_view(s, (i - 1) as nat);
        let prev = entries_view(s, (i - 1) as nat);
        assert forall|k: usize|
            #[trigger] entries_view(s, i).contains_key(k) <==> exists|p: int|
                0 <= p < i && #[trigger] entry_has(s, p, k) by {
            if entries_view(s, i).contains_key(k) {
                if !prev.contains_key(k) {
                    let p = (i - 1) as int;
                    assert(entry_has(s, p, k));
                }
            }
            if exists|p: int| 0 <= p < i && #[trigger] entry_has(s, p, k) {
                let p = choose|p: int| 0 <= p < i && #[trigger] entry_has(s, p, k);
                if p < i - 1 {
                    assert(prev.contains_key(k));
                }
            }
        }
        if distinct_ids(s) {
            assert forall|p: int|
                0 <= p < i && (#[trigger] s[p]) is Some implies entries_view(s, i)[s[p]->Some_0.id]
                == s[p]->Some_0.val by {
                if p < i - 1 {
                    if s[i - 1] is Some {
                        assert(s[p]->Some_0.id != s[i - 1]->Some_0.id);
                    }
                }
            }
        }
    }
}

/// When no key repeats, the map of a table is the map of its entries.
pub proof fn lemma_view_distinct<T>(s: Slots<T>)
    requires
        s.len() > 0,
        distinct_ids(s),
    ensures
        table_view(s) == entries_view(s, s.len()),
{
    let n = s.len();
    lemma_entries_view(s, n);
    let a = table_view(s);
    let b = entries_view(s, n);
    assert forall|k: usize| #[trigger] a.contains_key(k) == b.contains_key(k) && (a.contains_key(k)
        ==> a[k] == b[k]) by {
        lemma_first_copy(s, k, 0);
        lemma_probe_path(s, k);
        if a.contains_key(k) {
            let m = first_copy(s, k, 0)->Some_0;
            let p = probe(s, k, m as int);
            assert(holds_at(s, k, m as int));
            assert(entry_has(s, p, k));
        }
        if b.contains_key(k) {
            let p = choose|p: int| 0 <= p < n && #[trigger] entry_has(s, p, k);
            let j = steps_to(home(k, n), p, n as int);
            assert(holds_at(s, k, j));
        }
    }
    assert(a =~= b);
}

/// Reinserting the entries of the first `i` slots of `s` into `m > |s|`
/// empty slots never runs out of room; the result is searchable, holds as
/// many entries and, when no key repeats, represents those entries.
pub proof fn lemma_rehash<T>(s: Slots<T>, m: nat, i: nat)
    requires
        m > s.len(),
        i <= s.len(),
    ensures
        rehash_upto(s, m, i).len() == m,
        no_gap(rehash_upto(s, m, i)),
        count(rehash_upto(s, m, i)) == count(s.take(i as int)),
        distinct_ids(s) ==> table_view(rehash_upto(s, m, i)) == entries_view(s, i),
    decreases i,
{
    if i == 0 {
        lemma_count_empty::<T>(m);
        lemma_view_empty::<T>(m);
        assert(s.take(0) =~= Seq::<Option<HashVal<T>>>::empty());
    } else {
        lemma_rehash(s, m, (i - 1) as nat);
        let t = rehash_upto(s, m, (i - 1) as nat);
        lemma_count_take(s, i - 1);
        match s[i - 1] {
            Some(x) => {
                lemma_count_full(s.take(i - 1));
                lemma_count_full(t);
                lemma_full_iff_no_free(t, x.id);
                lemma_insert_spec(t, x);
                if distinct_ids(s) {
                    lemma_entries_view(s, (i - 1) as nat);
                    if entries_view(s, (i - 1) as nat).contains_key(x.id) {
                        let p = choose|p: int| 0 <= p < i - 1 && #[trigger] entry_has(s, p, x.id);
                        assert(s[p]->Some_0.id != s[i - 1]->Some_0.id);
                    }
                }
            },
            None => {},
        }
    }
}

/// A hash table from `usize` keys to values with open addressing: an entry is
/// stored in the first empty slot at or after the home slot of its key.
/// Keys are never removed, and inserting a key that is present again stores a
/// second entry that the first one hides.
pub struct HashInt<T> {
    backing_store: BackStore<HashVal<T>>,
}

impl<T> HashInt<T> {
    /// The slots of the table.
    pub closed spec fn slots(&self) -> Slots<T> {
        self.backing_store@
    }

    pub open spec fn wf(&self) -> bool {
        &&& self.slots().len() > 0
        &&& no_gap(self.slots())
    }

    /// The table has no empty slot.
    pub open spec fn is_full(&self) -> bool {
        all_occupied(self.slots())
    }
}

impl<T> View for HashInt<T> {
    type V = Map<usize, T>;

    open spec fn view(&self) -> Map<usize, T> {
        table_view(self.slots())
    }
}

impl<T: Clone> HashInt<T> {
    /// The home slot of `id`.
    fn hash_func(&self, id: usize) -> (h: usize)
        requires
            self.wf(),
        ensures
            h == home(id, self.slots().len()),
    {
        id % self.backing_store.len()
    }

    /// An empty table of `init_len` slots. A table without slots, or one that
    /// cannot be allocated, is refused with `MmapFailed`.
    pub fn new(init_len: usize) -> (r: Result<HashInt<T>, HashError>)
        ensures
            r is Err ==> r == Err::<HashInt<T>, HashError>(HashError::MmapFailed),
            init_len == 0 ==> r is Err,
            r matches Ok(h) ==> h.wf() && h.slots() == empty_slots::<HashVal<T>>(init_len as nat)
                && h@ == Map::<usize, T>::empty(),
    {
        Self::from_store(init_len, BackStore::new(init_len))
    }

    /// The empty table of `init_len` slots built on `store`, the outcome of
    /// allocating them: made exactly when the allocation succeeded, and
    /// `MmapFailed` otherwise.
    pub fn from_store(init_len: usize, store: Result<BackStore<HashVal<T>>, ()>) -> (r: Result<HashInt<T>, HashError>)
        requires
            store matches Ok(s) ==> s.wf() && s@ == empty_slots::<HashVal<T>>(init_len as nat),
        ensures
            r is Ok <==> store is Ok,
            r is Err ==> r == Err::<HashInt<T>, HashError>(HashError::MmapFailed),
            r matches Ok(h) ==> h.wf() && h.slots() == empty_slots::<HashVal<T>>(init_len as nat)
                && h@ == Map::<usize, T>::empty(),
    {
        match store {
            Ok(x) => {
                let h = HashInt { backing_store: x };
                proof {
                    lemma_view_empty::<T>(init_len as nat);
                }
                Ok(h)
            },
            Err(()) => Err(HashError::MmapFailed),
        }
    }

    /// Stores `val` in the first empty slot at or after `pos`, the home slot
    /// of its key.
    fn insert_val(&mut self, pos: usize, val: HashVal<T>) -> (r: Result<(), HashError>)
        requires
            old(self).wf(),
            pos == home(val.id, old(self).slots().len()),
        ensures
            final(self).slots() == insert_spec(old(self).slots(), val),
            first_free(old(self).slots(), val.id, 0) is None <==> r == Err::<(), HashError>(HashError::Full),
            first_free(old(self).slots(), val.id, 0) is Some <==> r is Ok,
    {
        let ghost s = self.slots();
        let n = self.backing_store.len();
        proof {
            lemma_first_free(s, val.id, 0);
            lemma_probe_path(s, val.id);
            lemma_home_bound(val.id, n as nat);
        }
        let mut i: usize = 0;
        while i < n
            invariant
                n == s.len(),
                0 < n,
                pos == home(val.id, n as nat),
                0 <= pos < n,
                i <= n,
                self.slots() == s,
                s == old(self).slots(),
                self.backing_store.wf(),
                forall|j: int| 0 <= j < i ==> #[trigger] occupied_at(s, val.id, j),
            decreases n - i,
        {
            let p = ring_index(pos, i, n);
            if self.backing_store.get(p).is_none() {
                proof {
                    lemma_first_free(s, val.id, 0);
                    let d = first_free(s, val.id, 0)->Some_0;
                    assert(!occupied_at(s, val.id, i as int));
                    if d < i {
                        assert(occupied_at(s, val.id, d as int));
                    }
                    if d > i {
                        assert(occupied_at(s, val.id, i as int));
                    }
                    assert(d == i);
                    assert(p == probe(s, val.id, d as int));
                }
                self.backing_store.set(p, val);
                assert(self.slots() == s.update(p as int, Some(val)));
                return Ok(());
            }
            i = i + 1;
        }
        proof {
            lemma_first_free(s, val.id, 0);
            if first_free(s, val.id, 0) is Some {
                let d = first_free(s, val.id, 0)->Some_0;
                assert(occupied_at(s, val.id, d as int));
            }
        }
        Err(HashError::Full)
    }

    /// A clone of the value stored for `id`, or `None` when `id` is absent.
    pub fn get(&self, id: usize) -> (r: Option<T>)
        requires
            self.wf(),
        ensures
            r is Some <==> self@.contains_key(id),
            r matches Some(v) ==> cloned::<T>(self@[id], v),
    {
        let ghost s = self.slots();
        let n = self.backing_store.len();
        let pos = self.hash_func(id);
        proof {
            lemma_first_copy(s, id, 0);
            lemma_probe_path(s, id);
            lemma_home_bound(id, n as nat);
        }
        let mut i: usize = 0;
        while i < n
            invariant
                n == s.len(),
                0 < n,
                pos == home(id, n as nat),
                0 <= pos < n,
                i <= n,
                self.slots() == s,
                self.wf(),
                forall|j: int| 0 <= j < i ==> !#[trigger] holds_at(s, id, j),
                forall|j: int| 0 <= j < i ==> #[trigger] occupied_at(s, id, j),
            decreases n - i,
        {
            proof {
                lemma_first_copy(s, id, 0);
            }
            let p = ring_index(pos, i, n);
            match self.backing_store.get(p) {
                None => {
                    proof {
                        if first_copy(s, id, 0) is Some {
                            let m = first_copy(s, id, 0)->Some_0;
                            assert(holds_at(s, id, m as int));
                            assert(!occupied_at(s, id, i as int));
                            if m > i {
                                assert(occupied_at(s, id, i as int));
                            }
                        }
                    }
                    return None;
                },
                Some(x) => {
                    if x.id == id {
                        proof {
                            let m = first_copy(s, id, 0)->Some_0;
                            assert(holds_at(s, id, i as int));
                            if m < i {
                                assert(!holds_at(s, id, m as int));
                            }
                        }
                        return Some(x.val.clone());
                    }
                },
            }
            i = i + 1;
        }
        proof {
            lemma_first_copy(s, id, 0);
            if first_copy(s, id, 0) is Some {
                let m = first_copy(s, id, 0)->Some_0;
                assert(!holds_at(s, id, m as int));
            }
        }
        None
    }

    /// Stores `val` for `id`. Refused with `Full` when every slot is in use.
    /// A key that is already present keeps its value: the new entry is
    /// stored behind the old one and hidden by it.
    pub fn insert(&mut self, id: usize, val: T) -> (r: Result<(), HashError>)
        requires
            old(self).wf(),
        ensures
            final(self).wf(),
            final(self).slots().len() == old(self).slots().len(),
            final(self).slots() == insert_spec(old(self).slots(), HashVal { id, val }),
            r is Ok <==> count(old(self).slots()) < old(self).slots().len(),
            distinct_ids(old(self).slots()) && !old(self)@.contains_key(id) ==> distinct_ids(
                final(self).slots(),
            ),
            old(self).is_full() <==> r == Err::<(), HashError>(HashError::Full),
            !old(self).is_full() <==> r is Ok,
            r is Ok ==> count(final(self).slots()) == count(old(self).slots()) + 1,
            final(self)@ == if old(self).is_full() || old(self)@.contains_key(id) {
                old(self)@
            } else {
                old(self)@.insert(id, val)
            },
    {
        let ghost s = self.slots();
        let pos = self.hash_func(id);
        proof {
            lemma_count_full(s);
            lemma_full_iff_no_free(s, id);
            if first_free(s, id, 0) is Some {
                lemma_insert_spec(s, HashVal { id, val });
                if distinct_ids(s) && !table_view(s).contains_key(id) {
                    lemma_absent_key(s, id);
                    let d = first_free(s, id, 0)->Some_0;
                    lemma_first_free(s, id, 0);
                    lemma_probe_path(s, id);
                    let pp = probe(s, id, d as int);
                    let t = insert_spec(s, HashVal { id, val });
                    assert forall|p: int, q: int|
                        0 <= p < q < t.len() && (#[trigger] t[p]) is Some && (#[trigger] t[q]) is Some
                        implies t[p]->Some_0.id != t[q]->Some_0.id by {
                        if p == pp {
                            assert(!entry_has(s, q, id));
                        } else if q == pp {
                            assert(!entry_has(s, p, id));
                        } else {
                            assert(s[p] is Some && s[q] is Some);
                        }
                    }
                }
            }
        }
        self.insert_val(pos, HashVal { id, val })
    }

    /// Grows the table to `new_len` slots, reinserting the entries in slot
    /// order; a `new_len` that is not larger leaves the table as it is. When
    /// the larger table cannot be allocated, the result is `MmapFailed` and the
    /// table is unchanged. When no key repeats, the map is unchanged.
    pub fn resize(&mut self, new_len: usize) -> (r: Result<(), HashError>)
        requires
            old(self).wf(),
        ensures
            final(self).wf(),
            r is Err ==> r == Err::<(), HashError>(HashError::MmapFailed) && final(self).slots() == old(
                self,
            ).slots(),
            new_len <= old(self).slots().len() ==> r is Ok && final(self).slots() == old(self).slots(),
            new_len > old(self).slots().len() && r is Ok ==> final(self).slots() == rehash_upto(
                old(self).slots(),
                new_len as nat,
                old(self).slots().len(),
            ),
            count(final(self).slots()) == count(old(self).slots()),
            distinct_ids(old(self).slots()) ==> final(self)@ == old(self)@,
    {
        let old_len = self.backing_store.len();
        if new_len <= old_len {
            return Ok(());
        }
        self.grow_with(BackStore::new(new_len))
    }

    /// Grows the table onto `store`, the outcome of allocating a larger
    /// store: the entries move into it, in slot order, exactly when the
    /// allocation succeeded; otherwise the result is `MmapFailed` and the
    /// table is unchanged.
    pub fn grow_with(&mut self, store: Result<BackStore<HashVal<T>>, ()>) -> (r: Result<(), HashError>)
        requires
            old(self).wf(),
            store matches Ok(s) ==> s.wf() && s@ == empty_slots::<HashVal<T>>(s@.len()) && s@.len() > old(
                self,
            ).slots().len(),
        ensures
            final(self).wf(),
            r is Ok <==> store is Ok,
            r is Err ==> r == Err::<(), HashError>(HashError::MmapFailed) && final(self).slots() == old(
                self,
            ).slots(),
            store matches Ok(s) ==> final(self).slots() == rehash_upto(
                old(self).slots(),
                s@.len(),
                old(self).slots().len(),
            ),
            count(final(self).slots()) == count(old(self).slots()),
            distinct_ids(old(self).slots()) ==> final(self)@ == old(self)@,
    {
        match store {
            Ok(fresh) => {
                self.rehash_into(fresh);
                Ok(())
            },
            Err(()) => Err(HashError::MmapFailed),
        }
    }

    /// Moves the entries into `fresh`, a larger store of empty slots, in
    /// slot order; the table then uses `fresh`. When no key repeats, the map
    /// is unchanged.
    pub fn rehash_into(&mut self, fresh: BackStore<HashVal<T>>)
        requires
            old(self).wf(),
            fresh.wf(),
            fresh@ == empty_slots::<HashVal<T>>(fresh@.len()),
            fresh@.len() > old(self).slots().len(),
        ensures
            final(self).wf(),
            final(self).slots() == rehash_upto(old(self).slots(), fresh@.len(), old(self).slots().len()),
            count(final(self).slots()) == count(old(self).slots()),
            distinct_ids(old(self).slots()) ==> final(self)@ == old(self)@,
    {
        let ghost s = self.slots();
        let ghost new_len = fresh@.len();
        let old_len = self.backing_store.len();
        let mut old_store = fresh;
        std::mem::swap(&mut self.backing_store, &mut old_store);
        proof {
            lemma_rehash(s, new_len, 0);
        }
        let mut i: usize = 0;
        while i < old_len
            invariant
                old_len == s.len(),
                new_len > old_len,
                i <= old_len,
                old_store.wf(),
                old_store@.len() == old_len,
                forall|j: int| i <= j < old_len ==> old_store@[j] == s[j],
                self.slots() == rehash_upto(s, new_len, i as nat),
                self.slots().len() == new_len,
            decreases old_len - i,
        {
            proof {
                lemma_rehash(s, new_len, i as nat);
                lemma_rehash(s, new_len, (i + 1) as nat);
            }
            if old_store.get(i).is_some() {
                let x = old_store.take(i);
                let pos = self.hash_func(x.id);
                proof {
                    let t = self.slots();
                    lemma_count_take(s, i as int);
                    lemma_count_full(s.take(i as int));
                    lemma_count_full(t);
                    lemma_full_iff_no_free(t, x.id);
                }
                let _ = self.insert_val(pos, x);
            }
            i = i + 1;
        }
        proof {
            lemma_rehash(s, new_len, old_len as nat);
            assert(s.take(old_len as int) =~= s);
            if distinct_ids(s) {
                lemma_view_distinct(s);
            }
        }
    }
}

} // verus!
