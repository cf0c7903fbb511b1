//! An insertion-order-preserving string map: a hashed index from key to slot
//! position paired with an append-only slot array, so lookup is expected
//! constant time while iteration walks the slots in first-insertion order.
//!
//! The model of a map is its slot array: a sequence of (key, value) pairs
//! with pairwise-distinct keys. The spec functions `assoc_idx`, `assoc_get`
//! and `assoc_upsert` define lookup and upsert on that sequence, and every
//! operation's contract is stated over them.

use vstd::prelude::*;
use vstd::hash_map::StringHashMap;

verus! {

/// The keys of an association sequence, in slot order.
pub open spec fn keys_of<A>(s: Seq<(Seq<char>, A)>) -> Seq<Seq<char>> {
    s.map_values(|p: (Seq<char>, A)| p.0)
}

/// The views of a sequence of strings.
pub open spec fn views_of(ss: Seq<String>) -> Seq<Seq<char>> {
    ss.map_values(|s: String| s@)
}

/// No key occurs in two slots.
pub open spec fn distinct_keys<A>(s: Seq<(Seq<char>, A)>) -> bool {
    forall|i: int, j: int| 0 <= i < j < s.len() ==> s[i].0 != s[j].0
}

/// Position of the first slot holding `k`, or `-1` if no slot does.
pub open spec fn assoc_idx<A>(s: Seq<(Seq<char>, A)>, k: Seq<char>) -> int
    decreases s.len(),
{
    if s.len() == 0 {
        -1
    } else if s[0].0 == k {
        0
    } else {
        let r = assoc_idx(s.drop_first(), k);
        if r < 0 {
            -1
        } else {
            1 + r
        }
    }
}

/// Whether some slot holds `k`.
pub open spec fn assoc_has<A>(s: Seq<(Seq<char>, A)>, k: Seq<char>) -> bool {
    assoc_idx(s, k) >= 0
}

/// The value stored under `k`, if any.
pub open spec fn assoc_get<A>(s: Seq<(Seq<char>, A)>, k: Seq<char>) -> Option<A> {
    if assoc_has(s, k) {
        Some(s[assoc_idx(s, k)].1)
    } else {
        None
    }
}

/// Upsert: replace the value in place when `k` is present, append a new slot
/// when it is not.
pub open spec fn assoc_upsert<A>(s: Seq<(Seq<char>, A)>, k: Seq<char>, v: A) -> Seq<
    (Seq<char>, A),
> {
    if assoc_has(s, k) {
        s.update(assoc_idx(s, k), (k, v))
    } else {
        s.push((k, v))
    }
}

/// `assoc_idx` returns `-1` exactly when `k` is absent, and otherwise the
/// smallest position whose slot holds `k`.
pub proof fn lemma_assoc_idx<A>(s: Seq<(Seq<char>, A)>, k: Seq<char>)
    ensures
        assoc_idx(s, k) == -1 <==> (forall|i: int| 0 <= i < s.len() ==> s[i].0 != k),
        assoc_idx(s, k) != -1 ==> 0 <= assoc_idx(s, k) < s.len() && s[assoc_idx(s, k)].0 == k && (
        forall|i: int| 0 <= i < assoc_idx(s, k) ==> s[i].0 != k),
    decreases s.len(),
{
    if s.len() > 0 && s[0].0 != k {
        let t = s.drop_first();
        lemma_assoc_idx(t, k);
        if assoc_idx(t, k) == -1 {
            assert forall|i: int| 0 <= i < s.len() implies s[i].0 != k by {
                if i >= 1 {
                    assert(t[i - 1] == s[i]);
                }
            }
        } else {
            let r = assoc_idx(t, k);
            assert(s[1 + r] == t[r]);
            assert forall|i: int| 0 <= i < 1 + r implies s[i].0 != k by {
                if i >= 1 {
                    assert(t[i - 1] == s[i]);
                }
            }
        }
    }
}

/// A slot that holds `k` with no earlier slot holding `k` is the slot that
/// `assoc_idx` finds.
pub proof fn lemma_assoc_idx_first<A>(s: Seq<(Seq<char>, A)>, k: Seq<char>, i: int)
    requires
        0 <= i < s.len(),
        s[i].0 == k,
        forall|j: int| 0 <= j < i ==> s[j].0 != k,
    ensures
        assoc_idx(s, k) == i,
{
    lemma_assoc_idx(s, k);
}

/// With pairwise-distinct keys, any slot holding `k` is the one found.
pub proof fn lemma_assoc_idx_unique<A>(s: Seq<(Seq<char>, A)>, k: Seq<char>, i: int)
    requires
        distinct_keys(s),
        0 <= i < s.len(),
        s[i].0 == k,
    ensures
        assoc_idx(s, k) == i,
{
    lemma_assoc_idx(s, k);
}

/// `k` is present exactly when it occurs among the keys.
pub proof fn lemma_assoc_has_keys<A>(s: Seq<(Seq<char>, A)>, k: Seq<char>)
    ensures
        assoc_has(s, k) <==> keys_of(s).contains(k),
{
    lemma_assoc_idx(s, k);
    if assoc_has(s, k) {
        assert(keys_of(s)[assoc_idx(s, k)] == k);
    }
    if keys_of(s).contains(k) {
        let i = choose|i: int| 0 <= i < keys_of(s).len() && keys_of(s)[i] == k;
        assert(s[i].0 == k);
    }
}

/// `assoc_idx` depends only on the keys.
pub proof fn lemma_assoc_idx_by_keys<A, B>(s: Seq<(Seq<char>, A)>, t: Seq<(Seq<char>, B)>, k: Seq<char>)
    requires
        keys_of(s) == keys_of(t),
    ensures
        assoc_idx(s, k) == assoc_idx(t, k),
    decreases s.len(),
{
    assert(keys_of(s).len() == s.len());
    assert(keys_of(t).len() == t.len());
    if s.len() > 0 {
        assert(s[0].0 == keys_of(s)[0]);
        assert(t[0].0 == keys_of(t)[0]);
        if s[0].0 != k {
            assert(keys_of(s.drop_first()) =~= keys_of(t.drop_first())) by {
                assert forall|i: int| 0 <= i < s.len() - 1 implies keys_of(s.drop_first())[i]
                    == keys_of(t.drop_first())[i] by {
                    assert(s.drop_first()[i] == s[i + 1]);
                    assert(t.drop_first()[i] == t[i + 1]);
                    assert(keys_of(s)[i + 1] == keys_of(t)[i + 1]);
                }
            }
            lemma_assoc_idx_by_keys(s.drop_first(), t.drop_first(), k);
        }
    }
}

/// What an upsert does to the key order: nothing when the key is present, an
/// append when it is new.
pub proof fn lemma_upsert_keys<A>(s: Seq<(Seq<char>, A)>, k: Seq<char>, v: A)
    ensures
        assoc_has(s, k) ==> keys_of(assoc_upsert(s, k, v)) == keys_of(s),
        !assoc_has(s, k) ==> keys_of(assoc_upsert(s, k, v)) == keys_of(s).push(k),
{
    lemma_assoc_idx(s, k);
    if assoc_has(s, k) {
        assert(keys_of(assoc_upsert(s, k, v)) =~= keys_of(s));
    } else {
        assert(keys_of(assoc_upsert(s, k, v)) =~= keys_of(s).push(k));
    }
}

/// After an upsert, the upserted key holds the new value.
pub proof fn lemma_upsert_get<A>(s: Seq<(Seq<char>, A)>, k: Seq<char>, v: A)
    ensures
        assoc_get(assoc_upsert(s, k, v), k) == Some(v),
{
    let t = assoc_upsert(s, k, v);
    lemma_assoc_idx(s, k);
    if assoc_has(s, k) {
        let i = assoc_idx(s, k);
        assert forall|j: int| 0 <= j < i implies t[j].0 != k by {
            assert(t[j] == s[j]);
        }
        lemma_assoc_idx_first(t, k, i);
    } else {
        let n = s.len() as int;
        assert forall|j: int| 0 <= j < n implies t[j].0 != k by {
            assert(t[j] == s[j]);
        }
        lemma_assoc_idx_first(t, k, n);
    }
}

/// Inserting the same key and value twice: the second upsert changes nothing,
/// so both the stored value and the iteration order stay as they were.
pub proof fn lemma_upsert_idempotent<A>(s: Seq<(Seq<char>, A)>, k: Seq<char>, v: A)
    ensures
        assoc_upsert(assoc_upsert(s, k, v), k, v) == assoc_upsert(s, k, v),
        keys_of(assoc_upsert(assoc_upsert(s, k, v), k, v)) == keys_of(assoc_upsert(s, k, v)),
{
    let t = assoc_upsert(s, k, v);
    lemma_assoc_idx(s, k);
    if assoc_has(s, k) {
        let i = assoc_idx(s, k);
        assert forall|j: int| 0 <= j < i implies t[j].0 != k by {
            assert(t[j] == s[j]);
        }
        lemma_assoc_idx_first(t, k, i);
        assert(assoc_upsert(t, k, v) =~= t);
    } else {
        let n = s.len() as int;
        assert forall|j: int| 0 <= j < n implies t[j].0 != k by {
            assert(t[j] == s[j]);
        }
        lemma_assoc_idx_first(t, k, n);
        assert(assoc_upsert(t, k, v) =~= t);
    }
}

/// A sequence of upserts applied left to right.
pub open spec fn apply_upserts<A>(s: Seq<(Seq<char>, A)>, ops: Seq<(Seq<char>, A)>) -> Seq<
    (Seq<char>, A),
>
    decreases ops.len(),
{
    if ops.len() == 0 {
        s
    } else {
        apply_upserts(assoc_upsert(s, ops[0].0, ops[0].1), ops.drop_first())
    }
}

/// Updates to keys that are already present never change the iteration order.
pub proof fn lemma_updates_keep_order<A>(s: Seq<(Seq<char>, A)>, ops: Seq<(Seq<char>, A)>)
    requires
        forall|i: int| 0 <= i < ops.len() ==> keys_of(s).contains(#[trigger] ops[i].0),
    ensures
        keys_of(apply_upserts(s, ops)) == keys_of(s),
    decreases ops.len(),
{
    if ops.len() > 0 {
        let k = ops[0].0;
        let v = ops[0].1;
        assert(keys_of(s).contains(k));
        lemma_assoc_has_keys(s, k);
        lemma_upsert_keys(s, k, v);
        let s2 = assoc_upsert(s, k, v);
        assert forall|i: int| 0 <= i < ops.drop_first().len() implies keys_of(s2).contains(
            #[trigger] ops.drop_first()[i].0,
        ) by {
            assert(ops.drop_first()[i] == ops[i + 1]);
        }
        lemma_updates_keep_order(s2, ops.drop_first());
    }
}

/// Upserting pairs whose keys are new and pairwise distinct appends their
/// keys in the order given.
pub proof fn lemma_inserts_extend<A>(s: Seq<(Seq<char>, A)>, pairs: Seq<(Seq<char>, A)>)
    requires
        distinct_keys(pairs),
        forall|i: int| 0 <= i < pairs.len() ==> !keys_of(s).contains(#[trigger] pairs[i].0),
    ensures
        keys_of(apply_upserts(s, pairs)) == keys_of(s) + keys_of(pairs),
    decreases pairs.len(),
{
    if pairs.len() == 0 {
        assert(keys_of(s) + keys_of(pairs) =~= keys_of(s));
    } else {
        let k = pairs[0].0;
        let v = pairs[0].1;
        lemma_assoc_has_keys(s, k);
        lemma_upsert_keys(s, k, v);
        let s2 = assoc_upsert(s, k, v);
        assert(keys_of(s2) == keys_of(s).push(k));
        let rest = pairs.drop_first();
        assert forall|i: int| 0 <= i < rest.len() implies !keys_of(s2).contains(
            #[trigger] rest[i].0,
        ) by {
            assert(rest[i] == pairs[i + 1]);
            assert(pairs[0].0 != pairs[i + 1].0);
            if keys_of(s2).contains(rest[i].0) {
                let j = choose|j: int|
                    0 <= j < keys_of(s2).len() && keys_of(s2)[j] == rest[i].0;
                if j < keys_of(s).len() {
                    assert(keys_of(s)[j] == rest[i].0);
                }
            }
        }
        assert forall|i: int, j: int| 0 <= i < j < rest.len() implies rest[i].0 != rest[j].0 by {
            assert(rest[i] == pairs[i + 1]);
            assert(rest[j] == pairs[j + 1]);
        }
        lemma_inserts_extend(s2, rest);
        assert(keys_of(rest) =~= keys_of(pairs).drop_first());
        assert(keys_of(s).push(k) + keys_of(pairs).drop_first() =~= keys_of(s) + keys_of(pairs));
    }
}

/// For any run of insertions under distinct new keys followed by any run of
/// updates to keys among them, the iteration order is exactly the order of
/// the first insertions, whatever the updates did.
pub proof fn lemma_first_insertion_order<A>(
    inserts: Seq<(Seq<char>, A)>,
    updates: Seq<(Seq<char>, A)>,
)
    requires
        distinct_keys(inserts),
        forall|i: int| 0 <= i < updates.len() ==> keys_of(inserts).contains(
            #[trigger] updates[i].0,
        ),
    ensures
        keys_of(apply_upserts(apply_upserts(Seq::empty(), inserts), updates)) == keys_of(inserts),
{
    let empty = Seq::<(Seq<char>, A)>::empty();
    assert(forall|i: int| 0 <= i < inserts.len() ==> !keys_of(empty).contains(
        #[trigger] inserts[i].0,
    ));
    lemma_inserts_extend(empty, inserts);
    let filled = apply_upserts(empty, inserts);
    assert(keys_of(filled) == keys_of(empty) + keys_of(inserts));
    assert(keys_of(empty) + keys_of(inserts) =~= keys_of(inserts));
    lemma_updates_keep_order(filled, updates);
}

/// The order-preserving string map: `slots` is the append-only slot array in
/// first-insertion order, `index` the hashed position of each key in it.
pub struct OrderedHashMap<V> {
    slots: Vec<(String, V)>,
    index: StringHashMap<usize>,
}

impl<V> OrderedHashMap<V> {
    /// The model: the slot array with keys abstracted to character sequences.
    pub closed spec fn entries(&self) -> Seq<(Seq<char>, V)> {
        self.slots@.map_values(|p: (String, V)| (p.0@, p.1))
    }

    /// The hashed index agrees with the slot array in both directions.
    pub closed spec fn wf(&self) -> bool {
        &&& forall|i: int|
            0 <= i < self.slots@.len() ==> self.index@.contains_key(
                #[trigger] self.slots@[i].0@,
            ) && self.index@[self.slots@[i].0@] == i
        &&& forall|k: Seq<char>|
            #[trigger] self.index@.contains_key(k) ==> 0 <= self.index@[k] < self.slots@.len()
                && self.slots@[self.index@[k] as int].0@ == k
    }

    /// A well-formed map has pairwise-distinct keys.
    pub proof fn lemma_wf_distinct(&self)
        requires
            self.wf(),
        ensures
            distinct_keys(self.entries()),
    {
        assert forall|i: int, j: int|
            0 <= i < j < self.entries().len() implies self.entries()[i].0
            != self.entries()[j].0 by {
            assert(self.entries()[i].0 == self.slots@[i].0@);
            assert(self.entries()[j].0 == self.slots@[j].0@);
        }
    }

    /// An empty map.
    pub fn new() -> (r: OrderedHashMap<V>)
        ensures
            r.wf(),
            r.entries() == Seq::<(Seq<char>, V)>::empty(),
    {
        let r = OrderedHashMap { slots: Vec::new(), index: StringHashMap::new() };
        proof {
            assert(r.entries() =~= Seq::<(Seq<char>, V)>::empty());
        }
        r
    }

    /// Number of entries.
    pub fn len(&self) -> (n: usize)
        ensures
            n == self.entries().len(),
    {
        self.slots.len()
    }

    /// Hashed lookup; the slot order is untouched.
    pub fn get<'a>(&'a self, k: &str) -> (r: Option<&'a V>)
        requires
            self.wf(),
        ensures
            match r {
                Some(v) => assoc_get(self.entries(), k@) == Some(*v),
                None => assoc_get(self.entries(), k@) is None,
            },
    {
        proof {
            self.lemma_wf_distinct();
        }
        match self.index.get(k) {
            Some(i) => {
                let i: usize = *i;
                proof {
                    assert(self.entries()[i as int].0 == self.slots@[i as int].0@);
                    lemma_assoc_idx_unique(self.entries(), k@, i as int);
                }
                Some(&self.slots[i].1)
            },
            None => {
                proof {
                    lemma_assoc_idx(self.entries(), k@);
                    assert forall|i: int| 0 <= i < self.entries().len()
                        implies self.entries()[i].0 != k@ by {
                        assert(self.entries()[i].0 == self.slots@[i].0@);
                    }
                }
                None
            },
        }
    }

    /// Upsert. A present key keeps its slot, and its old value comes back; a
    /// new key is appended to the order.
    pub fn insert(&mut self, k: String, v: V) -> (prev: Option<V>)
        requires
            old(self).wf(),
        ensures
            final(self).wf(),
            final(self).entries() == assoc_upsert(old(self).entries(), k@, v),
            match prev {
                Some(p) => assoc_get(old(self).entries(), k@) == Some(p),
                None => assoc_get(old(self).entries(), k@) is None,
            },
    {
        proof {
            self.lemma_wf_distinct();
        }
        let ghost es = self.entries();
        let found: Option<usize> = match self.index.get(k.as_str()) {
            Some(i) => Some(*i),
            None => None,
        };
        match found {
            Some(i) => {
                proof {
                    assert(es[i as int].0 == self.slots@[i as int].0@);
                    lemma_assoc_idx_unique(es, k@, i as int);
                }
                let slot = &mut self.slots[i];
                let mut tmp = v;
                core::mem::swap(&mut slot.1, &mut tmp);
                proof {
                    assert(self.slots@ == old(self).slots@.update(
                        i as int,
                        (old(self).slots@[i as int].0, v),
                    ));
                    assert(self.entries() =~= assoc_upsert(es, k@, v));
                    assert forall|j: int|
                        0 <= j < self.slots@.len() implies self.index@.contains_key(
                        #[trigger] self.slots@[j].0@,
                    ) && self.index@[self.slots@[j].0@] == j by {
                        assert(self.slots@[j].0 == old(self).slots@[j].0);
                    }
                }
                Some(tmp)
            },
            None => {
                proof {
                    lemma_assoc_idx(es, k@);
                    assert forall|i: int| 0 <= i < es.len() implies es[i].0 != k@ by {
                        assert(es[i].0 == self.slots@[i].0@);
                        assert(self.index@.contains_key(self.slots@[i].0@));
                    }
                }
                let n = self.slots.len();
                let key_copy = k.clone();
                self.index.insert(key_copy, n);
                self.slots.push((k, v));
                proof {
                    assert(self.entries() =~= es.push((k@, v)));
                    assert forall|j: int|
                        0 <= j < self.slots@.len() implies self.index@.contains_key(
                        #[trigger] self.slots@[j].0@,
                    ) && self.index@[self.slots@[j].0@] == j by {
                        if j < n {
                            assert(self.slots@[j].0 == old(self).slots@[j].0);
                            assert(old(self).index@.contains_key(self.slots@[j].0@));
                            assert(self.slots@[j].0@ != k@);
                        }
                    }
                    assert forall|kk: Seq<char>| #[trigger]
                        self.index@.contains_key(kk) implies 0 <= self.index@[kk]
                        < self.slots@.len() && self.slots@[self.index@[kk] as int].0@ == kk by {
                        if kk != k@ {
                            assert(old(self).index@.contains_key(kk));
                            assert(self.slots@[self.index@[kk] as int].0 == old(
                                self,
                            ).slots@[self.index@[kk] as int].0);
                        }
                    }
                }
                None
            },
        }
    }

    /// The slot for `key`, as a mutable handle; the slot is created holding
    /// `default`, appended to the order, only when `key` was absent.
    pub fn entry<'a>(&'a mut self, key: String, default: V) -> (r: &'a mut V)
        requires
            old(self).wf(),
        ensures
            final(self).wf(),
            assoc_has(old(self).entries(), key@) ==> assoc_get(old(self).entries(), key@) == Some(
                *r,
            ) && final(self).entries() =~= old(self).entries().update(
                assoc_idx(old(self).entries(), key@),
                (key@, *final(r)),
            ),
            !assoc_has(old(self).entries(), key@) ==> *r == default && final(self).entries()
                =~= old(self).entries().push((key@, *final(r))),
    {
        proof {
            self.lemma_wf_distinct();
        }
        let ghost es = self.entries();
        let found: Option<usize> = match self.index.get(key.as_str()) {
            Some(i) => Some(*i),
            None => None,
        };
        let idx: usize;
        match found {
            Some(i) => {
                idx = i;
                proof {
                    assert(es[i as int].0 == self.slots@[i as int].0@);
                    lemma_assoc_idx_unique(es, key@, i as int);
                }
            },
            None => {
                proof {
                    lemma_assoc_idx(es, key@);
                    assert forall|i: int| 0 <= i < es.len() implies es[i].0 != key@ by {
                        assert(es[i].0 == self.slots@[i].0@);
                        assert(self.index@.contains_key(self.slots@[i].0@));
                    }
                }
                let n = self.slots.len();
                let key_copy = key.clone();
                self.index.insert(key_copy, n);
                self.slots.push((key, default));
                idx = n;
                proof {
                    assert forall|j: int|
                        0 <= j < self.slots@.len() implies self.index@.contains_key(
                        #[trigger] self.slots@[j].0@,
                    ) && self.index@[self.slots@[j].0@] == j by {
                        if j < n {
                            assert(self.slots@[j].0 == old(self).slots@[j].0);
                            assert(old(self).index@.contains_key(self.slots@[j].0@));
                        }
                    }
                    assert forall|kk: Seq<char>| #[trigger]
                        self.index@.contains_key(kk) implies 0 <= self.index@[kk]
                        < self.slots@.len() && self.slots@[self.index@[kk] as int].0@ == kk by {
                        if kk != key@ {
                            assert(old(self).index@.contains_key(kk));
                            assert(self.slots@[self.index@[kk] as int].0 == old(
                                self,
                            ).slots@[self.index@[kk] as int].0);
                        }
                    }
                }
            },
        }
        let slot = &mut self.slots[idx];
        &mut slot.1
    }

    /// The entry in slot `i`.
    pub fn get_at<'a>(&'a self, i: usize) -> (r: (&'a String, &'a V))
        requires
            i < self.entries().len(),
        ensures
            r.0@ == self.entries()[i as int].0,
            *r.1 == self.entries()[i as int].1,
    {
        let slot = &self.slots[i];
        proof {
            assert(self.entries()[i as int] == (slot.0@, slot.1));
        }
        (&slot.0, &slot.1)
    }

    /// The keys, cloned, in first-insertion order.
    pub fn keys(&self) -> (r: Vec<String>)
        ensures
            views_of(r@) == keys_of(self.entries()),
    {
        let n = self.slots.len();
        let mut r: Vec<String> = Vec::new();
        let mut i: usize = 0;
        while i < n
            invariant
                i <= n == self.slots@.len(),
                views_of(r@) == keys_of(self.entries()).take(i as int),
            decreases n - i,
        {
            let ghost prev = r@;
            let kc = self.slots[i].0.clone();
            r.push(kc);
            proof {
                assert(keys_of(self.entries())[i as int] == self.slots@[i as int].0@);
                assert(views_of(r@) =~= views_of(prev).push(kc@));
                assert(keys_of(self.entries()).take(i + 1) =~= keys_of(self.entries()).take(
                    i as int,
                ).push(keys_of(self.entries())[i as int]));
            }
            i += 1;
        }
        proof {
            assert(keys_of(self.entries()).take(n as int) =~= keys_of(self.entries()));
        }
        r
    }

    /// A cursor over the entries in slot order.
    pub fn iter<'a>(&'a self) -> (it: Iter<'a, V>)
        ensures
            it.remaining() == self.entries(),
    {
        let it = Iter { m: self, pos: 0 };
        proof {
            assert(self.entries().skip(0) =~= self.entries());
        }
        it
    }

    /// A position cursor for walking the entries in slot order while
    /// replacing values in place.
    pub fn iter_mut(&mut self) -> (it: IterMut)
        ensures
            final(self).entries() == old(self).entries(),
            final(self).wf() == old(self).wf(),
            it.position() == 0,
    {
        IterMut { pos: 0 }
    }
}

/// A read-only cursor over an `OrderedHashMap`, yielding the entries in
/// first-insertion order.
pub struct Iter<'a, V> {
    m: &'a OrderedHashMap<V>,
    pos: usize,
}

impl<'a, V> Iter<'a, V> {
    /// The entries not yet yielded.
    pub closed spec fn remaining(&self) -> Seq<(Seq<char>, V)> {
        if self.pos <= self.m.entries().len() {
            self.m.entries().skip(self.pos as int)
        } else {
            Seq::empty()
        }
    }

    /// The next entry in slot order, if one is left.
    pub fn next(&mut self) -> (r: Option<(&'a String, &'a V)>)
        ensures
            old(self).remaining().len() == 0 ==> r is None && final(self).remaining() == old(
                self,
            ).remaining(),
            old(self).remaining().len() > 0 ==> match r {
                Some(kv) => kv.0@ == old(self).remaining()[0].0 && *kv.1 == old(
                    self,
                ).remaining()[0].1 && final(self).remaining() == old(self).remaining().drop_first(),
                None => false,
            },
    {
        if self.pos < self.m.slots.len() {
            let slot = &self.m.slots[self.pos];
            proof {
                assert(self.m.entries()[self.pos as int] == (slot.0@, slot.1));
                assert(self.m.entries().skip(self.pos + 1) =~= self.m.entries().skip(
                    self.pos as int,
                ).drop_first());
            }
            self.pos = self.pos + 1;
            Some((&slot.0, &slot.1))
        } else {
            None
        }
    }
}

/// A position cursor for in-place value replacement: each `next` call hands
/// back the key and a mutable handle on the value at the current position,
/// and the order never changes.
pub struct IterMut {
    pos: usize,
}

impl IterMut {
    /// The position of the next entry to yield.
    pub closed spec fn position(&self) -> int {
        self.pos as int
    }

    /// The position is never negative.
    pub proof fn lemma_position_nonneg(&self)
        ensures
            self.position() >= 0,
    {
    }

    /// Whether a call of `next` on `m` has an entry left to yield.
    pub fn has_next<V>(&self, m: &OrderedHashMap<V>) -> (r: bool)
        ensures
            r == (self.position() < m.entries().len()),
    {
        self.pos < m.slots.len()
    }

    /// The next entry of `m` in slot order, its value mutable in place.
    pub fn next<'a, V>(&mut self, m: &'a mut OrderedHashMap<V>) -> (r: (String, &'a mut V))
        requires
            old(m).wf(),
            old(self).position() < old(m).entries().len(),
        ensures
            ({
                let i = old(self).position();
                &&& r.0@ == old(m).entries()[i].0
                &&& *r.1 == old(m).entries()[i].1
                &&& final(m).entries() =~= old(m).entries().update(i, (r.0@, *final(r.1)))
                &&& final(m).wf()
                &&& final(self).position() == i + 1
            }),
    {
        let n = m.slots.len();
        let i = self.pos;
        self.pos = i + 1;
        proof {
            assert(i < n);
            assert(m.entries()[i as int] == (m.slots@[i as int].0@, m.slots@[i as int].1));
        }
        let slot = &mut m.slots[i];
        let key_copy = slot.0.clone();
        (key_copy, &mut slot.1)
    }
}

} // verus!
