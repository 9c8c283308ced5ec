//! Maps and sets kept in ascending key order.
//!
//! Both are modelled by the plain mathematical collection; the order in which
//! the keys are walked is [`ascending_keys`], the one strictly ascending
//! sequence that lists exactly the keys of the model.

use vstd::prelude::*;

verus! {

/// A key with a total order given by an injective rank.
pub trait SortKey: Copy {
    spec fn rank(self) -> nat;

    proof fn rank_is_injective(a: Self, b: Self)
        requires
            a.rank() == b.rank(),
        ensures
            a == b,
    ;

    fn precedes(self, other: Self) -> (r: bool)
        ensures
            r == (self.rank() < other.rank()),
    ;
}

/// Every key ranks below all the keys after it.
pub open spec fn is_ascending<K: SortKey>(keys: Seq<K>) -> bool {
    forall|i: int, j: int|
        0 <= i < j < keys.len() ==> (#[trigger] keys[i]).rank() < (#[trigger] keys[j]).rank()
}

/// The keys of a set in ascending order.
pub open spec fn ascending_keys<K: SortKey>(keys: Set<K>) -> Seq<K> {
    choose|s: Seq<K>| is_ascending(s) && s.to_set() == keys
}

/// Two ascending sequences over the same keys are the same sequence.
pub proof fn lemma_ascending_unique<K: SortKey>(a: Seq<K>, b: Seq<K>)
    requires
        is_ascending(a),
        is_ascending(b),
        a.to_set() == b.to_set(),
    ensures
        a == b,
    decreases a.len(),
{
    if a.len() == 0 {
        if b.len() > 0 {
            assert(b.to_set().contains(b[0]));
            assert(a.to_set().contains(b[0]));
        }
        assert(a =~= b);
    } else {
        assert(a.to_set().contains(a.last()));
        assert(b.to_set().contains(a.last()));
        let j = choose|j: int| 0 <= j < b.len() && b[j] == a.last();
        assert(b.to_set().contains(b.last()));
        assert(a.to_set().contains(b.last()));
        let i = choose|i: int| 0 <= i < a.len() && a[i] == b.last();
        assert(b.last().rank() <= a.last().rank()) by {
            if i < a.len() - 1 {
                assert(a[i].rank() < a[a.len() - 1].rank());
            }
        }
        assert(a.last().rank() <= b.last().rank()) by {
            if j < b.len() - 1 {
                assert(b[j].rank() < b[b.len() - 1].rank());
            }
        }
        K::rank_is_injective(a.last(), b.last());
        let ra = a.drop_last();
        let rb = b.drop_last();
        assert(ra.to_set() =~= rb.to_set()) by {
            assert forall|k: K| ra.to_set().contains(k) implies rb.to_set().contains(k) by {
                let p = choose|p: int| 0 <= p < ra.len() && ra[p] == k;
                assert(a[p].rank() < a[a.len() - 1].rank());
                assert(a.to_set().contains(a[p]));
                assert(b.to_set().contains(k));
                let q = choose|q: int| 0 <= q < b.len() && b[q] == k;
                assert(q < b.len() - 1);
                assert(rb[q] == k);
            }
            assert forall|k: K| rb.to_set().contains(k) implies ra.to_set().contains(k) by {
                let p = choose|p: int| 0 <= p < rb.len() && rb[p] == k;
                assert(b[p].rank() < b[b.len() - 1].rank());
                assert(b.to_set().contains(b[p]));
                assert(a.to_set().contains(k));
                let q = choose|q: int| 0 <= q < a.len() && a[q] == k;
                assert(q < a.len() - 1);
                assert(ra[q] == k);
            }
        }
        lemma_ascending_unique(ra, rb);
        assert(a =~= ra.push(a.last()));
        assert(b =~= rb.push(b.last()));
    }
}

/// An ascending sequence is the ascending sequence of its own keys.
pub proof fn lemma_ascending_keys<K: SortKey>(s: Seq<K>)
    requires
        is_ascending(s),
    ensures
        ascending_keys(s.to_set()) == s,
{
    let c = ascending_keys(s.to_set());
    assert(is_ascending(s) && s.to_set() == s.to_set());
    lemma_ascending_unique(c, s);
}

/// Whether `kept` lists, in ascending order, those of the first `n` keys that
/// satisfy `pred`.
pub open spec fn keeps_prefix<K: SortKey>(
    keys: Seq<K>,
    n: int,
    kept: Seq<K>,
    pred: spec_fn(K) -> bool,
) -> bool {
    &&& is_ascending(kept)
    &&& forall|k: K| #[trigger]
        kept.contains(k) <==> (exists|j: int| 0 <= j < n && #[trigger] keys[j] == k && pred(k))
}

pub proof fn lemma_keeps_nothing<K: SortKey>(keys: Seq<K>, pred: spec_fn(K) -> bool)
    ensures
        keeps_prefix(keys, 0, Seq::<K>::empty(), pred),
{
}

pub proof fn lemma_keeps_next<K: SortKey>(
    keys: Seq<K>,
    n: int,
    kept: Seq<K>,
    pred: spec_fn(K) -> bool,
)
    requires
        is_ascending(keys),
        0 <= n < keys.len(),
        keeps_prefix(keys, n, kept, pred),
    ensures
        keeps_prefix(
            keys,
            n + 1,
            if pred(keys[n]) {
                kept.push(keys[n])
            } else {
                kept
            },
            pred,
        ),
{
    let next = keys[n];
    if pred(next) {
        let more = kept.push(next);
        assert forall|i: int, j: int| 0 <= i < j < more.len() implies (#[trigger] more[i]).rank() < (
        #[trigger] more[j]).rank() by {
            if j == kept.len() {
                assert(kept.contains(kept[i]));
                let p = choose|p: int| 0 <= p < n && #[trigger] keys[p] == kept[i] && pred(kept[i]);
                assert(keys[p].rank() < keys[n].rank());
            }
        }
        assert forall|k: K| #[trigger] more.contains(k) <==> (exists|j: int|
            0 <= j < n + 1 && #[trigger] keys[j] == k && pred(k)) by {
            if more.contains(k) {
                let i = choose|i: int| 0 <= i < more.len() && more[i] == k;
                if i < kept.len() {
                    assert(kept[i] == k);
                    assert(kept.contains(k));
                } else {
                    assert(keys[n] == k);
                }
            }
            if exists|j: int| 0 <= j < n + 1 && #[trigger] keys[j] == k && pred(k) {
                let j = choose|j: int| 0 <= j < n + 1 && #[trigger] keys[j] == k && pred(k);
                if j < n {
                    assert(kept.contains(k));
                    let i = choose|i: int| 0 <= i < kept.len() && kept[i] == k;
                    assert(more[i] == k);
                } else {
                    assert(more[kept.len() as int] == k);
                }
            }
        }
    } else {
        assert forall|k: K| #[trigger] kept.contains(k) <==> (exists|j: int|
            0 <= j < n + 1 && #[trigger] keys[j] == k && pred(k)) by {
            if exists|j: int| 0 <= j < n + 1 && #[trigger] keys[j] == k && pred(k) {
                let j = choose|j: int| 0 <= j < n + 1 && #[trigger] keys[j] == k && pred(k);
                assert(j < n);
            }
        }
    }
}

/// Once every key has been judged, what was kept are the keys of the filtered
/// set in ascending order.
pub proof fn lemma_keeps_all<K: SortKey>(
    keys: Seq<K>,
    kept: Seq<K>,
    pred: spec_fn(K) -> bool,
    all: Set<K>,
    chosen: Set<K>,
)
    requires
        keeps_prefix(keys, keys.len() as int, kept, pred),
        keys.to_set() == all,
        forall|k: K| #[trigger] chosen.contains(k) == (all.contains(k) && pred(k)),
    ensures
        ascending_keys(chosen) == kept,
        kept.to_set() == chosen,
{
    assert forall|k: K| kept.to_set().contains(k) == chosen.contains(k) by {
        if kept.contains(k) {
            let j = choose|j: int| 0 <= j < keys.len() && #[trigger] keys[j] == k && pred(k);
            assert(keys.to_set().contains(k));
        }
        if chosen.contains(k) {
            assert(keys.to_set().contains(k));
            let j = choose|j: int| 0 <= j < keys.len() && keys[j] == k;
            assert(keys[j] == k && pred(k));
            assert(kept.contains(k));
        }
    }
    assert(kept.to_set() =~= chosen);
    lemma_ascending_keys(kept);
}

pub proof fn lemma_ascending_len<K: SortKey>(s: Seq<K>)
    requires
        is_ascending(s),
    ensures
        s.to_set().finite(),
        s.to_set().len() == s.len(),
{
    assert(s.no_duplicates());
    s.unique_seq_to_set();
}

/// An ascending sequence with one more key.
spec fn with_key<K: SortKey>(s: Seq<K>, key: K) -> Seq<K>
    decreases s.len(),
{
    if s.len() == 0 || s.last().rank() < key.rank() {
        s.push(key)
    } else {
        with_key(s.drop_last(), key).push(s.last())
    }
}

proof fn lemma_with_key<K: SortKey>(s: Seq<K>, key: K)
    requires
        is_ascending(s),
        !s.contains(key),
    ensures
        is_ascending(with_key(s, key)),
        forall|k: K| #[trigger] with_key(s, key).contains(k) == (s.contains(k) || k == key),
    decreases s.len(),
{
    let after = with_key(s, key);
    if s.len() == 0 || s.last().rank() < key.rank() {
        assert forall|i: int, j: int| 0 <= i < j < after.len() implies (
        #[trigger] after[i]).rank() < (#[trigger] after[j]).rank() by {
            if j == s.len() && i < s.len() - 1 {
                assert(s[i].rank() < s[s.len() - 1].rank());
            }
        }
        assert forall|k: K| #[trigger] after.contains(k) == (s.contains(k) || k == key) by {
            if s.contains(k) {
                let i = choose|i: int| 0 <= i < s.len() && s[i] == k;
                assert(after[i] == k);
            }
            assert(after[s.len() as int] == key);
        }
    } else {
        let front = s.drop_last();
        let last = s.last();
        let before = with_key(front, key);
        assert(s[s.len() - 1] == last);
        assert(last != key);
        if last.rank() == key.rank() {
            K::rank_is_injective(last, key);
        }
        assert forall|k: K| front.contains(k) implies s.contains(k) by {
            let i = choose|i: int| 0 <= i < front.len() && front[i] == k;
            assert(s[i] == k);
        }
        lemma_with_key(front, key);
        assert forall|i: int, j: int| 0 <= i < j < after.len() implies (
        #[trigger] after[i]).rank() < (#[trigger] after[j]).rank() by {
            if j == before.len() {
                assert(before.contains(before[i]));
                if before[i] != key {
                    let m = choose|m: int| 0 <= m < front.len() && front[m] == before[i];
                    assert(s[m].rank() < s[s.len() - 1].rank());
                }
            }
        }
        assert forall|k: K| #[trigger] after.contains(k) == (s.contains(k) || k == key) by {
            if before.contains(k) {
                let i = choose|i: int| 0 <= i < before.len() && before[i] == k;
                assert(after[i] == k);
            }
            if s.contains(k) && k != last {
                let i = choose|i: int| 0 <= i < s.len() && s[i] == k;
                assert(front[i] == k);
            }
            assert(after[before.len() as int] == last);
        }
    }
}

/// The keys of a finite set can be listed in ascending order.
pub proof fn law_ascending_keys_list_all<K: SortKey>(keys: Set<K>)
    requires
        keys.finite(),
    ensures
        is_ascending(ascending_keys(keys)),
        ascending_keys(keys).to_set() == keys,
    decreases keys.len(),
{
    if keys.len() == 0 {
        let s = Seq::<K>::empty();
        assert(s.to_set() =~= keys);
        assert(is_ascending(s) && s.to_set() == keys);
    } else {
        let key = keys.choose();
        let fewer = keys.remove(key);
        law_ascending_keys_list_all(fewer);
        let before = ascending_keys(fewer);
        assert(before.to_set().contains(key) == fewer.contains(key));
        lemma_with_key(before, key);
        let s = with_key(before, key);
        assert forall|k: K| #[trigger] s.to_set().contains(k) == keys.contains(k) by {
            assert(before.to_set().contains(k) == fewer.contains(k));
            assert(s.contains(k) == (before.contains(k) || k == key));
        }
        assert(s.to_set() =~= keys);
        assert(is_ascending(s) && s.to_set() == keys);
    }
}

/// Keys in ascending order.
#[derive(Debug)]
struct SortedKeys<K: SortKey> {
    keys: Vec<K>,
}

impl<K: SortKey> View for SortedKeys<K> {
    type V = Seq<K>;

    closed spec fn view(&self) -> Seq<K> {
        self.keys@
    }
}

impl<K: SortKey> SortedKeys<K> {
    #[verifier::type_invariant]
    spec fn sorted(self) -> bool {
        is_ascending(self.keys@)
    }

    fn new() -> (r: Self)
        ensures
            r@ == Seq::<K>::empty(),
    {
        SortedKeys { keys: Vec::new() }
    }

    fn len(&self) -> (n: usize)
        ensures
            n == self@.len(),
            is_ascending(self@),
    {
        proof {
            use_type_invariant(self);
        }
        self.keys.len()
    }

    fn get(&self, i: usize) -> (key: K)
        requires
            i < self@.len(),
        ensures
            key == self@[i as int],
    {
        self.keys[i]
    }

    /// The first position whose key does not precede `key`, and whether that
    /// key is `key`.
    fn position(&self, key: K) -> (r: (usize, bool))
        ensures
            is_ascending(self@),
            r.0 <= self@.len(),
            forall|i: int| 0 <= i < r.0 ==> (#[trigger] self@[i]).rank() < key.rank(),
            forall|i: int| r.0 <= i < self@.len() ==> key.rank() <= (#[trigger] self@[i]).rank(),
            r.1 == self@.contains(key),
            r.1 == (r.0 < self@.len() && self@[r.0 as int] == key),
    {
        proof {
            use_type_invariant(self);
        }
        let mut i: usize = 0;
        while i < self.keys.len() && self.keys[i].precedes(key)
            invariant
                i <= self@.len(),
                forall|j: int| 0 <= j < i ==> (#[trigger] self@[j]).rank() < key.rank(),
            decreases self@.len() - i,
        {
            i += 1;
        }
        let found: bool = i < self.keys.len() && !key.precedes(self.keys[i]);
        proof {
            assert forall|j: int| i <= j < self@.len() implies key.rank() <= (
            #[trigger] self@[j]).rank() by {
                if j > i {
                    assert(self@[i as int].rank() < self@[j].rank());
                }
            }
            if found {
                K::rank_is_injective(key, self@[i as int]);
            }
            if self@.contains(key) {
                let j = choose|j: int| 0 <= j < self@.len() && self@[j] == key;
                if j > i {
                    assert(self@[i as int].rank() < self@[j].rank());
                }
            }
        }
        (i, found)
    }

    /// Puts a new key between those that precede it and those that follow it.
    fn insert(&mut self, i: usize, key: K)
        requires
            i <= old(self)@.len(),
            forall|j: int| 0 <= j < i ==> (#[trigger] old(self)@[j]).rank() < key.rank(),
            forall|j: int|
                i <= j < old(self)@.len() ==> key.rank() < (#[trigger] old(self)@[j]).rank(),
        ensures
            final(self)@ == old(self)@.insert(i as int, key),
    {
        let ghost before = self@;
        let mut taken = SortedKeys::new();
        core::mem::swap(&mut taken, self);
        proof {
            use_type_invariant(&taken);
        }
        let mut keys = taken.keys;
        keys.insert(i, key);
        proof {
            assert forall|a: int, b: int| 0 <= a < b < keys@.len() implies (
            #[trigger] keys@[a]).rank() < (#[trigger] keys@[b]).rank() by {
                let oa = if a < i {
                    a
                } else {
                    a - 1
                };
                let ob = if b < i {
                    b
                } else {
                    b - 1
                };
                if a != i {
                    assert(keys@[a] == before[oa]);
                }
                if b != i {
                    assert(keys@[b] == before[ob]);
                }
            }
        }
        *self = SortedKeys { keys };
    }

    fn remove(&mut self, i: usize)
        requires
            i < old(self)@.len(),
        ensures
            final(self)@ == old(self)@.remove(i as int),
    {
        let ghost before = self@;
        let mut taken = SortedKeys::new();
        core::mem::swap(&mut taken, self);
        proof {
            use_type_invariant(&taken);
        }
        let mut keys = taken.keys;
        let _ = keys.remove(i);
        proof {
            assert forall|a: int, b: int| 0 <= a < b < keys@.len() implies (
            #[trigger] keys@[a]).rank() < (#[trigger] keys@[b]).rank() by {
                let oa = if a < i {
                    a
                } else {
                    a + 1
                };
                let ob = if b < i {
                    b
                } else {
                    b + 1
                };
                assert(keys@[a] == before[oa]);
                assert(keys@[b] == before[ob]);
            }
        }
        *self = SortedKeys { keys };
    }

    fn truncate(&mut self, n: usize)
        requires
            n <= old(self)@.len(),
        ensures
            final(self)@ == old(self)@.take(n as int),
    {
        let mut taken = SortedKeys::new();
        core::mem::swap(&mut taken, self);
        proof {
            use_type_invariant(&taken);
        }
        let mut keys = taken.keys;
        keys.truncate(n);
        *self = SortedKeys { keys };
    }
}

/// A map whose keys are walked in ascending order.
#[derive(Debug)]
pub struct OrderedMap<K: SortKey, V> {
    keys: SortedKeys<K>,
    /// The value of the key in the same place. A key in whose place there is
    /// none is not in the map.
    values: Vec<V>,
}

/// How many keys have a value.
spec fn paired<K, V>(keys: Seq<K>, values: Seq<V>) -> int {
    if keys.len() <= values.len() {
        keys.len() as int
    } else {
        values.len() as int
    }
}

spec fn model_of<K: SortKey, V: View>(keys: Seq<K>, values: Seq<V>) -> Map<K, V::V> {
    Map::new(
        |k: K| keys.take(paired(keys, values)).contains(k),
        |k: K| values[keys.take(paired(keys, values)).index_of(k)]@,
    )
}

proof fn lemma_model_at<K: SortKey, V: View>(keys: Seq<K>, values: Seq<V>, i: int)
    requires
        is_ascending(keys),
        0 <= i < paired(keys, values),
    ensures
        model_of(keys, values).contains_key(keys[i]),
        model_of(keys, values)[keys[i]] == values[i]@,
{
    let there = keys.take(paired(keys, values));
    assert(there[i] == keys[i]);
    let j = there.index_of(keys[i]);
    assert(there[j] == keys[i]);
    if i < j {
        assert(keys[i].rank() < keys[j].rank());
    } else if j < i {
        assert(keys[j].rank() < keys[i].rank());
    }
}

proof fn lemma_model_dom<K: SortKey, V: View>(keys: Seq<K>, values: Seq<V>)
    requires
        is_ascending(keys),
    ensures
        model_of(keys, values).dom() == keys.take(paired(keys, values)).to_set(),
        model_of(keys, values).dom().finite(),
        model_of(keys, values).dom().len() == paired(keys, values),
        ascending_keys(model_of(keys, values).dom()) == keys.take(paired(keys, values)),
        is_ascending(keys.take(paired(keys, values))),
{
    let there = keys.take(paired(keys, values));
    assert(model_of(keys, values).dom() =~= there.to_set());
    lemma_ascending_len(there);
    lemma_ascending_keys(there);
}

impl<K: SortKey, V: View> View for OrderedMap<K, V> {
    type V = Map<K, V::V>;

    closed spec fn view(&self) -> Map<K, V::V> {
        model_of(self.keys@, self.values@)
    }
}

/// Replacing a value by way of removing it leaves the other keys alone.
pub broadcast proof fn lemma_remove_insert<K, V>(m: Map<K, V>, k: K, v: V)
    ensures
        #[trigger] m.remove(k).insert(k, v) == m.insert(k, v),
{
    assert(m.remove(k).insert(k, v) =~= m.insert(k, v));
}

/// Putting a value back where it was found changes nothing.
pub broadcast proof fn lemma_insert_same<K, V>(m: Map<K, V>, k: K)
    requires
        m.contains_key(k),
    ensures
        #[trigger] m.insert(k, m[k]) == m,
{
    assert(m.insert(k, m[k]) =~= m);
}

impl<K: SortKey, V: View> OrderedMap<K, V> {
    pub fn new() -> (m: Self)
        ensures
            m@ == Map::<K, V::V>::empty(),
    {
        let m = OrderedMap { keys: SortedKeys::new(), values: Vec::new() };
        proof {
            assert(m@ =~= Map::<K, V::V>::empty());
        }
        m
    }

    /// The place of `key`, if it has a value.
    fn place(&self, key: K) -> (r: Option<usize>)
        ensures
            is_ascending(self.keys@),
            match r {
                Some(i) => i < paired(self.keys@, self.values@) && self.keys@[i as int] == key
                    && self@.contains_key(key) && self@[key] == self.values@[i as int]@,
                None => !self@.contains_key(key),
            },
    {
        let (i, found) = self.keys.position(key);
        if found && i < self.values.len() {
            proof {
                lemma_model_at(self.keys@, self.values@, i as int);
            }
            Some(i)
        } else {
            proof {
                let there = self.keys@.take(paired(self.keys@, self.values@));
                if there.contains(key) {
                    let j = choose|j: int| 0 <= j < there.len() && there[j] == key;
                    assert(self.keys@[j] == key);
                    if j < i {
                        assert(self.keys@[j].rank() < key.rank());
                    } else if j > i {
                        assert(self.keys@[i as int].rank() < self.keys@[j].rank());
                        assert(key.rank() <= self.keys@[i as int].rank());
                    }
                }
            }
            None
        }
    }

    pub fn get(&self, key: K) -> (r: Option<&V>)
        ensures
            match r {
                Some(v) => self@.contains_key(key) && v@ == self@[key],
                None => !self@.contains_key(key),
            },
    {
        match self.place(key) {
            Some(i) => Some(&self.values[i]),
            None => None,
        }
    }

    /// The value of `key`, to be changed in place.
    pub fn get_mut(&mut self, key: K) -> (r: Option<&mut V>)
        ensures
            match r {
                Some(v) => old(self)@.contains_key(key) && (*v)@ == old(self)@[key]
                    && final(self)@ == old(self)@.insert(key, (*final(v))@),
                None => !old(self)@.contains_key(key) && final(self)@ == old(self)@,
            },
    {
        match self.place(key) {
            Some(i) => {
                proof {
                    lemma_replaced(self.keys@, self.values@, i as int);
                }
                Some(&mut self.values[i])
            },
            None => None,
        }
    }

    pub fn contains_key(&self, key: K) -> (r: bool)
        ensures
            r == self@.contains_key(key),
    {
        self.place(key).is_some()
    }

    pub fn len(&self) -> (n: usize)
        ensures
            n == self@.dom().len(),
            self@.dom().finite(),
    {
        let keys: usize = self.keys.len();
        let values: usize = self.values.len();
        proof {
            lemma_model_dom(self.keys@, self.values@);
        }
        if keys <= values {
            keys
        } else {
            values
        }
    }

    pub fn is_empty(&self) -> (r: bool)
        ensures
            r == (self@.dom().len() == 0),
            self@.dom().finite(),
    {
        self.len() == 0
    }

    /// The keys, in ascending order.
    pub fn keys(&self) -> (keys: Vec<K>)
        ensures
            keys@ == ascending_keys(self@.dom()),
            is_ascending(keys@),
            keys@.to_set() == self@.dom(),
            keys@.len() == self@.dom().len(),
            self@.dom().finite(),
    {
        let n: usize = self.len();
        let _ = self.keys.len();
        proof {
            lemma_model_dom(self.keys@, self.values@);
        }
        let mut keys: Vec<K> = Vec::new();
        let mut i: usize = 0;
        while i < n
            invariant
                i <= n <= self.keys@.len(),
                keys@ == self.keys@.take(i as int),
            decreases n - i,
        {
            keys.push(self.keys.get(i));
            i += 1;
            proof {
                assert(keys@ =~= self.keys@.take(i as int));
            }
        }
        keys
    }

    /// Cuts off keys without value and values without key.
    fn pair_up(&mut self)
        ensures
            final(self)@ == old(self)@,
            final(self).keys@.len() == final(self).values@.len(),
    {
        let keys: usize = self.keys.len();
        let values: usize = self.values.len();
        if keys < values {
            self.values.truncate(keys);
        } else if values < keys {
            self.keys.truncate(values);
        }
        proof {
            let n = paired(old(self).keys@, old(self).values@);
            assert(self.keys@.take(n) =~= old(self).keys@.take(n));
            assert(self@.dom() =~= old(self)@.dom());
            assert forall|k: K| self@.dom().contains(k) implies self@[k] == old(self)@[k] by {
                let there = old(self).keys@.take(n);
                let j = there.index_of(k);
                assert(0 <= j < n);
            }
            assert(self@ =~= old(self)@);
        }
    }

    pub fn insert(&mut self, key: K, value: V) -> (previous: Option<V>)
        ensures
            final(self)@ == old(self)@.insert(key, value@),
            match previous {
                Some(v) => old(self)@.contains_key(key) && v@ == old(self)@[key],
                None => !old(self)@.contains_key(key),
            },
    {
        self.pair_up();
        let (i, found) = self.keys.position(key);
        let ghost keys = self.keys@;
        let ghost values = self.values@;
        let ghost added = value@;
        if found {
            let mut value = value;
            core::mem::swap(&mut value, &mut self.values[i]);
            proof {
                lemma_model_at(keys, values, i as int);
                lemma_replaced(keys, values, i as int);
            }
            return Some(value);
        }
        proof {
            assert forall|j: int| i <= j < keys.len() implies key.rank() < (
            #[trigger] keys[j]).rank() by {
                if key.rank() == keys[j].rank() {
                    K::rank_is_injective(key, keys[j]);
                }
            }
        }
        self.keys.insert(i, key);
        self.values.insert(i, value);
        let _ = self.keys.len();
        proof {
            let nk = self.keys@;
            let nv = self.values@;
            assert(keys.take(keys.len() as int) =~= keys);
            assert(nk.take(nk.len() as int) =~= nk);
            let m = model_of(keys, values).insert(key, added);
            let after = model_of(nk, nv);
            assert forall|k: K|
                #![trigger m.dom().contains(k)]
                #![trigger after.dom().contains(k)]
                m.dom().contains(k) == after.dom().contains(k) && (m.dom().contains(k) ==> m[k]
                    == after[k]) by {
                if k == key {
                    lemma_model_at(nk, nv, i as int);
                } else {
                    if keys.contains(k) {
                        let j = choose|j: int| 0 <= j < keys.len() && keys[j] == k;
                        let n: int = if j < i {
                            j
                        } else {
                            j + 1
                        };
                        lemma_model_at(keys, values, j);
                        lemma_model_at(nk, nv, n);
                    }
                    if nk.contains(k) {
                        let n = choose|n: int| 0 <= n < nk.len() && nk[n] == k;
                        let j: int = if n < i {
                            n
                        } else {
                            n - 1
                        };
                        lemma_model_at(keys, values, j);
                    }
                }
            }
            assert(after.dom() =~= m.dom());
            assert(after =~= m);
        }
        None
    }

    pub fn remove(&mut self, key: K) -> (removed: Option<V>)
        ensures
            final(self)@ == old(self)@.remove(key),
            match removed {
                Some(v) => old(self)@.contains_key(key) && v@ == old(self)@[key],
                None => !old(self)@.contains_key(key),
            },
    {
        self.pair_up();
        let i: usize = match self.place(key) {
            Some(i) => i,
            None => {
                proof {
                    assert(self@.remove(key) =~= self@);
                }
                return None;
            },
        };
        let ghost keys = self.keys@;
        let ghost values = self.values@;
        self.keys.remove(i);
        let removed = self.values.remove(i);
        let _ = self.keys.len();
        proof {
            let nk = self.keys@;
            let nv = self.values@;
            assert(keys.take(keys.len() as int) =~= keys);
            assert(nk.take(nk.len() as int) =~= nk);
            let m = model_of(keys, values).remove(key);
            let after = model_of(nk, nv);
            assert forall|k: K|
                #![trigger m.dom().contains(k)]
                #![trigger after.dom().contains(k)]
                m.dom().contains(k) == after.dom().contains(k) && (m.dom().contains(k) ==> m[k]
                    == after[k]) by {
                if nk.contains(k) {
                    let n = choose|n: int| 0 <= n < nk.len() && nk[n] == k;
                    let j: int = if n < i {
                        n
                    } else {
                        n + 1
                    };
                    lemma_model_at(keys, values, j);
                    lemma_model_at(nk, nv, n);
                    if k == key {
                        if n < i {
                            assert(keys[j].rank() < keys[i as int].rank());
                        } else {
                            assert(keys[i as int].rank() < keys[j].rank());
                        }
                    }
                }
                if m.dom().contains(k) {
                    let j = choose|j: int| 0 <= j < keys.len() && keys[j] == k;
                    assert(j != i);
                    let n: int = if j < i {
                        j
                    } else {
                        j - 1
                    };
                    assert(nk[n] == k);
                    lemma_model_at(keys, values, j);
                    lemma_model_at(nk, nv, n);
                }
            }
            assert(after.dom() =~= m.dom());
            assert(after =~= m);
        }
        Some(removed)
    }
}

/// Replacing the value in a place replaces the value of the key there.
proof fn lemma_replaced<K: SortKey, V: View>(keys: Seq<K>, values: Seq<V>, i: int)
    requires
        is_ascending(keys),
        0 <= i < paired(keys, values),
    ensures
        forall|v: V|
            model_of(keys, #[trigger] values.update(i, v)) == model_of(keys, values).insert(
                keys[i],
                v@,
            ),
{
    assert forall|v: V|
        model_of(keys, #[trigger] values.update(i, v)) == model_of(keys, values).insert(
            keys[i],
            v@,
        ) by {
        let nv = values.update(i, v);
        let m = model_of(keys, values).insert(keys[i], v@);
        let after = model_of(keys, nv);
        let there = keys.take(paired(keys, values));
        assert(there[i] == keys[i]);
        assert forall|k: K|
            #![trigger m.dom().contains(k)]
            #![trigger after.dom().contains(k)]
            m.dom().contains(k) == after.dom().contains(k) && (m.dom().contains(k) ==> m[k]
                == after[k]) by {
            if there.contains(k) {
                let j = choose|j: int| 0 <= j < there.len() && there[j] == k;
                assert(keys[j] == k);
                lemma_model_at(keys, values, j);
                lemma_model_at(keys, nv, j);
                lemma_model_at(keys, nv, i);
            }
        }
        assert(after.dom() =~= m.dom());
        assert(after =~= m);
    }
}

/// A set whose members are walked in ascending order.
#[derive(Debug)]
pub struct OrderedSet<K: SortKey> {
    members: OrderedMap<K, ()>,
}

impl<K: SortKey> View for OrderedSet<K> {
    type V = Set<K>;

    closed spec fn view(&self) -> Set<K> {
        self.members@.dom()
    }
}

impl<K: SortKey> OrderedSet<K> {
    pub fn new() -> (s: Self)
        ensures
            s@ == Set::<K>::empty(),
    {
        let s = OrderedSet { members: OrderedMap::new() };
        proof {
            assert(s@ =~= Set::<K>::empty());
        }
        s
    }

    pub fn contains(&self, key: K) -> (r: bool)
        ensures
            r == self@.contains(key),
    {
        self.members.contains_key(key)
    }

    pub fn len(&self) -> (n: usize)
        ensures
            n == self@.len(),
            self@.finite(),
    {
        self.members.len()
    }

    pub fn is_empty(&self) -> (r: bool)
        ensures
            r == (self@.len() == 0),
            self@.finite(),
    {
        self.members.is_empty()
    }

    /// The members, in ascending order.
    pub fn keys(&self) -> (keys: Vec<K>)
        ensures
            keys@ == ascending_keys(self@),
            is_ascending(keys@),
            keys@.to_set() == self@,
            self@.finite(),
    {
        self.members.keys()
    }

    /// Adds `key`, and says whether it was absent before.
    pub fn insert(&mut self, key: K) -> (added: bool)
        ensures
            final(self)@ == old(self)@.insert(key),
            added == !old(self)@.contains(key),
    {
        let previous = self.members.insert(key, ());
        proof {
            assert(self@ =~= old(self)@.insert(key));
        }
        previous.is_none()
    }

    /// Removes `key`, and says whether it was present before.
    pub fn remove(&mut self, key: K) -> (present: bool)
        ensures
            final(self)@ == old(self)@.remove(key),
            present == old(self)@.contains(key),
    {
        let removed = self.members.remove(key);
        proof {
            assert(self@ =~= old(self)@.remove(key));
        }
        removed.is_some()
    }
}

} // verus!
