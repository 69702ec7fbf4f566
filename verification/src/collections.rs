//! Sorted association lists: a map and a set kept in key order, so that two
//! collections with the same contents have the same representation.
use vstd::prelude::*;
use crate::text::{Duplicate, KeyOrder, OrderedKey, SameValue};

verus! {

/// Every element of `s` is below every later one.
pub open spec fn strictly_sorted<K: OrderedKey>(s: Seq<<K as DeepView>::V>) -> bool {
    forall|i: int, j: int| 0 <= i < j < s.len() ==> K::key_lt(s[i], s[j])
}

/// The order facts of a key type, for every triple at once.
pub proof fn lemma_order_facts<K: OrderedKey>()
    ensures
        forall|a: <K as DeepView>::V| !#[trigger] K::key_lt(a, a),
        forall|a: <K as DeepView>::V, b: <K as DeepView>::V, c: <K as DeepView>::V|
            #[trigger] K::key_lt(a, b) && #[trigger] K::key_lt(b, c) ==> K::key_lt(a, c),
        forall|a: <K as DeepView>::V, b: <K as DeepView>::V|
            a == b || #[trigger] K::key_lt(a, b) || #[trigger] K::key_lt(b, a),
{
    assert forall|a: <K as DeepView>::V| !#[trigger] K::key_lt(a, a) by {
        K::lemma_key_order(a, a, a);
    }
    assert forall|a: <K as DeepView>::V, b: <K as DeepView>::V, c: <K as DeepView>::V|
        #[trigger] K::key_lt(a, b) && #[trigger] K::key_lt(b, c) implies K::key_lt(a, c) by {
        K::lemma_key_order(a, b, c);
    }
    assert forall|a: <K as DeepView>::V, b: <K as DeepView>::V|
        a == b || #[trigger] K::key_lt(a, b) || #[trigger] K::key_lt(b, a) by {
        K::lemma_key_order(a, b, b);
    }
}

/// The strictly increasing sequence of a finite set of key models.
pub open spec fn ordered<K: OrderedKey>(s: Set<<K as DeepView>::V>) -> Seq<<K as DeepView>::V> {
    choose|q: Seq<<K as DeepView>::V>| strictly_sorted::<K>(q) && q.to_set() == s
}

/// A set has at most one strictly increasing enumeration.
pub proof fn lemma_sorted_unique<K: OrderedKey>(a: Seq<<K as DeepView>::V>, b: Seq<<K as DeepView>::V>)
    requires
        strictly_sorted::<K>(a),
        strictly_sorted::<K>(b),
        a.to_set() == b.to_set(),
    ensures
        a == b,
    decreases a.len(),
{
    lemma_order_facts::<K>();
    if a.len() == 0 || b.len() == 0 {
        if b.len() > 0 {
            assert(b.to_set().contains(b[0]));
        }
        if a.len() > 0 {
            assert(a.to_set().contains(a[0]));
        }
        assert(a =~= b);
    } else {
        assert(b.to_set().contains(a[0]));
        assert(a.to_set().contains(b[0]));
        let j = choose|j: int| 0 <= j < b.len() && b[j] == a[0];
        let i = choose|i: int| 0 <= i < a.len() && a[i] == b[0];
        if a[0] != b[0] {
            assert(j > 0 && i > 0);
            assert(K::key_lt(b[0], b[j]));
            assert(K::key_lt(a[0], a[i]));
        }
        let a1 = a.drop_first();
        let b1 = b.drop_first();
        assert forall|x: <K as DeepView>::V| #[trigger] a1.to_set().contains(x) implies b1.to_set().contains(
            x,
        ) by {
            let k = choose|k: int| 0 <= k < a1.len() && a1[k] == x;
            assert(a[k + 1] == x);
            assert(K::key_lt(a[0], a[k + 1]));
            assert(a.to_set().contains(x));
            let m = choose|m: int| 0 <= m < b.len() && b[m] == x;
            assert(m != 0);
            assert(b1[m - 1] == x);
        }
        assert forall|x: <K as DeepView>::V| #[trigger] b1.to_set().contains(x) implies a1.to_set().contains(
            x,
        ) by {
            let k = choose|k: int| 0 <= k < b1.len() && b1[k] == x;
            assert(b[k + 1] == x);
            assert(K::key_lt(b[0], b[k + 1]));
            assert(b.to_set().contains(x));
            let m = choose|m: int| 0 <= m < a.len() && a[m] == x;
            assert(m != 0);
            assert(a1[m - 1] == x);
        }
        assert(a1.to_set() =~= b1.to_set());
        lemma_sorted_unique::<K>(a1, b1);
        assert(a =~= b) by {
            assert forall|k: int| 0 <= k < a.len() implies a[k] == b[k] by {
                if k > 0 {
                    assert(a[k] == a1[k - 1]);
                    assert(b[k] == b1[k - 1]);
                }
            }
        }
    }
}

/// A key new to a strictly increasing enumeration goes in one place and leaves the
/// rest in order.
pub proof fn lemma_sorted_insert<K: OrderedKey>(
    p: Seq<<K as DeepView>::V>,
    q: Seq<<K as DeepView>::V>,
    k: <K as DeepView>::V,
) -> (i: int)
    requires
        strictly_sorted::<K>(p),
        strictly_sorted::<K>(q),
        q.to_set() == p.to_set().insert(k),
        !p.contains(k),
    ensures
        0 <= i <= p.len(),
        q == p.take(i) + seq![k] + p.skip(i),
{
    lemma_order_facts::<K>();
    assert(q.to_set().contains(k));
    let i = choose|i: int| 0 <= i < q.len() && q[i] == k;
    let r = q.take(i) + q.skip(i + 1);
    assert forall|a: int, b: int| 0 <= a < b < r.len() implies K::key_lt(r[a], r[b]) by {
        let qa = if a < i { a } else { a + 1 };
        let qb = if b < i { b } else { b + 1 };
        assert(r[a] == q[qa]);
        assert(r[b] == q[qb]);
    }
    assert forall|x: <K as DeepView>::V| #[trigger] r.to_set().contains(x) <==> p.to_set().contains(x) by {
        if r.to_set().contains(x) {
            let j = choose|j: int| 0 <= j < r.len() && r[j] == x;
            let qj = if j < i { j } else { j + 1 };
            assert(r[j] == q[qj]);
            assert(q.to_set().contains(x));
            assert(x != k) by {
                if qj < i {
                    assert(K::key_lt(q[qj], q[i]));
                } else {
                    assert(K::key_lt(q[i], q[qj]));
                }
            }
        }
        if p.to_set().contains(x) {
            assert(q.to_set().contains(x));
            let j = choose|j: int| 0 <= j < q.len() && q[j] == x;
            assert(x != k);
            assert(j != i);
            if j < i {
                assert(r[j] == x);
            } else {
                assert(r[j - 1] == x);
            }
        }
    }
    assert(r.to_set() =~= p.to_set());
    lemma_sorted_unique::<K>(r, p);
    assert(r.len() == q.len() - 1);
    assert(q =~= p.take(i) + seq![k] + p.skip(i)) by {
        assert forall|j: int| 0 <= j < q.len() implies q[j] == (p.take(i) + seq![k] + p.skip(i))[j] by {
            if j < i {
                assert(r[j] == q[j]);
            } else if j > i {
                assert(r[j - 1] == q[j]);
            }
        }
    }
    i
}

/// A strictly increasing enumeration can take one more element.
proof fn lemma_sorted_insert_exists<K: OrderedKey>(p: Seq<<K as DeepView>::V>, x: <K as DeepView>::V) -> (q: Seq<
    <K as DeepView>::V,
>)
    requires
        strictly_sorted::<K>(p),
        !p.contains(x),
    ensures
        strictly_sorted::<K>(q),
        q.to_set() == p.to_set().insert(x),
    decreases p.len(),
{
    lemma_order_facts::<K>();
    if p.len() == 0 {
        let q = seq![x];
        assert(q.to_set() =~= p.to_set().insert(x)) by {
            assert(q[0] == x);
        }
        q
    } else if K::key_lt(p.last(), x) {
        let q = p.push(x);
        lemma_push_to_set(p, x);
        assert forall|a: int, b: int| 0 <= a < b < q.len() implies K::key_lt(q[a], q[b]) by {
            if b == p.len() && a < p.len() - 1 {
                assert(K::key_lt(p[a], p.last()));
            }
        }
        q
    } else {
        let last = p.last();
        let rest = p.drop_last();
        assert(!rest.contains(x)) by {
            if rest.contains(x) {
                let j = choose|j: int| 0 <= j < rest.len() && rest[j] == x;
                assert(p[j] == x);
            }
        }
        let r = lemma_sorted_insert_exists::<K>(rest, x);
        let q = r.push(last);
        assert(x != last) by {
            assert(p[p.len() - 1] == last);
        }
        assert(K::key_lt(x, last));
        lemma_push_to_set(r, last);
        assert(rest.push(last) =~= p);
        lemma_push_to_set(rest, last);
        assert forall|a: int, b: int| 0 <= a < b < q.len() implies K::key_lt(q[a], q[b]) by {
            if b == r.len() && a < r.len() {
                assert(r.to_set().contains(r[a]));
                if r[a] != x {
                    assert(rest.to_set().contains(r[a]));
                    let j = choose|j: int| 0 <= j < rest.len() && rest[j] == r[a];
                    assert(p[j] == r[a]);
                    assert(K::key_lt(p[j], p[p.len() - 1]));
                }
            }
        }
        assert(q.to_set() =~= p.to_set().insert(x));
        q
    }
}

/// Every finite set of keys has its increasing enumeration.
pub proof fn lemma_ordered_props<K: OrderedKey>(s: Set<<K as DeepView>::V>)
    requires
        s.finite(),
    ensures
        strictly_sorted::<K>(ordered::<K>(s)),
        ordered::<K>(s).to_set() == s,
    decreases s.len(),
{
    if s.len() == 0 {
        let q = Seq::<<K as DeepView>::V>::empty();
        assert(s =~= Set::<<K as DeepView>::V>::empty());
        assert(q.to_set() =~= s);
        assert(strictly_sorted::<K>(q));
    } else {
        let x = s.choose();
        let rest = s.remove(x);
        lemma_ordered_props::<K>(rest);
        let p = ordered::<K>(rest);
        assert(!p.contains(x)) by {
            if p.contains(x) {
                assert(p.to_set().contains(x));
            }
        }
        let q = lemma_sorted_insert_exists::<K>(p, x);
        assert(q.to_set() =~= s);
    }
}

/// Appending an element adds it to the sequence's set.
pub proof fn lemma_push_to_set<A>(s: Seq<A>, x: A)
    ensures
        s.push(x).to_set() == s.to_set().insert(x),
{
    assert forall|y: A| #[trigger] s.push(x).to_set().contains(y) implies s.to_set().insert(x).contains(y) by {
        let i = choose|i: int| 0 <= i < s.push(x).len() && s.push(x)[i] == y;
        if i < s.len() {
            assert(s[i] == y);
        }
    }
    assert forall|y: A| #[trigger] s.to_set().insert(x).contains(y) implies s.push(x).to_set().contains(y) by {
        if y == x {
            assert(s.push(x)[s.len() as int] == y);
        } else {
            let i = choose|i: int| 0 <= i < s.len() && s[i] == y;
            assert(s.push(x)[i] == y);
        }
    }
    assert(s.push(x).to_set() =~= s.to_set().insert(x));
}

/// A map kept as a vector of entries in strictly increasing key order.
#[derive(Debug, Clone, PartialEq, Eq)]
pub struct SortedMap<K, V> {
    entries: Vec<(K, V)>,
}

impl<K: OrderedKey, V: Duplicate> View for SortedMap<K, V> {
    type V = Map<<K as DeepView>::V, <V as DeepView>::V>;

    closed spec fn view(&self) -> Self::V {
        Map::new(
            |k: <K as DeepView>::V| self.keys().contains(k),
            |k: <K as DeepView>::V| self.value_view(self.keys().index_of(k)),
        )
    }
}

impl<K: OrderedKey, V: Duplicate> DeepView for SortedMap<K, V> {
    type V = Map<<K as DeepView>::V, <V as DeepView>::V>;

    open spec fn deep_view(&self) -> Self::V {
        self@
    }
}

impl<K: OrderedKey, V: Duplicate> SortedMap<K, V> {
    /// The keys' models, in the order in which the map holds them (increasing).
    pub closed spec fn keys(self) -> Seq<<K as DeepView>::V> {
        Seq::new(self.entries@.len(), |i: int| self.entries@[i].0.deep_view())
    }

    closed spec fn value_view(self, i: int) -> <V as DeepView>::V {
        self.entries@[i].1.deep_view()
    }

    /// The keys are strictly increasing and every key and value is valid.
    pub closed spec fn wf(self) -> bool {
        &&& strictly_sorted::<K>(self.keys())
        &&& forall|i: int| 0 <= i < self.entries@.len() ==> (#[trigger] self.entries@[i]).1.valid()
    }

    proof fn lemma_key_order_all()
        ensures
            forall|a: <K as DeepView>::V| !#[trigger] K::key_lt(a, a),
            forall|a: <K as DeepView>::V, b: <K as DeepView>::V, c: <K as DeepView>::V|
                #[trigger] K::key_lt(a, b) && #[trigger] K::key_lt(b, c) ==> K::key_lt(a, c),
            forall|a: <K as DeepView>::V, b: <K as DeepView>::V|
                a == b || #[trigger] K::key_lt(a, b) || #[trigger] K::key_lt(b, a),
    {
        assert forall|a: <K as DeepView>::V| !#[trigger] K::key_lt(a, a) by {
            K::lemma_key_order(a, a, a);
        }
        assert forall|a: <K as DeepView>::V, b: <K as DeepView>::V, c: <K as DeepView>::V|
            #[trigger] K::key_lt(a, b) && #[trigger] K::key_lt(b, c) implies K::key_lt(a, c) by {
            K::lemma_key_order(a, b, c);
        }
        assert forall|a: <K as DeepView>::V, b: <K as DeepView>::V|
            a == b || #[trigger] K::key_lt(a, b) || #[trigger] K::key_lt(b, a) by {
            K::lemma_key_order(a, b, b);
        }
    }

    proof fn lemma_index(self, i: int)
        requires
            self.wf(),
            0 <= i < self.keys().len(),
        ensures
            self@.contains_key(self.keys()[i]),
            self@[self.keys()[i]] == self.value_view(i),
            self.keys().index_of(self.keys()[i]) == i,
    {
        Self::lemma_key_order_all();
        let k = self.keys()[i];
        assert(self.keys().contains(k));
        let j = self.keys().index_of(k);
        if j != i {
            if j < i {
                assert(K::key_lt(self.keys()[j], self.keys()[i]));
            } else {
                assert(K::key_lt(self.keys()[i], self.keys()[j]));
            }
        }
    }

    /// What a well-formed map's model is made of.
    pub proof fn lemma_wf_view(self)
        requires
            self.wf(),
        ensures
            self@.dom() == self.keys().to_set(),
            self@.dom().finite(),
            self.keys().no_duplicates(),
            strictly_sorted::<K>(self.keys()),
            forall|i: int| 0 <= i < self.keys().len() ==> #[trigger] self@.contains_key(self.keys()[i]),
    {
        Self::lemma_key_order_all();
        assert(self@.dom() =~= self.keys().to_set());
        vstd::seq_lib::seq_to_set_is_finite(self.keys());
        assert forall|i: int, j: int|
            0 <= i < self.keys().len() && 0 <= j < self.keys().len() && i != j implies self.keys()[i]
            != self.keys()[j] by {
            if i < j {
                assert(K::key_lt(self.keys()[i], self.keys()[j]));
            } else {
                assert(K::key_lt(self.keys()[j], self.keys()[i]));
            }
        }
    }

    /// Each value of a well-formed map is the model of a valid value.
    pub proof fn lemma_value_of(self, k: <K as DeepView>::V) -> (v: V)
        requires
            self.wf(),
            self@.contains_key(k),
        ensures
            v.valid(),
            v.deep_view() == self@[k],
    {
        let i = self.keys().index_of(k);
        assert(self.keys().contains(k));
        self.lemma_index(i);
        self.entries@[i].1
    }

    /// The map holds its keys in the one increasing order of its domain.
    pub proof fn lemma_keys_ordered(self)
        requires
            self.wf(),
        ensures
            self.keys() == ordered::<K>(self@.dom()),
    {
        self.lemma_wf_view();
        let q = ordered::<K>(self@.dom());
        assert(strictly_sorted::<K>(q) && q.to_set() == self@.dom());
        lemma_sorted_unique::<K>(q, self.keys());
    }

    /// A well-formed map whose entries agree with `m` everywhere has `m` as its model.
    proof fn lemma_view_is(self, m: Map<<K as DeepView>::V, <V as DeepView>::V>)
        requires
            self.wf(),
            forall|i: int|
                0 <= i < self.keys().len() ==> #[trigger] m.contains_key(self.keys()[i]) && m[self.keys()[i]]
                    == self.value_view(i),
            forall|k: <K as DeepView>::V| #[trigger] m.contains_key(k) ==> self.keys().contains(k),
        ensures
            self@ == m,
    {
        assert forall|k: <K as DeepView>::V| #[trigger] self@.contains_key(k) implies m.contains_key(k)
            && self@[k] == m[k] by {
            let i = self.keys().index_of(k);
            self.lemma_index(i);
            assert(m.contains_key(self.keys()[i]));
        }
        assert forall|k: <K as DeepView>::V| #[trigger] m.contains_key(k) implies self@.contains_key(k) by {}
        assert(self@ =~= m);
    }

    pub fn new() -> (r: Self)
        ensures
            r.wf(),
            r@ == Map::<<K as DeepView>::V, <V as DeepView>::V>::empty(),
            r.keys().len() == 0,
    {
        let r = SortedMap { entries: Vec::new() };
        assert(r@ =~= Map::<<K as DeepView>::V, <V as DeepView>::V>::empty());
        r
    }

    /// The number of entries.
    pub fn len(&self) -> (n: usize)
        ensures
            n == self.keys().len(),
    {
        self.entries.len()
    }

    /// The key of the `i`-th entry in key order.
    pub fn key_at(&self, i: usize) -> (k: &K)
        requires
            i < self.keys().len(),
        ensures
            k.deep_view() == self.keys()[i as int],
    {
        &self.entries[i].0
    }

    /// The value of the `i`-th entry in key order.
    pub fn value_at(&self, i: usize) -> (v: &V)
        requires
            self.wf(),
            i < self.keys().len(),
        ensures
            v.deep_view() == self@[self.keys()[i as int]],
            v.valid(),
    {
        proof {
            self.lemma_index(i as int);
        }
        &self.entries[i].1
    }

    /// The position where `key` stands or would be inserted, and whether it is present.
    fn search(&self, key: &K) -> (r: (usize, bool))
        requires
            self.wf(),
        ensures
            r.0 <= self.keys().len(),
            forall|j: int| 0 <= j < r.0 ==> K::key_lt(#[trigger] self.keys()[j], key.deep_view()),
            r.1 ==> r.0 < self.keys().len() && self.keys()[r.0 as int] == key.deep_view(),
            !r.1 ==> forall|j: int|
                r.0 <= j < self.keys().len() ==> K::key_lt(key.deep_view(), #[trigger] self.keys()[j]),
    {
        proof {
            Self::lemma_key_order_all();
        }
        let n = self.entries.len();
        let mut i: usize = 0;
        while i < n
            invariant
                n == self.keys().len(),
                self.wf(),
                i <= n,
                forall|j: int| 0 <= j < i ==> K::key_lt(#[trigger] self.keys()[j], key.deep_view()),
            decreases n - i,
        {
            proof {
                Self::lemma_key_order_all();
            }
            let c = key.compare_key(&self.entries[i].0);
            match c {
                KeyOrder::Less => {
                    assert forall|j: int| i <= j < n implies K::key_lt(
                        key.deep_view(),
                        #[trigger] self.keys()[j],
                    ) by {
                        if j > i {
                            assert(K::key_lt(self.keys()[i as int], self.keys()[j]));
                        }
                    }
                    return (i, false);
                },
                KeyOrder::Equal => {
                    return (i, true);
                },
                KeyOrder::Greater => {
                    assert(K::key_lt(self.keys()[i as int], key.deep_view()));
                    i = i + 1;
                },
            }
        }
        (i, false)
    }

    pub fn contains_key(&self, key: &K) -> (r: bool)
        requires
            self.wf(),
        ensures
            r == self@.contains_key(key.deep_view()),
    {
        let (i, found) = self.search(key);
        proof {
            if found {
                self.lemma_index(i as int);
            } else if self.keys().contains(key.deep_view()) {
                Self::lemma_key_order_all();
                let j = self.keys().index_of(key.deep_view());
                if j < i {
                    assert(K::key_lt(self.keys()[j], key.deep_view()));
                } else {
                    assert(K::key_lt(key.deep_view(), self.keys()[j]));
                }
            }
        }
        found
    }

    pub fn get(&self, key: &K) -> (r: Option<&V>)
        requires
            self.wf(),
        ensures
            r is Some == self@.contains_key(key.deep_view()),
            r is Some ==> r->0.deep_view() == self@[key.deep_view()] && r->0.valid(),
    {
        let (i, found) = self.search(key);
        if found {
            proof {
                self.lemma_index(i as int);
            }
            Some(&self.entries[i].1)
        } else {
            proof {
                if self.keys().contains(key.deep_view()) {
                    Self::lemma_key_order_all();
                    let j = self.keys().index_of(key.deep_view());
                    if j < i {
                        assert(K::key_lt(self.keys()[j], key.deep_view()));
                    } else {
                        assert(K::key_lt(key.deep_view(), self.keys()[j]));
                    }
                }
            }
            None
        }
    }

    /// Sets the value of `key`, adding the key where it is new.
    pub fn insert(&mut self, key: K, value: V)
        requires
            old(self).wf(),
            value.valid(),
        ensures
            final(self).wf(),
            final(self)@ == old(self)@.insert(key.deep_view(), value.deep_view()),
    {
        let ghost kv = key.deep_view();
        let ghost vv = value.deep_view();
        let ghost m = old(self)@.insert(kv, vv);
        let (i, found) = self.search(&key);
        proof {
            Self::lemma_key_order_all();
        }
        if found {
            let ghost old_self = *self;
            self.entries.set(i, (key, value));
            proof {
                assert(self.keys() =~= old_self.keys());
                assert forall|j: int|
                    0 <= j < self.keys().len() implies #[trigger] m.contains_key(self.keys()[j])
                        && m[self.keys()[j]] == self.value_view(j) by {
                    if j != i {
                        old_self.lemma_index(j);
                        assert(self.value_view(j) == old_self.value_view(j));
                        if j < i {
                            assert(K::key_lt(old_self.keys()[j], old_self.keys()[i as int]));
                        } else {
                            assert(K::key_lt(old_self.keys()[i as int], old_self.keys()[j]));
                        }
                        assert(self.keys()[j] != kv);
                    } else {
                        assert(self.entries@[j] == (key, value));
                        assert(self.value_view(j) == vv);
                        assert(self.keys()[j] == kv);
                    }
                }
                assert forall|k: <K as DeepView>::V| #[trigger] m.contains_key(k) implies self.keys().contains(
                    k,
                ) by {
                    if k != kv {
                        assert(old_self.keys().contains(k));
                    } else {
                        assert(self.keys()[i as int] == k);
                    }
                }
                self.lemma_view_is(m);
            }
        } else {
            let ghost old_self = *self;
            self.entries.insert(i, (key, value));
            proof {
                assert(self.keys() =~= old_self.keys().insert(i as int, kv));
                assert forall|a: int, b: int| 0 <= a < b < self.keys().len() implies K::key_lt(
                    self.keys()[a],
                    self.keys()[b],
                ) by {
                    if a < i && b < i {
                    } else if a < i && b == i {
                    } else if a < i && b > i {
                        assert(K::key_lt(old_self.keys()[a], kv));
                        assert(K::key_lt(kv, old_self.keys()[b - 1]));
                    } else if a == i {
                        assert(K::key_lt(kv, old_self.keys()[b - 1]));
                    } else {
                        assert(K::key_lt(old_self.keys()[a - 1], old_self.keys()[b - 1]));
                    }
                }
                assert(self.wf());
                assert forall|j: int|
                    0 <= j < self.keys().len() implies #[trigger] m.contains_key(self.keys()[j])
                        && m[self.keys()[j]] == self.value_view(j) by {
                    if j < i {
                        old_self.lemma_index(j);
                        assert(self.value_view(j) == old_self.value_view(j));
                        assert(K::key_lt(old_self.keys()[j], kv));
                    } else if j > i {
                        old_self.lemma_index(j - 1);
                        assert(self.value_view(j) == old_self.value_view(j - 1));
                        assert(K::key_lt(kv, old_self.keys()[j - 1]));
                    }
                }
                assert forall|k: <K as DeepView>::V| #[trigger] m.contains_key(k) implies self.keys().contains(
                    k,
                ) by {
                    if k != kv {
                        assert(old_self.keys().contains(k));
                        let j = old_self.keys().index_of(k);
                        if j < i {
                            assert(self.keys()[j] == k);
                        } else {
                            assert(self.keys()[j + 1] == k);
                        }
                    } else {
                        assert(self.keys()[i as int] == k);
                    }
                }
                self.lemma_view_is(m);
            }
        }
    }
}

/// Values that two replicas can combine: the combination is commutative,
/// associative and idempotent.
pub trait Join: Duplicate {
    spec fn join_spec(a: <Self as DeepView>::V, b: <Self as DeepView>::V) -> <Self as DeepView>::V;

    proof fn lemma_join_laws(
        a: <Self as DeepView>::V,
        b: <Self as DeepView>::V,
        c: <Self as DeepView>::V,
    )
        ensures
            Self::join_spec(a, b) == Self::join_spec(b, a),
            Self::join_spec(Self::join_spec(a, b), c) == Self::join_spec(a, Self::join_spec(b, c)),
            Self::join_spec(a, a) == a,
    ;

    fn join(&self, other: &Self) -> (r: Self)
        requires
            self.valid(),
            other.valid(),
        ensures
            r.deep_view() == Self::join_spec(self.deep_view(), other.deep_view()),
            r.valid(),
    ;
}

/// Two maps combined key by key: a key held by one side keeps that side's value,
/// a key held by both gets the join of the two values.
pub open spec fn map_join<K: OrderedKey, V: Join>(
    a: Map<<K as DeepView>::V, <V as DeepView>::V>,
    b: Map<<K as DeepView>::V, <V as DeepView>::V>,
) -> Map<<K as DeepView>::V, <V as DeepView>::V> {
    Map::new(
        |k: <K as DeepView>::V| a.contains_key(k) || b.contains_key(k),
        |k: <K as DeepView>::V|
            if a.contains_key(k) && b.contains_key(k) {
                V::join_spec(a[k], b[k])
            } else if a.contains_key(k) {
                a[k]
            } else {
                b[k]
            },
    )
}

/// `map_join` is commutative, associative and idempotent.
pub proof fn lemma_map_join_laws<K: OrderedKey, V: Join>(
    a: Map<<K as DeepView>::V, <V as DeepView>::V>,
    b: Map<<K as DeepView>::V, <V as DeepView>::V>,
    c: Map<<K as DeepView>::V, <V as DeepView>::V>,
)
    ensures
        map_join::<K, V>(a, b) == map_join::<K, V>(b, a),
        map_join::<K, V>(map_join::<K, V>(a, b), c) == map_join::<K, V>(a, map_join::<K, V>(b, c)),
        map_join::<K, V>(a, a) == a,
{
    assert forall|k: <K as DeepView>::V| #[trigger] map_join::<K, V>(a, b).contains_key(k) implies map_join::<
        K,
        V,
    >(a, b)[k] == map_join::<K, V>(b, a)[k] by {
        V::lemma_join_laws(a[k], b[k], b[k]);
    }
    assert(map_join::<K, V>(a, b) =~= map_join::<K, V>(b, a));
    assert forall|k: <K as DeepView>::V| #[trigger] map_join::<K, V>(map_join::<K, V>(a, b), c).contains_key(
        k,
    ) implies map_join::<K, V>(map_join::<K, V>(a, b), c)[k] == map_join::<K, V>(a, map_join::<K, V>(b, c))[k] by {
        V::lemma_join_laws(a[k], b[k], c[k]);
    }
    assert(map_join::<K, V>(map_join::<K, V>(a, b), c) =~= map_join::<K, V>(a, map_join::<K, V>(b, c)));
    assert forall|k: <K as DeepView>::V| #[trigger] a.contains_key(k) implies map_join::<K, V>(a, a)[k]
        == a[k] by {
        V::lemma_join_laws(a[k], a[k], a[k]);
    }
    assert(map_join::<K, V>(a, a) =~= a);
}

impl<K: OrderedKey, V: Join> SortedMap<K, V> {
    /// Joins `other` into this map, key by key.
    pub fn join_from(&mut self, other: &Self)
        requires
            old(self).wf(),
            other.wf(),
        ensures
            final(self).wf(),
            final(self)@ == map_join::<K, V>(old(self)@, other@),
    {
        proof {
            other.lemma_wf_view();
        }
        let ghost a = self@;
        let n = other.len();
        for i in 0..n
            invariant
                n == other.keys().len(),
                other.wf(),
                other@.dom() == other.keys().to_set(),
                other.keys().no_duplicates(),
                self.wf(),
                self@ == map_join::<K, V>(a, other@.restrict(other.keys().take(i as int).to_set())),
        {
            let k = other.key_at(i);
            let v = other.value_at(i);
            let ghost kv = other.keys()[i as int];
            let ghost before = self@;
            let joined = match self.get(k) {
                Some(existing) => existing.join(v),
                None => v.duplicate(),
            };
            proof {
                k.lemma_always_valid();
            }
            self.insert(k.duplicate(), joined);
            proof {
                let p0 = other@.restrict(other.keys().take(i as int).to_set());
                let p1 = other@.restrict(other.keys().take(i + 1).to_set());
                assert(other.keys().take(i + 1) =~= other.keys().take(i as int).push(kv));
                lemma_push_to_set(other.keys().take(i as int), kv);
                assert(!other.keys().take(i as int).contains(kv)) by {
                    if other.keys().take(i as int).contains(kv) {
                        let j = choose|j: int| 0 <= j < i && other.keys().take(i as int)[j] == kv;
                        assert(other.keys()[j] == other.keys()[i as int]);
                    }
                }
                assert(!p0.contains_key(kv));
                assert(other@.contains_key(kv));
                assert(self@ =~= map_join::<K, V>(a, p1));
            }
        }
        proof {
            assert(other.keys().take(n as int) =~= other.keys());
            assert(other@.restrict(other.keys().to_set()) =~= other@);
        }
    }
}

/// The sum of the values of `m` at `keys`, taken in order.
pub open spec fn sum_values<K: OrderedKey>(
    keys: Seq<<K as DeepView>::V>,
    m: Map<<K as DeepView>::V, u64>,
) -> int
    decreases keys.len(),
{
    if keys.len() == 0 {
        0
    } else {
        sum_values::<K>(keys.drop_last(), m) + m[keys.last()]
    }
}

/// The sum of all values of a finite map.
pub open spec fn map_total<K: OrderedKey>(m: Map<<K as DeepView>::V, u64>) -> int {
    sum_values::<K>(ordered::<K>(m.dom()), m)
}

/// A prefix of the keys sums to no more than all of them.
pub proof fn lemma_sum_prefix<K: OrderedKey>(
    keys: Seq<<K as DeepView>::V>,
    m: Map<<K as DeepView>::V, u64>,
    i: int,
)
    requires
        0 <= i <= keys.len(),
    ensures
        0 <= sum_values::<K>(keys.take(i), m) <= sum_values::<K>(keys, m),
    decreases keys.len() - i,
{
    if i < keys.len() {
        lemma_sum_prefix::<K>(keys, m, i + 1);
        assert(keys.take(i + 1).drop_last() =~= keys.take(i));
    } else {
        assert(keys.take(i) =~= keys);
    }
    lemma_sum_nonneg::<K>(keys.take(i), m);
}

pub proof fn lemma_sum_nonneg<K: OrderedKey>(keys: Seq<<K as DeepView>::V>, m: Map<<K as DeepView>::V, u64>)
    ensures
        0 <= sum_values::<K>(keys, m),
    decreases keys.len(),
{
    if keys.len() > 0 {
        lemma_sum_nonneg::<K>(keys.drop_last(), m);
    }
}

proof fn lemma_sum_values_concat<K: OrderedKey>(
    a: Seq<<K as DeepView>::V>,
    b: Seq<<K as DeepView>::V>,
    m: Map<<K as DeepView>::V, u64>,
)
    ensures
        sum_values::<K>(a + b, m) == sum_values::<K>(a, m) + sum_values::<K>(b, m),
    decreases b.len(),
{
    if b.len() == 0 {
        assert(a + b =~= a);
    } else {
        lemma_sum_values_concat::<K>(a, b.drop_last(), m);
        assert((a + b).drop_last() =~= a + b.drop_last());
    }
}

proof fn lemma_sum_values_agree<K: OrderedKey>(
    keys: Seq<<K as DeepView>::V>,
    m1: Map<<K as DeepView>::V, u64>,
    m2: Map<<K as DeepView>::V, u64>,
)
    requires
        forall|i: int| 0 <= i < keys.len() ==> m1[#[trigger] keys[i]] == m2[keys[i]],
    ensures
        sum_values::<K>(keys, m1) == sum_values::<K>(keys, m2),
    decreases keys.len(),
{
    if keys.len() > 0 {
        lemma_sum_values_agree::<K>(keys.drop_last(), m1, m2);
        assert(m1[keys[keys.len() - 1]] == m2[keys[keys.len() - 1]]);
    }
}

/// The sum of the empty map is zero.
pub proof fn lemma_map_total_empty<K: OrderedKey>()
    ensures
        map_total::<K>(Map::<<K as DeepView>::V, u64>::empty()) == 0,
{
    let s = Set::<<K as DeepView>::V>::empty();
    lemma_ordered_props::<K>(s);
    let q = ordered::<K>(s);
    if q.len() > 0 {
        assert(q.to_set().contains(q[0]));
    }
    assert(Map::<<K as DeepView>::V, u64>::empty().dom() =~= s);
}

/// A value under a new key adds to the sum of a finite map.
pub proof fn lemma_map_total_insert<K: OrderedKey>(m: Map<<K as DeepView>::V, u64>, k: <K as DeepView>::V, v: u64)
    requires
        m.dom().finite(),
        !m.contains_key(k),
    ensures
        map_total::<K>(m.insert(k, v)) == map_total::<K>(m) + v,
{
    let m2 = m.insert(k, v);
    assert(m2.dom() =~= m.dom().insert(k));
    lemma_ordered_props::<K>(m.dom());
    lemma_ordered_props::<K>(m2.dom());
    let p = ordered::<K>(m.dom());
    let q = ordered::<K>(m2.dom());
    assert(!p.contains(k)) by {
        if p.contains(k) {
            assert(p.to_set().contains(k));
        }
    }
    let i = lemma_sorted_insert::<K>(p, q, k);
    assert forall|j: int| 0 <= j < p.len() implies m[#[trigger] p[j]] == m2[p[j]] by {
        assert(p.to_set().contains(p[j]));
    }
    lemma_sum_values_agree::<K>(p, m, m2);
    lemma_sum_values_concat::<K>(p.take(i) + seq![k], p.skip(i), m2);
    lemma_sum_values_concat::<K>(p.take(i), seq![k], m2);
    lemma_sum_values_concat::<K>(p.take(i), p.skip(i), m2);
    assert(p.take(i) + p.skip(i) =~= p);
    assert(seq![k].drop_last() =~= Seq::<<K as DeepView>::V>::empty());
    assert(seq![k].last() == k);
    assert(m2[k] == v);
    assert(sum_values::<K>(Seq::<<K as DeepView>::V>::empty(), m2) == 0);
    assert(sum_values::<K>(seq![k], m2) == v);
}

/// Setting a key of a finite map to `v` changes its sum by `v` less the value the
/// key had (zero where it had none).
pub proof fn lemma_map_total_update<K: OrderedKey>(m: Map<<K as DeepView>::V, u64>, k: <K as DeepView>::V, v: u64)
    requires
        m.dom().finite(),
    ensures
        map_total::<K>(m.insert(k, v)) == map_total::<K>(m) - (if m.contains_key(k) { m[k] as int } else { 0 })
            + v,
{
    let rest = m.remove(k);
    assert(rest.dom() =~= m.dom().remove(k));
    assert(m.insert(k, v) =~= rest.insert(k, v));
    lemma_map_total_insert::<K>(rest, k, v);
    if m.contains_key(k) {
        assert(m =~= rest.insert(k, m[k]));
        lemma_map_total_insert::<K>(rest, k, m[k]);
    } else {
        assert(rest =~= m);
    }
}

impl<K: OrderedKey> SortedMap<K, u64> {
    /// The sum of all values.
    pub fn total(&self) -> (r: u64)
        requires
            self.wf(),
            map_total::<K>(self@) <= u64::MAX,
        ensures
            r == map_total::<K>(self@),
    {
        proof {
            self.lemma_keys_ordered();
        }
        let n = self.len();
        let mut acc: u64 = 0;
        for i in 0..n
            invariant
                n == self.keys().len(),
                self.wf(),
                self.keys() == ordered::<K>(self@.dom()),
                map_total::<K>(self@) <= u64::MAX,
                acc == sum_values::<K>(self.keys().take(i as int), self@),
        {
            let v = *self.value_at(i);
            proof {
                assert(self.keys().take(i + 1).drop_last() =~= self.keys().take(i as int));
                lemma_sum_prefix::<K>(self.keys(), self@, i + 1);
            }
            acc = acc + v;
        }
        assert(self.keys().take(n as int) =~= self.keys());
        acc
    }

    /// Whether the map is well formed: its keys strictly increase.
    pub fn is_well_formed(&self) -> (r: bool)
        ensures
            r == self.wf(),
    {
        proof {
            Self::lemma_key_order_all();
        }
        let n = self.entries.len();
        if n == 0 {
            return true;
        }
        for i in 1..n
            invariant
                n == self.entries@.len(),
                forall|a: int, b: int| 0 <= a < b < i ==> K::key_lt(#[trigger] self.keys()[a], #[trigger] self.keys()[b]),
        {
            proof {
                Self::lemma_key_order_all();
            }
            if self.entries[i - 1].0.compare_key(&self.entries[i].0) != KeyOrder::Less {
                assert(!K::key_lt(self.keys()[i - 1], self.keys()[i as int]));
                return false;
            }
            assert forall|a: int, b: int| 0 <= a < b < i + 1 implies K::key_lt(
                #[trigger] self.keys()[a],
                #[trigger] self.keys()[b],
            ) by {
                if b == i && a < i - 1 {
                    assert(K::key_lt(self.keys()[a], self.keys()[i - 1]));
                }
            }
        }
        true
    }

    /// The sum of all values, or `None` where it does not fit in `u64`.
    pub fn checked_total(&self) -> (r: Option<u64>)
        requires
            self.wf(),
        ensures
            r is Some == (map_total::<K>(self@) <= u64::MAX),
            r is Some ==> r->0 == map_total::<K>(self@),
    {
        proof {
            self.lemma_keys_ordered();
        }
        let n = self.len();
        let mut acc: u64 = 0;
        for i in 0..n
            invariant
                n == self.keys().len(),
                self.wf(),
                self.keys() == ordered::<K>(self@.dom()),
                acc == sum_values::<K>(self.keys().take(i as int), self@),
        {
            let v = *self.value_at(i);
            proof {
                assert(self.keys().take(i + 1).drop_last() =~= self.keys().take(i as int));
                lemma_sum_prefix::<K>(self.keys(), self@, i + 1);
            }
            if acc > u64::MAX - v {
                return None;
            }
            acc = acc + v;
        }
        assert(self.keys().take(n as int) =~= self.keys());
        Some(acc)
    }
}

impl Join for u64 {
    open spec fn join_spec(a: u64, b: u64) -> u64 {
        if a >= b { a } else { b }
    }

    proof fn lemma_join_laws(a: u64, b: u64, c: u64) {
    }

    fn join(&self, other: &u64) -> (r: u64) {
        if *self >= *other { *self } else { *other }
    }
}

impl<K: OrderedKey> Join for SortedSet<K> {
    open spec fn join_spec(a: Set<<K as DeepView>::V>, b: Set<<K as DeepView>::V>) -> Set<<K as DeepView>::V> {
        a.union(b)
    }

    proof fn lemma_join_laws(a: Set<<K as DeepView>::V>, b: Set<<K as DeepView>::V>, c: Set<<K as DeepView>::V>) {
        assert(a.union(b) =~= b.union(a));
        assert(a.union(b).union(c) =~= a.union(b.union(c)));
        assert(a.union(a) =~= a);
    }

    fn join(&self, other: &Self) -> (r: Self) {
        let mut r = self.duplicate();
        r.extend_from(other);
        r
    }
}

impl<K: OrderedKey, V: SameValue> SameValue for SortedMap<K, V> {
    fn same_value(&self, other: &Self) -> (r: bool) {
        proof {
            self.lemma_keys_ordered();
            other.lemma_keys_ordered();
            Self::lemma_key_order_all();
        }
        let n = self.entries.len();
        if n != other.entries.len() {
            return false;
        }
        for i in 0..n
            invariant
                n == self.entries@.len(),
                n == other.entries@.len(),
                self.wf(),
                other.wf(),
                self.keys() == ordered::<K>(self@.dom()),
                other.keys() == ordered::<K>(other@.dom()),
                forall|j: int| 0 <= j < i ==> #[trigger] self.keys()[j] == other.keys()[j],
                forall|j: int| 0 <= j < i ==> #[trigger] self.value_view(j) == other.value_view(j),
        {
            proof {
                Self::lemma_key_order_all();
                self.lemma_index(i as int);
                other.lemma_index(i as int);
            }
            if self.entries[i].0.compare_key(&other.entries[i].0) != KeyOrder::Equal {
                assert(self.keys()[i as int] != other.keys()[i as int]);
                return false;
            }
            assert(self.keys()[i as int] == other.keys()[i as int]);
            if !self.entries[i].1.same_value(&other.entries[i].1) {
                return false;
            }
            assert(self.value_view(i as int) == other.value_view(i as int));
        }
        proof {
            assert(self.keys() =~= other.keys());
            assert forall|i: int| 0 <= i < other.keys().len() implies #[trigger] self@.contains_key(
                other.keys()[i],
            ) && self@[other.keys()[i]] == other.value_view(i) by {
                self.lemma_index(i);
            }
            assert forall|k: <K as DeepView>::V| #[trigger] self@.contains_key(k) implies other.keys().contains(k) by {
                let i = self.keys().index_of(k);
                assert(self.keys()[i] == k);
                assert(other.keys()[i] == k);
            }
            other.lemma_view_is(self@);
        }
        true
    }
}

impl<K: OrderedKey, V: Duplicate> Duplicate for SortedMap<K, V> {
    open spec fn valid(&self) -> bool {
        self.wf()
    }

    fn duplicate(&self) -> (r: Self) {
        assert(self.valid());
        assert(self.wf());
        let mut entries: Vec<(K, V)> = Vec::new();
        let n = self.entries.len();
        for i in 0..n
            invariant
                n == self.entries@.len(),
                entries@.len() == i,
                self.wf(),
                forall|j: int|
                    0 <= j < i ==> (#[trigger] entries@[j]).0.deep_view() == self.entries@[j].0.deep_view()
                        && entries@[j].1.deep_view() == self.entries@[j].1.deep_view()
                        && entries@[j].1.valid(),
        {
            proof {
                self.entries@[i as int].0.lemma_always_valid();
            }
            let k = self.entries[i].0.duplicate();
            let v = self.entries[i].1.duplicate();
            entries.push((k, v));
        }
        let r = SortedMap { entries };
        assert(r.keys() =~= self.keys());
        assert(r@ =~= self@) by {
            assert forall|k: <K as DeepView>::V| #[trigger] r@.contains_key(k) implies r@[k] == self@[k] by {
                assert(r.value_view(r.keys().index_of(k)) == self.value_view(self.keys().index_of(k)));
            }
        }
        r
    }
}

/// A set kept as a sorted map to the unit value.
#[derive(Debug, Clone, PartialEq, Eq)]
pub struct SortedSet<K> {
    map: SortedMap<K, ()>,
}

impl<K: OrderedKey> View for SortedSet<K> {
    type V = Set<<K as DeepView>::V>;

    closed spec fn view(&self) -> Self::V {
        self.map@.dom()
    }
}

impl<K: OrderedKey> DeepView for SortedSet<K> {
    type V = Set<<K as DeepView>::V>;

    open spec fn deep_view(&self) -> Self::V {
        self@
    }
}

impl<K: OrderedKey> SortedSet<K> {
    /// The elements' models in increasing order.
    pub closed spec fn elems(self) -> Seq<<K as DeepView>::V> {
        self.map.keys()
    }

    pub closed spec fn wf(self) -> bool {
        self.map.wf()
    }

    /// What a well-formed set's model is made of.
    /// The set holds its elements in the one increasing order of its contents.
    pub proof fn lemma_elems_ordered(self)
        requires
            self.wf(),
        ensures
            self.elems() == ordered::<K>(self@),
    {
        self.map.lemma_keys_ordered();
    }

    pub proof fn lemma_wf_view(self)
        requires
            self.wf(),
        ensures
            self@ == self.elems().to_set(),
            self@.finite(),
            self.elems().no_duplicates(),
            strictly_sorted::<K>(self.elems()),
    {
        self.map.lemma_wf_view();
    }

    pub fn new() -> (r: Self)
        ensures
            r.wf(),
            r@ == Set::<<K as DeepView>::V>::empty(),
    {
        let r = SortedSet { map: SortedMap::new() };
        assert(r@ =~= Set::<<K as DeepView>::V>::empty());
        r
    }

    pub fn len(&self) -> (n: usize)
        ensures
            n == self.elems().len(),
    {
        self.map.len()
    }

    /// The `i`-th element in increasing order.
    pub fn element_at(&self, i: usize) -> (k: &K)
        requires
            i < self.elems().len(),
        ensures
            k.deep_view() == self.elems()[i as int],
    {
        self.map.key_at(i)
    }

    pub fn contains(&self, key: &K) -> (r: bool)
        requires
            self.wf(),
        ensures
            r == self@.contains(key.deep_view()),
    {
        self.map.contains_key(key)
    }

    pub fn insert(&mut self, key: K)
        requires
            old(self).wf(),
        ensures
            final(self).wf(),
            final(self)@ == old(self)@.insert(key.deep_view()),
    {
        self.map.insert(key, ());
        assert(self@ =~= old(self)@.insert(key.deep_view()));
    }

    /// Adds every element of `other`.
    pub fn extend_from(&mut self, other: &SortedSet<K>)
        requires
            old(self).wf(),
            other.wf(),
        ensures
            final(self).wf(),
            final(self)@ == old(self)@.union(other@),
    {
        proof {
            other.lemma_wf_view();
        }
        let n = other.len();
        for i in 0..n
            invariant
                n == other.elems().len(),
                other.wf(),
                other@ == other.elems().to_set(),
                self.wf(),
                self@ == old(self)@.union(other.elems().take(i as int).to_set()),
        {
            let e = other.element_at(i);
            proof {
                e.lemma_always_valid();
            }
            let k = e.duplicate();
            self.insert(k);
            assert(other.elems().take(i + 1) =~= other.elems().take(i as int).push(other.elems()[i as int]));
            proof {
                lemma_push_to_set(other.elems().take(i as int), other.elems()[i as int]);
            }
            assert(self@ =~= old(self)@.union(other.elems().take(i + 1).to_set()));
        }
        assert(other.elems().take(n as int) =~= other.elems());
        assert(self@ =~= old(self)@.union(other@));
    }
}

impl<K: OrderedKey> Duplicate for SortedSet<K> {
    open spec fn valid(&self) -> bool {
        self.wf()
    }

    fn duplicate(&self) -> (r: Self) {
        let m = self.map.duplicate();
        SortedSet { map: m }
    }
}

impl<K: OrderedKey> SameValue for SortedSet<K> {
    fn same_value(&self, other: &Self) -> (r: bool) {
        let r = self.map.same_value(&other.map);
        proof {
            if self@ == other@ {
                assert(self.map@ =~= other.map@);
            }
        }
        r
    }
}

} // verus!
