//! Positive-negative counter: per-replica totals of increments and of decrements,
//! merged by taking the larger total per replica.
use vstd::prelude::*;
use crate::collections::{lemma_map_join_laws, lemma_map_total_update, map_join, map_total, SortedMap};
use crate::text::{Duplicate, SameValue};

verus! {

#[derive(Debug, Clone, PartialEq, Eq)]
pub struct PNCounter {
    pub increments: SortedMap<String, u64>,
    pub decrements: SortedMap<String, u64>,
}

/// The model of a counter: the total added and the total taken by each replica.
#[verifier::ext_equal]
pub struct PNModel {
    pub increments: Map<Seq<char>, u64>,
    pub decrements: Map<Seq<char>, u64>,
}

/// The count a replica has in a per-replica map (zero where it has none).
pub open spec fn count_of(m: Map<Seq<char>, u64>, replica: Seq<char>) -> u64 {
    if m.contains_key(replica) {
        m[replica]
    } else {
        0
    }
}

/// The empty counter.
pub open spec fn pn_empty() -> PNModel {
    PNModel { increments: Map::empty(), decrements: Map::empty() }
}

/// `replica` adds `amount`.
pub open spec fn pn_increment(c: PNModel, replica: Seq<char>, amount: u64) -> PNModel {
    PNModel {
        increments: c.increments.insert(replica, (count_of(c.increments, replica) + amount) as u64),
        decrements: c.decrements,
    }
}

/// `replica` takes `amount`.
pub open spec fn pn_decrement(c: PNModel, replica: Seq<char>, amount: u64) -> PNModel {
    PNModel {
        increments: c.increments,
        decrements: c.decrements.insert(replica, (count_of(c.decrements, replica) + amount) as u64),
    }
}

/// The merge of two counters: per replica, the larger of the two totals.
pub open spec fn pn_merge(a: PNModel, b: PNModel) -> PNModel {
    PNModel {
        increments: map_join::<String, u64>(a.increments, b.increments),
        decrements: map_join::<String, u64>(a.decrements, b.decrements),
    }
}

/// Reading the value does not overflow: both totals fit in `u64` and their
/// difference, taken as `i64`, fits in `i64`.
pub open spec fn pn_value_defined(c: PNModel) -> bool {
    &&& map_total::<String>(c.increments) <= u64::MAX
    &&& map_total::<String>(c.decrements) <= u64::MAX
    &&& i64::MIN <= (map_total::<String>(c.increments) as u64 as i64) - (map_total::<String>(
        c.decrements,
    ) as u64 as i64) <= i64::MAX
}

/// The value: total increments minus total decrements, each total taken as `i64`.
pub open spec fn pn_value(c: PNModel) -> int {
    (map_total::<String>(c.increments) as u64 as i64) - (map_total::<String>(c.decrements) as u64 as i64)
}

impl DeepView for PNCounter {
    type V = PNModel;

    open spec fn deep_view(&self) -> PNModel {
        PNModel { increments: self.increments@, decrements: self.decrements@ }
    }
}

impl View for PNCounter {
    type V = PNModel;

    open spec fn view(&self) -> PNModel {
        self.deep_view()
    }
}

impl Default for PNCounter {
    fn default() -> (r: Self)
        ensures
            r.wf(),
            r@ == pn_empty(),
    {
        let r = PNCounter { increments: SortedMap::new(), decrements: SortedMap::new() };
        assert(r@ =~= pn_empty());
        r
    }
}

impl PNCounter {
    pub open spec fn wf(&self) -> bool {
        self.increments.wf() && self.decrements.wf()
    }

    pub fn increment(&mut self, replica_id: &str, amount: u64)
        requires
            old(self).wf(),
            count_of(old(self)@.increments, replica_id@) + amount <= u64::MAX,
        ensures
            final(self).wf(),
            final(self)@ == pn_increment(old(self)@, replica_id@, amount),
    {
        let key = replica_id.to_owned();
        let current = match self.increments.get(&key) {
            Some(v) => *v,
            None => 0,
        };
        self.increments.insert(key, current + amount);
    }

    pub fn decrement(&mut self, replica_id: &str, amount: u64)
        requires
            old(self).wf(),
            count_of(old(self)@.decrements, replica_id@) + amount <= u64::MAX,
        ensures
            final(self).wf(),
            final(self)@ == pn_decrement(old(self)@, replica_id@, amount),
    {
        let key = replica_id.to_owned();
        let current = match self.decrements.get(&key) {
            Some(v) => *v,
            None => 0,
        };
        self.decrements.insert(key, current + amount);
    }

    pub fn value(&self) -> (r: i64)
        requires
            self.wf(),
            pn_value_defined(self@),
        ensures
            r == pn_value(self@),
    {
        let increments = self.increments.total();
        let decrements = self.decrements.total();
        (increments as i64) - (decrements as i64)
    }

    /// The value, or `None` where reading it would overflow.
    pub fn checked_value(&self) -> (r: Option<i64>)
        requires
            self.wf(),
        ensures
            r is Some == pn_value_defined(self@),
            r is Some ==> r->0 == pn_value(self@),
    {
        let increments = match self.increments.checked_total() {
            Some(t) => t,
            None => return None,
        };
        let decrements = match self.decrements.checked_total() {
            Some(t) => t,
            None => return None,
        };
        (increments as i64).checked_sub(decrements as i64)
    }

    pub fn merge(&self, other: &Self) -> (r: Self)
        requires
            self.wf(),
            other.wf(),
        ensures
            r.wf(),
            r@ == pn_merge(self@, other@),
    {
        let mut merged = self.duplicate();
        merged.increments.join_from(&other.increments);
        merged.decrements.join_from(&other.decrements);
        merged
    }

    pub fn merge_mut(&mut self, other: &Self)
        requires
            old(self).wf(),
            other.wf(),
        ensures
            final(self).wf(),
            final(self)@ == pn_merge(old(self)@, other@),
    {
        *self = self.merge(other);
    }
}

impl SameValue for PNCounter {
    fn same_value(&self, other: &Self) -> (r: bool) {
        self.increments.same_value(&other.increments) && self.decrements.same_value(&other.decrements)
    }
}

impl Duplicate for PNCounter {
    open spec fn valid(&self) -> bool {
        self.wf()
    }

    fn duplicate(&self) -> (r: Self) {
        PNCounter { increments: self.increments.duplicate(), decrements: self.decrements.duplicate() }
    }
}

/// Counter merge is commutative, associative and idempotent.
pub proof fn lemma_pn_merge_laws(a: PNModel, b: PNModel, c: PNModel)
    ensures
        pn_merge(a, b) == pn_merge(b, a),
        pn_merge(pn_merge(a, b), c) == pn_merge(a, pn_merge(b, c)),
        pn_merge(a, a) == a,
{
    lemma_map_join_laws::<String, u64>(a.increments, b.increments, c.increments);
    lemma_map_join_laws::<String, u64>(a.decrements, b.decrements, c.decrements);
    assert(pn_merge(a, a) =~= a);
}

/// Taking chips lowers the value by exactly the amount taken: after `replica` takes
/// `amount`, its own total of decrements has grown by `amount`, every other
/// replica's totals are as they were, and the value is the value before less
/// `amount`. Totals above `i64::MAX` are left out, where reading the value wraps.
pub proof fn lemma_decrement_lowers_value(c: PNModel, replica: Seq<char>, amount: u64)
    requires
        c.increments.dom().finite(),
        c.decrements.dom().finite(),
        count_of(c.decrements, replica) + amount <= u64::MAX,
        map_total::<String>(c.increments) <= i64::MAX,
        map_total::<String>(c.decrements) + amount <= i64::MAX,
    ensures
        ({
            let d = pn_decrement(c, replica, amount);
            &&& count_of(d.decrements, replica) == count_of(c.decrements, replica) + amount
            &&& forall|q: Seq<char>| q != replica ==> #[trigger] count_of(d.decrements, q) == count_of(c.decrements, q)
            &&& forall|q: Seq<char>| #[trigger] count_of(d.increments, q) == count_of(c.increments, q)
            &&& pn_value_defined(d)
            &&& pn_value(d) == pn_value(c) - amount
        }),
{
    let d = pn_decrement(c, replica, amount);
    lemma_map_total_update::<String>(c.decrements, replica, (count_of(c.decrements, replica) + amount) as u64);
    assert(map_total::<String>(d.decrements) == map_total::<String>(c.decrements) + amount);
    crate::collections::lemma_sum_nonneg::<String>(crate::collections::ordered::<String>(c.increments.dom()), c.increments);
    crate::collections::lemma_sum_nonneg::<String>(crate::collections::ordered::<String>(c.decrements.dom()), c.decrements);
}

/// Adding chips raises the value by exactly the amount added: after `replica` adds
/// `amount`, its own total of increments has grown by `amount`, every other
/// replica's totals are as they were, and the value is the value before plus
/// `amount`. Totals above `i64::MAX` are left out, where reading the value wraps.
pub proof fn lemma_increment_raises_value(c: PNModel, replica: Seq<char>, amount: u64)
    requires
        c.increments.dom().finite(),
        c.decrements.dom().finite(),
        count_of(c.increments, replica) + amount <= u64::MAX,
        map_total::<String>(c.increments) + amount <= i64::MAX,
        map_total::<String>(c.decrements) <= i64::MAX,
    ensures
        ({
            let d = pn_increment(c, replica, amount);
            &&& count_of(d.increments, replica) == count_of(c.increments, replica) + amount
            &&& forall|q: Seq<char>| q != replica ==> #[trigger] count_of(d.increments, q) == count_of(c.increments, q)
            &&& forall|q: Seq<char>| #[trigger] count_of(d.decrements, q) == count_of(c.decrements, q)
            &&& pn_value_defined(d)
            &&& pn_value(d) == pn_value(c) + amount
        }),
{
    let d = pn_increment(c, replica, amount);
    lemma_map_total_update::<String>(c.increments, replica, (count_of(c.increments, replica) + amount) as u64);
    assert(map_total::<String>(d.increments) == map_total::<String>(c.increments) + amount);
    crate::collections::lemma_sum_nonneg::<String>(crate::collections::ordered::<String>(c.increments.dom()), c.increments);
    crate::collections::lemma_sum_nonneg::<String>(crate::collections::ordered::<String>(c.decrements.dom()), c.decrements);
}

/// A merge keeps, for every replica, the larger of the two totals it has for that
/// replica: nothing either side has counted is lost, and nothing is counted twice.
pub proof fn lemma_pn_merge_keeps_larger(a: PNModel, b: PNModel, q: Seq<char>)
    ensures
        count_of(pn_merge(a, b).increments, q) == if count_of(a.increments, q) >= count_of(b.increments, q) {
            count_of(a.increments, q)
        } else {
            count_of(b.increments, q)
        },
        count_of(pn_merge(a, b).decrements, q) == if count_of(a.decrements, q) >= count_of(b.decrements, q) {
            count_of(a.decrements, q)
        } else {
            count_of(b.decrements, q)
        },
{
}

} // verus!
