//! Last-writer-wins register: the write with the highest Lamport timestamp wins,
//! and on equal timestamps the one from the greater replica id.
use vstd::prelude::*;
use crate::text::{compare_text, lemma_text_lt_irreflexive, lemma_text_lt_total, lemma_text_lt_transitive, text_lt, Duplicate, KeyOrder, SameValue};

verus! {

#[derive(Debug, Clone, PartialEq, Eq)]
pub struct LwwRegister<T> {
    pub value: T,
    pub timestamp: u64,
    pub replica_id: String,
}

/// The model of a register: its value's model, timestamp and replica id.
#[verifier::ext_equal]
pub struct LwwModel<M> {
    pub value: M,
    pub timestamp: u64,
    pub replica_id: Seq<char>,
}

impl<T: Duplicate> DeepView for LwwRegister<T> {
    type V = LwwModel<<T as DeepView>::V>;

    open spec fn deep_view(&self) -> Self::V {
        LwwModel { value: self.value.deep_view(), timestamp: self.timestamp, replica_id: self.replica_id@ }
    }
}

impl<T: Duplicate> View for LwwRegister<T> {
    type V = LwwModel<<T as DeepView>::V>;

    open spec fn view(&self) -> Self::V {
        self.deep_view()
    }
}

/// `a` wins over `b`: a later timestamp, or the same timestamp and a greater replica id.
pub open spec fn lww_wins<M>(a: LwwModel<M>, b: LwwModel<M>) -> bool {
    a.timestamp > b.timestamp || (a.timestamp == b.timestamp && text_lt(b.replica_id, a.replica_id))
}

/// The register that a merge keeps: `b` where it wins over `a`, else `a`.
pub open spec fn lww_merge<M>(a: LwwModel<M>, b: LwwModel<M>) -> LwwModel<M> {
    if lww_wins(b, a) {
        b
    } else {
        a
    }
}

impl<T: Duplicate> LwwRegister<T> {
    pub open spec fn wf(&self) -> bool {
        self.value.valid()
    }

    pub fn new(value: T, timestamp: u64, replica_id: &str) -> (r: Self)
        requires
            value.valid(),
        ensures
            r.wf(),
            r@ == (LwwModel { value: value.deep_view(), timestamp, replica_id: replica_id@ }),
    {
        LwwRegister { value, timestamp, replica_id: replica_id.to_owned() }
    }

    /// Writes `value` if this write wins over the current one.
    pub fn assign(&mut self, value: T, timestamp: u64, replica_id: &str)
        requires
            old(self).wf(),
            value.valid(),
        ensures
            final(self).wf(),
            final(self)@ == lww_merge(
                old(self)@,
                LwwModel { value: value.deep_view(), timestamp, replica_id: replica_id@ },
            ),
    {
        let candidate = Self::new(value, timestamp, replica_id);
        if candidate.wins_over(self) {
            *self = candidate;
        }
    }

    pub fn merge(&self, other: &Self) -> (r: Self)
        requires
            self.wf(),
            other.wf(),
        ensures
            r.wf(),
            r@ == lww_merge(self@, other@),
    {
        if other.wins_over(self) {
            other.duplicate()
        } else {
            self.duplicate()
        }
    }

    pub fn merge_mut(&mut self, other: &Self)
        requires
            old(self).wf(),
            other.wf(),
        ensures
            final(self).wf(),
            final(self)@ == lww_merge(old(self)@, other@),
    {
        *self = self.merge(other);
    }

    fn wins_over(&self, other: &Self) -> (r: bool)
        ensures
            r == lww_wins(self@, other@),
    {
        self.timestamp > other.timestamp || (self.timestamp == other.timestamp && compare_text(
            other.replica_id.as_str(),
            self.replica_id.as_str(),
        ) == KeyOrder::Less)
    }
}

impl<T: SameValue> SameValue for LwwRegister<T> {
    fn same_value(&self, other: &Self) -> (r: bool) {
        self.timestamp == other.timestamp && self.replica_id.same_value(&other.replica_id) && self.value.same_value(
            &other.value,
        )
    }
}

impl<T: Duplicate> Duplicate for LwwRegister<T> {
    open spec fn valid(&self) -> bool {
        self.wf()
    }

    fn duplicate(&self) -> (r: Self) {
        LwwRegister {
            value: self.value.duplicate(),
            timestamp: self.timestamp,
            replica_id: self.replica_id.clone(),
        }
    }
}

/// Merging two registers gives the same register in either order, unless they tie on
/// timestamp and replica id while holding different values.
pub proof fn lemma_lww_merge_commutative<M>(a: LwwModel<M>, b: LwwModel<M>)
    requires
        a.timestamp != b.timestamp || a.replica_id != b.replica_id || a == b,
    ensures
        lww_merge(a, b) == lww_merge(b, a),
{
    lemma_text_lt_total(a.replica_id, b.replica_id);
    if text_lt(a.replica_id, b.replica_id) && text_lt(b.replica_id, a.replica_id) {
        lemma_text_lt_transitive(a.replica_id, b.replica_id, a.replica_id);
        lemma_text_lt_irreflexive(a.replica_id);
    }
}

/// Merging three registers does not depend on how the merges are grouped.
pub proof fn lemma_lww_merge_associative<M>(a: LwwModel<M>, b: LwwModel<M>, c: LwwModel<M>)
    ensures
        lww_merge(lww_merge(a, b), c) == lww_merge(a, lww_merge(b, c)),
{
    if lww_wins(b, a) && lww_wins(c, b) {
        if a.timestamp == b.timestamp && b.timestamp == c.timestamp {
            lemma_text_lt_transitive(a.replica_id, b.replica_id, c.replica_id);
        }
    }
    if !lww_wins(b, a) && !lww_wins(c, b) {
        lemma_text_lt_total(a.replica_id, b.replica_id);
        lemma_text_lt_total(b.replica_id, c.replica_id);
        if lww_wins(c, a) && a.timestamp == b.timestamp && b.timestamp == c.timestamp {
            if text_lt(c.replica_id, b.replica_id) {
                lemma_text_lt_transitive(c.replica_id, b.replica_id, a.replica_id);
            }
            if text_lt(b.replica_id, a.replica_id) {
                lemma_text_lt_transitive(c.replica_id, b.replica_id, a.replica_id);
            }
            lemma_text_lt_irreflexive(a.replica_id);
            lemma_text_lt_irreflexive(c.replica_id);
            if text_lt(a.replica_id, c.replica_id) && text_lt(c.replica_id, a.replica_id) {
                lemma_text_lt_transitive(a.replica_id, c.replica_id, a.replica_id);
            }
        }
    }
    if lww_wins(b, a) && !lww_wins(c, b) {
        lemma_text_lt_total(a.replica_id, c.replica_id);
        if lww_wins(c, a) && a.timestamp == b.timestamp && b.timestamp == c.timestamp {
            lemma_text_lt_total(b.replica_id, c.replica_id);
            if text_lt(b.replica_id, c.replica_id) {
                lemma_text_lt_irreflexive(c.replica_id);
            }
        }
    }
    if !lww_wins(b, a) && lww_wins(c, b) {
        lemma_text_lt_total(a.replica_id, b.replica_id);
        lemma_text_lt_total(a.replica_id, c.replica_id);
        if a.timestamp == b.timestamp && b.timestamp == c.timestamp {
            if text_lt(c.replica_id, a.replica_id) {
                lemma_text_lt_transitive(b.replica_id, c.replica_id, a.replica_id);
            }
            if text_lt(a.replica_id, c.replica_id) && text_lt(c.replica_id, a.replica_id) {
                lemma_text_lt_transitive(a.replica_id, c.replica_id, a.replica_id);
                lemma_text_lt_irreflexive(a.replica_id);
            }
        }
    }
}

/// A register merged with itself is unchanged.
pub proof fn lemma_lww_merge_idempotent<M>(a: LwwModel<M>)
    ensures
        lww_merge(a, a) == a,
{
    lemma_text_lt_irreflexive(a.replica_id);
}

/// The later write wins: a merge keeps one of the two registers, the one with the
/// higher timestamp, and on equal timestamps the one with the greater replica id;
/// the kept timestamp is at least both.
pub proof fn lemma_lww_merge_keeps_latest<M>(a: LwwModel<M>, b: LwwModel<M>)
    ensures
        lww_merge(a, b) == a || lww_merge(a, b) == b,
        lww_merge(a, b).timestamp >= a.timestamp,
        lww_merge(a, b).timestamp >= b.timestamp,
        a.timestamp > b.timestamp ==> lww_merge(a, b) == a,
        b.timestamp > a.timestamp ==> lww_merge(a, b) == b,
        a.timestamp == b.timestamp && text_lt(a.replica_id, b.replica_id) ==> lww_merge(a, b) == b,
        a.timestamp == b.timestamp && text_lt(b.replica_id, a.replica_id) ==> lww_merge(a, b) == a,
{
    lemma_text_lt_irreflexive(a.replica_id);
    if text_lt(a.replica_id, b.replica_id) && text_lt(b.replica_id, a.replica_id) {
        lemma_text_lt_transitive(a.replica_id, b.replica_id, a.replica_id);
    }
}

} // verus!
