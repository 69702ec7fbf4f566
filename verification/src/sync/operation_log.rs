//! The operation log: every operation seen, once each, in arrival order; and the
//! replay order that sorts operations by (Lamport time, replica id, operation id).
use vstd::prelude::*;
use vstd::multiset::Multiset;
use crate::collections::SortedSet;
use crate::sync::operation::{lemma_op_order, op_lt, OpModel, Operation};
use crate::text::Duplicate;

verus! {

/// The models of a sequence of operations.
pub open spec fn models(s: Seq<Operation>) -> Seq<OpModel> {
    s.map_values(|o: Operation| o.deep_view())
}

/// The ids of a sequence of operations.
pub open spec fn op_ids(s: Seq<OpModel>) -> Seq<Seq<char>> {
    s.map_values(|o: OpModel| o.op_id)
}

/// Inserts `x` into `t` after every element that does not come after it.
pub open spec fn insert_sorted(t: Seq<OpModel>, x: OpModel) -> Seq<OpModel>
    decreases t.len(),
{
    if t.len() == 0 {
        seq![x]
    } else if op_lt(x, t.last()) {
        insert_sorted(t.drop_last(), x).push(t.last())
    } else {
        t.push(x)
    }
}

/// The stable sort of `s` into replay order (insertion sort, as `sort_by` orders it).
pub open spec fn sort_ops(s: Seq<OpModel>) -> Seq<OpModel>
    decreases s.len(),
{
    if s.len() == 0 {
        s
    } else {
        insert_sorted(sort_ops(s.drop_last()), s.last())
    }
}

proof fn lemma_insert_sorted_at(t: Seq<OpModel>, x: OpModel, j: int)
    requires
        0 <= j <= t.len(),
        forall|k: int| j <= k < t.len() ==> op_lt(x, #[trigger] t[k]),
        j > 0 ==> !op_lt(x, t[j - 1]),
    ensures
        insert_sorted(t, x) == t.insert(j, x),
    decreases t.len() - j,
{
    if t.len() == 0 {
        assert(t.insert(j, x) =~= seq![x]);
    } else if j == t.len() {
        assert(t.insert(j, x) =~= t.push(x));
    } else {
        assert(op_lt(x, t[t.len() - 1]));
        lemma_insert_sorted_at(t.drop_last(), x, j);
        assert(t.drop_last().insert(j, x).push(t.last()) =~= t.insert(j, x));
    }
}

/// Sorts operations into replay order; a stable sort, as `sort_by` is.
pub fn sort_operations(ops: &[Operation]) -> (r: Vec<Operation>)
    requires
        forall|i: int| 0 <= i < ops@.len() ==> (#[trigger] ops@[i]).wf(),
    ensures
        models(r@) == sort_ops(models(ops@)),
        forall|i: int| 0 <= i < r@.len() ==> (#[trigger] r@[i]).wf(),
{
    let mut out: Vec<Operation> = Vec::new();
    let n = ops.len();
    assert(models(ops@).take(0) =~= Seq::<OpModel>::empty());
    assert(models(out@) =~= Seq::<OpModel>::empty());
    for i in 0..n
        invariant
            n == ops@.len(),
            forall|k: int| 0 <= k < ops@.len() ==> (#[trigger] ops@[k]).wf(),
            models(out@) == sort_ops(models(ops@).take(i as int)),
            forall|k: int| 0 <= k < out@.len() ==> (#[trigger] out@[k]).wf(),
    {
        let x = ops[i].duplicate();
        let mut j = out.len();
        while j > 0 && x.precedes(&out[j - 1])
            invariant
                j <= out@.len(),
                forall|k: int| j <= k < out@.len() ==> op_lt(x.deep_view(), #[trigger] models(out@)[k]),
            decreases j,
        {
            j = j - 1;
        }
        proof {
            lemma_insert_sorted_at(models(out@), x.deep_view(), j as int);
            assert(models(ops@).take(i + 1).drop_last() =~= models(ops@).take(i as int));
        }
        let ghost before = out@;
        out.insert(j, x);
        assert(models(out@) =~= models(before).insert(j as int, x.deep_view()));
    }
    assert(models(ops@).take(n as int) =~= models(ops@));
    out
}

#[derive(Debug, Clone, PartialEq, Eq)]
pub struct OperationLog {
    pub seen_operations: SortedSet<String>,
    pub operations: Vec<Operation>,
}

impl View for OperationLog {
    type V = Seq<OpModel>;

    open spec fn view(&self) -> Seq<OpModel> {
        models(self.operations@)
    }
}

/// Inserting `ops` one by one into a log that holds `log`: an operation whose id is
/// already there is skipped. The new log and the number inserted.
pub open spec fn log_insert_all(log: Seq<OpModel>, ops: Seq<OpModel>) -> (Seq<OpModel>, nat)
    decreases ops.len(),
{
    if ops.len() == 0 {
        (log, 0)
    } else {
        let (l, c) = log_insert_all(log, ops.drop_last());
        if op_ids(l).contains(ops.last().op_id) {
            (l, c)
        } else {
            (l.push(ops.last()), c + 1)
        }
    }
}

impl Default for OperationLog {
    fn default() -> (r: Self)
        ensures
            r.wf(),
            r@ == Seq::<OpModel>::empty(),
    {
        let r = OperationLog { seen_operations: SortedSet::new(), operations: Vec::new() };
        assert(r@ =~= Seq::<OpModel>::empty());
        assert(op_ids(r@).to_set() =~= Set::<Seq<char>>::empty());
        r
    }
}

impl OperationLog {
    /// The seen ids are those of the operations, which are distinct, and every
    /// operation is well formed.
    pub open spec fn wf(&self) -> bool {
        &&& self.seen_operations.wf()
        &&& self.seen_operations@ == op_ids(self@).to_set()
        &&& op_ids(self@).no_duplicates()
        &&& forall|i: int| 0 <= i < self.operations@.len() ==> (#[trigger] self.operations@[i]).wf()
    }

    /// Adds `operation` unless an operation with its id is already in the log.
    pub fn insert(&mut self, operation: Operation) -> (inserted: bool)
        requires
            old(self).wf(),
            operation.wf(),
        ensures
            final(self).wf(),
            inserted == !op_ids(old(self)@).contains(operation.deep_view().op_id),
            final(self)@ == if inserted {
                old(self)@.push(operation.deep_view())
            } else {
                old(self)@
            },
    {
        if self.seen_operations.contains(&operation.op_id) {
            return false;
        }
        let ghost before = self@;
        self.seen_operations.insert(operation.op_id.clone());
        self.operations.push(operation);
        proof {
            assert(self@ =~= before.push(operation.deep_view()));
            assert(op_ids(self@) =~= op_ids(before).push(operation.deep_view().op_id));
            crate::collections::lemma_push_to_set(op_ids(before), operation.deep_view().op_id);
            assert(op_ids(self@).no_duplicates()) by {
                assert forall|a: int, b: int|
                    0 <= a < op_ids(self@).len() && 0 <= b < op_ids(self@).len() && a != b implies op_ids(
                    self@,
                )[a] != op_ids(self@)[b] by {
                    if a < before.len() && b < before.len() {
                    } else if a == before.len() {
                        assert(op_ids(before)[b] == op_ids(self@)[b]);
                    } else {
                        assert(op_ids(before)[a] == op_ids(self@)[a]);
                    }
                }
            }
        }
        true
    }

    /// Whether an operation with this id is in the log.
    pub fn contains(&self, op_id: &str) -> (r: bool)
        requires
            self.wf(),
        ensures
            r == op_ids(self@).contains(op_id@),
    {
        self.seen_operations.contains(&op_id.to_owned())
    }

    /// Inserts each of `operations` in turn and counts those that were new.
    pub fn merge(&mut self, operations: Vec<Operation>) -> (count: usize)
        requires
            old(self).wf(),
            forall|i: int| 0 <= i < operations@.len() ==> (#[trigger] operations@[i]).wf(),
        ensures
            final(self).wf(),
            (final(self)@, count as nat) == log_insert_all(old(self)@, models(operations@)),
    {
        let mut count: usize = 0;
        let n = operations.len();
        assert(models(operations@).take(0) =~= Seq::<OpModel>::empty());
        for i in 0..n
            invariant
                n == operations@.len(),
                forall|k: int| 0 <= k < operations@.len() ==> (#[trigger] operations@[k]).wf(),
                self.wf(),
                count <= i,
                (self@, count as nat) == log_insert_all(old(self)@, models(operations@).take(i as int)),
        {
            assert(models(operations@).take(i + 1).drop_last() =~= models(operations@).take(i as int));
            if self.insert(operations[i].duplicate()) {
                count = count + 1;
            }
        }
        assert(models(operations@).take(n as int) =~= models(operations@));
        count
    }

    /// The operations in replay order.
    pub fn sorted_operations(&self) -> (r: Vec<Operation>)
        requires
            self.wf(),
        ensures
            models(r@) == sort_ops(self@),
            forall|i: int| 0 <= i < r@.len() ==> (#[trigger] r@[i]).wf(),
    {
        sort_operations(self.operations.as_slice())
    }

    /// The ids of the operations, in increasing order.
    pub fn ids(&self) -> (r: Vec<String>)
        requires
            self.wf(),
        ensures
            r@.map_values(|s: String| s@) == self.seen_operations.elems(),
            self.seen_operations.elems().to_set() == op_ids(self@).to_set(),
    {
        proof {
            self.seen_operations.lemma_wf_view();
        }
        let n = self.seen_operations.len();
        let mut out: Vec<String> = Vec::new();
        for i in 0..n
            invariant
                n == self.seen_operations.elems().len(),
                out@.map_values(|s: String| s@) == self.seen_operations.elems().take(i as int),
        {
            let e = self.seen_operations.element_at(i);
            let c = e.clone();
            let ghost prev = out@;
            out.push(c);
            assert(c@ == self.seen_operations.elems()[i as int]);
            assert(out@.map_values(|s: String| s@) =~= prev.map_values(|s: String| s@).push(c@));
            assert(out@.map_values(|s: String| s@) =~= self.seen_operations.elems().take(i + 1));
        }
        assert(self.seen_operations.elems().take(n as int) =~= self.seen_operations.elems());
        out
    }
}

} // verus!

verus! {

/// Every element comes no earlier in replay order than those before it.
pub open spec fn sorted_ops(t: Seq<OpModel>) -> bool {
    forall|i: int, j: int| 0 <= i < j < t.len() ==> !op_lt(#[trigger] t[j], #[trigger] t[i])
}

/// Within `m`, the replay key (Lamport time, replica id, operation id) names a
/// single operation.
pub open spec fn keys_determine(m: Multiset<OpModel>) -> bool {
    forall|a: OpModel, b: OpModel|
        #[trigger] m.count(a) > 0 && #[trigger] m.count(b) > 0 && a.lamport_time == b.lamport_time
            && a.replica_id == b.replica_id && a.op_id == b.op_id ==> a == b
}

proof fn lemma_op_order_all()
    ensures
        forall|a: OpModel| !#[trigger] op_lt(a, a),
        forall|a: OpModel, b: OpModel, c: OpModel| #[trigger] op_lt(a, b) && #[trigger] op_lt(b, c) ==> op_lt(a, c),
        forall|a: OpModel, b: OpModel| #[trigger] op_lt(a, b) ==> !op_lt(b, a),
        forall|a: OpModel, b: OpModel|
            !#[trigger] op_lt(a, b) && !#[trigger] op_lt(b, a) ==> a.lamport_time == b.lamport_time
                && a.replica_id == b.replica_id && a.op_id == b.op_id,
{
    assert forall|a: OpModel| !#[trigger] op_lt(a, a) by {
        lemma_op_order(a, a, a);
    }
    assert forall|a: OpModel, b: OpModel, c: OpModel| #[trigger] op_lt(a, b) && #[trigger] op_lt(b, c) implies op_lt(
        a,
        c,
    ) by {
        lemma_op_order(a, b, c);
    }
    assert forall|a: OpModel, b: OpModel| #[trigger] op_lt(a, b) implies !op_lt(b, a) by {
        lemma_op_order(a, b, a);
    }
    assert forall|a: OpModel, b: OpModel|
        !#[trigger] op_lt(a, b) && !#[trigger] op_lt(b, a) implies a.lamport_time == b.lamport_time
            && a.replica_id == b.replica_id && a.op_id == b.op_id by {
        lemma_op_order(a, b, a);
    }
}

proof fn lemma_insert_sorted_props(t: Seq<OpModel>, x: OpModel)
    requires
        sorted_ops(t),
    ensures
        sorted_ops(insert_sorted(t, x)),
        insert_sorted(t, x).to_multiset() == t.to_multiset().insert(x),
    decreases t.len(),
{
    broadcast use vstd::seq_lib::group_to_multiset_ensures;

    lemma_op_order_all();
    if t.len() == 0 {
        assert(seq![x] =~= Seq::<OpModel>::empty().push(x));
        assert(t =~= Seq::<OpModel>::empty());
    } else if op_lt(x, t.last()) {
        let r0 = insert_sorted(t.drop_last(), x);
        lemma_insert_sorted_props(t.drop_last(), x);
        assert(t.drop_last().push(t.last()) =~= t);
        let r = r0.push(t.last());
        assert forall|i: int, j: int| 0 <= i < j < r.len() implies !op_lt(#[trigger] r[j], #[trigger] r[i]) by {
            if j == r.len() - 1 {
                let e = r0[i];
                assert(r0.to_multiset().count(e) > 0) by {
                    assert(r0.contains(e));
                }
                if e != x {
                    assert(t.drop_last().to_multiset().count(e) > 0);
                    assert(t.drop_last().contains(e));
                    let k = choose|k: int| 0 <= k < t.drop_last().len() && t.drop_last()[k] == e;
                    assert(t[k] == e);
                    assert(!op_lt(t[t.len() - 1], t[k]));
                }
            }
        }
    } else {
        assert forall|i: int, j: int|
            0 <= i < j < t.push(x).len() implies !op_lt(#[trigger] t.push(x)[j], #[trigger] t.push(x)[i]) by {
            if j == t.len() {
                assert(t.push(x)[j] == x);
                assert(t.push(x)[i] == t[i]);
                if i < t.len() - 1 {
                    let l = t[t.len() - 1];
                    assert(!op_lt(l, t[i]));
                    if op_lt(x, t[i]) {
                        if op_lt(t[i], l) {
                            assert(op_lt(x, l));
                        } else {
                            assert(t[i].lamport_time == l.lamport_time && t[i].replica_id == l.replica_id
                                && t[i].op_id == l.op_id);
                            assert(op_lt(x, l));
                        }
                    }
                }
            } else {
                assert(t.push(x)[j] == t[j]);
                assert(t.push(x)[i] == t[i]);
            }
        }
    }
}

/// Sorting puts operations in replay order and keeps each of them exactly once.
pub proof fn lemma_sort_props(s: Seq<OpModel>)
    ensures
        sorted_ops(sort_ops(s)),
        sort_ops(s).to_multiset() == s.to_multiset(),
    decreases s.len(),
{
    broadcast use vstd::seq_lib::group_to_multiset_ensures;

    if s.len() == 0 {
    } else {
        lemma_sort_props(s.drop_last());
        lemma_insert_sorted_props(sort_ops(s.drop_last()), s.last());
        assert(s.drop_last().push(s.last()) =~= s);
    }
}

proof fn lemma_sorted_unique_ops(t1: Seq<OpModel>, t2: Seq<OpModel>)
    requires
        sorted_ops(t1),
        sorted_ops(t2),
        t1.to_multiset() == t2.to_multiset(),
        keys_determine(t1.to_multiset()),
    ensures
        t1 == t2,
    decreases t1.len(),
{
    broadcast use vstd::seq_lib::group_to_multiset_ensures;
    broadcast use vstd::multiset::group_multiset_axioms;

    lemma_op_order_all();
    assert(t1.len() == t1.to_multiset().len());
    assert(t2.len() == t2.to_multiset().len());
    if t1.len() == 0 {
        assert(t1 =~= t2);
    } else {
        let n = t1.len();
        let a = t1.last();
        let b = t2.last();
        assert(t1.contains(a));
        assert(t2.contains(b));
        assert(t1.to_multiset().count(b) > 0);
        assert(t2.to_multiset().count(a) > 0);
        assert(t1.contains(b));
        assert(t2.contains(a));
        let i = choose|i: int| 0 <= i < t1.len() && t1[i] == b;
        let j = choose|j: int| 0 <= j < t2.len() && t2[j] == a;
        if i < n - 1 {
            assert(!op_lt(t1[n - 1], t1[i]));
        }
        if j < n - 1 {
            assert(!op_lt(t2[n - 1], t2[j]));
        }
        assert(a.op_id == b.op_id && a.lamport_time == b.lamport_time && a.replica_id == b.replica_id);
        assert(a == b);
        let r1 = t1.drop_last();
        let r2 = t2.drop_last();
        assert(t1 =~= r1.push(a));
        assert(t2 =~= r2.push(a));
        assert(r1.to_multiset() =~= t1.to_multiset().remove(a));
        assert(r2.to_multiset() =~= t2.to_multiset().remove(a));
        assert forall|x: OpModel, y: OpModel|
            #[trigger] r1.to_multiset().count(x) > 0 && #[trigger] r1.to_multiset().count(y) > 0
                && x.lamport_time == y.lamport_time && x.replica_id == y.replica_id && x.op_id
                == y.op_id implies x == y by {
            assert(t1.to_multiset().count(x) > 0);
            assert(t1.to_multiset().count(y) > 0);
        }
        lemma_sorted_unique_ops(r1, r2);
    }
}

/// The replay order of a collection of operations in which a replay key names one
/// operation depends only on which operations it holds, not on the order in which
/// they arrived.
pub proof fn lemma_sort_depends_only_on_contents(s1: Seq<OpModel>, s2: Seq<OpModel>)
    requires
        s1.to_multiset() == s2.to_multiset(),
        keys_determine(s1.to_multiset()),
    ensures
        sort_ops(s1) == sort_ops(s2),
{
    lemma_sort_props(s1);
    lemma_sort_props(s2);
    lemma_sorted_unique_ops(sort_ops(s1), sort_ops(s2));
}

/// Operations already in replay order, with distinct ids, are their own replay order.
pub proof fn lemma_sorted_is_own_sort(t: Seq<OpModel>)
    requires
        sorted_ops(t),
        op_ids(t).no_duplicates(),
    ensures
        sort_ops(t) == t,
{
    lemma_sort_props(t);
    lemma_distinct_ids_determine(t);
    lemma_sorted_unique_ops(sort_ops(t), t);
}

/// In a sequence without repeated ids, an id, and so a replay key, names a single
/// operation.
pub proof fn lemma_distinct_ids_determine(s: Seq<OpModel>)
    requires
        op_ids(s).no_duplicates(),
    ensures
        keys_determine(s.to_multiset()),
{
    broadcast use vstd::seq_lib::group_to_multiset_ensures;

    assert forall|a: OpModel, b: OpModel|
        #[trigger] s.to_multiset().count(a) > 0 && #[trigger] s.to_multiset().count(b) > 0
            && a.lamport_time == b.lamport_time && a.replica_id == b.replica_id && a.op_id
            == b.op_id implies a == b by {
        assert(s.contains(a));
        assert(s.contains(b));
        let i = choose|i: int| 0 <= i < s.len() && s[i] == a;
        let j = choose|j: int| 0 <= j < s.len() && s[j] == b;
        assert(op_ids(s)[i] == op_ids(s)[j]);
    }
}

} // verus!
