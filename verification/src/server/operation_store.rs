//! The server's operation store: every operation once, in arrival order, and the
//! operations a reconnecting client has not seen.
use vstd::prelude::*;
use crate::collections::SortedSet;
use crate::sync::operation::OpModel;
use crate::sync::operation_log::{models, op_ids};
use crate::sync::Operation;
use crate::text::{compare_text, lemma_text_lt_irreflexive, Duplicate, KeyOrder};

verus! {

#[derive(Debug)]
pub struct OperationStore {
    seen: SortedSet<String>,
    operations: Vec<Operation>,
}

impl View for OperationStore {
    type V = Seq<OpModel>;

    closed spec fn view(&self) -> Seq<OpModel> {
        models(self.operations@)
    }
}

/// The operations of `ops` whose ids are not among `seen`, in order.
pub open spec fn missing(ops: Seq<OpModel>, seen: Seq<Seq<char>>) -> Seq<OpModel>
    decreases ops.len(),
{
    if ops.len() == 0 {
        ops
    } else {
        let rest = missing(ops.drop_last(), seen);
        if seen.contains(ops.last().op_id) {
            rest
        } else {
            rest.push(ops.last())
        }
    }
}

impl Default for OperationStore {
    fn default() -> (r: Self)
        ensures
            r.wf(),
            r@ == Seq::<OpModel>::empty(),
    {
        let r = OperationStore { seen: SortedSet::new(), operations: Vec::new() };
        assert(r@ =~= Seq::<OpModel>::empty());
        assert(op_ids(r@).to_set() =~= Set::<Seq<char>>::empty());
        r
    }
}

impl OperationStore {
    /// The seen ids are those of the stored operations, which are distinct and well formed.
    pub closed spec fn wf(&self) -> bool {
        &&& self.seen.wf()
        &&& self.seen@ == op_ids(self@).to_set()
        &&& op_ids(self@).no_duplicates()
        &&& forall|i: int| 0 <= i < self.operations@.len() ==> (#[trigger] self.operations@[i]).wf()
    }

    /// Stores `operation` unless one with its id is stored.
    pub fn insert(&mut self, operation: Operation) -> (inserted: bool)
        requires
            old(self).wf(),
            operation.wf(),
        ensures
            final(self).wf(),
            inserted == !op_ids(old(self)@).contains(operation.deep_view().op_id),
            final(self)@ == if inserted {
                old(self)@.push(operation.deep_view())
            } else {
                old(self)@
            },
    {
        if self.seen.contains(&operation.op_id) {
            return false;
        }
        let ghost before = self@;
        self.seen.insert(operation.op_id.clone());
        self.operations.push(operation);
        proof {
            assert(self@ =~= before.push(operation.deep_view()));
            assert(op_ids(self@) =~= op_ids(before).push(operation.deep_view().op_id));
            crate::collections::lemma_push_to_set(op_ids(before), operation.deep_view().op_id);
            assert forall|a: int, b: int|
                0 <= a < op_ids(self@).len() && 0 <= b < op_ids(self@).len() && a != b implies op_ids(self@)[a]
                != op_ids(self@)[b] by {
                if a < before.len() && b < before.len() {
                } else if a == before.len() {
                    assert(op_ids(before)[b] == op_ids(self@)[b]);
                } else {
                    assert(op_ids(before)[a] == op_ids(self@)[a]);
                }
            }
        }
        true
    }

    /// The stored operations whose ids are not in `seen_operations`, in arrival order.
    pub fn missing_for(&self, seen_operations: &[String]) -> (r: Vec<Operation>)
        requires
            self.wf(),
        ensures
            models(r@) == missing(self@, seen_operations@.map_values(|s: String| s@)),
    {
        let ghost seen = seen_operations@.map_values(|s: String| s@);
        let mut out: Vec<Operation> = Vec::new();
        let n = self.operations.len();
        assert(self@.take(0) =~= Seq::<OpModel>::empty());
        for i in 0..n
            invariant
                n == self.operations@.len(),
                self.wf(),
                seen == seen_operations@.map_values(|s: String| s@),
                models(out@) == missing(self@.take(i as int), seen),
        {
            let operation = &self.operations[i];
            proof {
                assert(self@.take(i + 1).drop_last() =~= self@.take(i as int));
                assert(self@.take(i + 1).last() == operation.deep_view());
            }
            if !contains_text(seen_operations, operation.op_id.as_str()) {
                let ghost before = out@;
                let copy = operation.duplicate();
                out.push(copy);
                assert(models(out@) =~= models(before).push(copy.deep_view()));
            }
        }
        assert(self@.take(n as int) =~= self@);
        out
    }

    /// The number of stored operations.
    pub fn len(&self) -> (n: usize)
        ensures
            n == self@.len(),
    {
        self.operations.len()
    }
}

/// Whether `needle` is among `haystack`.
fn contains_text(haystack: &[String], needle: &str) -> (r: bool)
    ensures
        r == haystack@.map_values(|s: String| s@).contains(needle@),
{
    let ghost views = haystack@.map_values(|s: String| s@);
    let n = haystack.len();
    for i in 0..n
        invariant
            n == haystack@.len(),
            views == haystack@.map_values(|s: String| s@),
            forall|j: int| 0 <= j < i ==> #[trigger] views[j] != needle@,
    {
        proof {
            lemma_text_lt_irreflexive(needle@);
        }
        if compare_text(haystack[i].as_str(), needle) == KeyOrder::Equal {
            assert(views[i as int] == needle@);
            return true;
        }
    }
    false
}

} // verus!
