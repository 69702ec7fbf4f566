//! What replicas share once they have seen the same operations: the order in which
//! operations arrive, and how often, does not change the state they rebuild.
use vstd::prelude::*;
use crate::client::client::{ingest_ok, LocalClient};
use crate::crdt::bounded_counter::{available_result, rights_value};
use crate::domain::state::{amounts_fit, bc_at, lemma_rights_never_negative};
use crate::domain::state::{empty_state, lemma_rebuild_depends_only_on_contents, lemma_replay_ok_prefix, rebuild_ok, rebuilt};
use crate::server::operation_store::missing;
use crate::sync::operation::OpModel;
use crate::sync::operation_log::{
    lemma_distinct_ids_determine, lemma_sorted_is_own_sort, log_insert_all, op_ids, sorted_ops,
};

verus! {

/// Within `s`, an operation id names a single operation.
pub open spec fn one_op_per_id(s: Seq<OpModel>) -> bool {
    forall|i: int, j: int|
        0 <= i < s.len() && 0 <= j < s.len() && (#[trigger] s[i]).op_id == (#[trigger] s[j]).op_id ==> s[i]
            == s[j]
}

/// Two sequences hold the same operations.
pub open spec fn same_ops(s1: Seq<OpModel>, s2: Seq<OpModel>) -> bool {
    forall|x: OpModel| s1.contains(x) <==> s2.contains(x)
}

proof fn lemma_distinct_ids_distinct_ops(s: Seq<OpModel>)
    requires
        op_ids(s).no_duplicates(),
    ensures
        s.no_duplicates(),
{
    assert forall|i: int, j: int| 0 <= i < s.len() && 0 <= j < s.len() && i != j implies s[i] != s[j] by {
        assert(op_ids(s)[i] == s[i].op_id);
        assert(op_ids(s)[j] == s[j].op_id);
    }
}

/// Logs with distinct ids that hold the same operations rebuild the same state, and
/// rebuilding overflows for one exactly when it does for the other.
proof fn lemma_same_ops_rebuild(s1: Seq<OpModel>, s2: Seq<OpModel>)
    requires
        op_ids(s1).no_duplicates(),
        op_ids(s2).no_duplicates(),
        same_ops(s1, s2),
    ensures
        rebuilt(s1) == rebuilt(s2),
        rebuild_ok(s1) == rebuild_ok(s2),
{
    broadcast use vstd::seq_lib::group_to_multiset_ensures;

    lemma_distinct_ids_distinct_ops(s1);
    lemma_distinct_ids_distinct_ops(s2);
    s1.lemma_multiset_has_no_duplicates();
    s2.lemma_multiset_has_no_duplicates();
    assert forall|x: OpModel| s1.to_multiset().count(x) == s2.to_multiset().count(x) by {
        if s1.contains(x) {
            assert(s1.to_multiset().contains(x));
            assert(s2.to_multiset().contains(x));
        } else {
            assert(!s2.contains(x));
        }
    }
    assert(s1.to_multiset() =~= s2.to_multiset());
    lemma_distinct_ids_determine(s1);
    lemma_rebuild_depends_only_on_contents(s1, s2);
}

/// Taking operations into a log with distinct ids, where an id names one operation
/// among the log and the operations, leaves a log with distinct ids that holds
/// exactly the operations of both.
pub proof fn lemma_insert_all_contents(log: Seq<OpModel>, ops: Seq<OpModel>)
    requires
        op_ids(log).no_duplicates(),
        one_op_per_id(log + ops),
    ensures
        op_ids(log_insert_all(log, ops).0).no_duplicates(),
        forall|x: OpModel| #[trigger] log_insert_all(log, ops).0.contains(x) <==> (log.contains(x) || ops.contains(x)),
    decreases ops.len(),
{
    if ops.len() > 0 {
        let rest = ops.drop_last();
        let last = ops.last();
        assert forall|i: int, j: int|
            0 <= i < (log + rest).len() && 0 <= j < (log + rest).len() && (#[trigger] (log + rest)[i]).op_id == (
            #[trigger] (log + rest)[j]).op_id implies (log + rest)[i] == (log + rest)[j] by {
            assert((log + rest)[i] == (log + ops)[i]);
            assert((log + rest)[j] == (log + ops)[j]);
        }
        lemma_insert_all_contents(log, rest);
        let l = log_insert_all(log, rest).0;
        assert((log + ops)[log.len() + ops.len() - 1] == last);
        if op_ids(l).contains(last.op_id) {
            let k = choose|k: int| 0 <= k < op_ids(l).len() && op_ids(l)[k] == last.op_id;
            let y = l[k];
            assert(l.contains(y));
            assert(y.op_id == last.op_id);
            let p: int = if log.contains(y) {
                choose|p: int| 0 <= p < log.len() && log[p] == y
            } else {
                let q = choose|q: int| 0 <= q < rest.len() && rest[q] == y;
                log.len() + q
            };
            assert((log + ops)[p] == y);
            assert(y == last);
            assert forall|x: OpModel| l.contains(x) <==> (log.contains(x) || ops.contains(x)) by {
                if ops.contains(x) && !rest.contains(x) {
                    let q = choose|q: int| 0 <= q < ops.len() && ops[q] == x;
                    if q < rest.len() {
                        assert(rest[q] == x);
                    }
                    assert(x == last);
                }
                if rest.contains(x) {
                    let q = choose|q: int| 0 <= q < rest.len() && rest[q] == x;
                    assert(ops[q] == x);
                }
            }
        } else {
            let l2 = l.push(last);
            assert(op_ids(l2) =~= op_ids(l).push(last.op_id));
            assert forall|x: OpModel| l2.contains(x) <==> (log.contains(x) || ops.contains(x)) by {
                if l2.contains(x) && x != last {
                    let q = choose|q: int| 0 <= q < l2.len() && l2[q] == x;
                    assert(l[q] == x);
                }
                if x == last {
                    assert(l2[l.len() as int] == x);
                    assert(ops[ops.len() - 1] == x);
                }
                if ops.contains(x) && x != last {
                    let q = choose|q: int| 0 <= q < ops.len() && ops[q] == x;
                    assert(rest[q] == x);
                }
                if rest.contains(x) {
                    let q = choose|q: int| 0 <= q < rest.len() && rest[q] == x;
                    assert(ops[q] == x);
                }
                if l.contains(x) {
                    let q = choose|q: int| 0 <= q < l.len() && l[q] == x;
                    assert(l2[q] == x);
                }
            }
        }
    }
}

/// Delivery order and duplicates do not matter: a log that takes in the same
/// operations, in whatever order and however often, ends up holding the same
/// operations and rebuilds the same state.
pub proof fn lemma_delivery_order_irrelevant(log: Seq<OpModel>, ops1: Seq<OpModel>, ops2: Seq<OpModel>)
    requires
        op_ids(log).no_duplicates(),
        one_op_per_id(log + ops1),
        same_ops(ops1, ops2),
    ensures
        same_ops(log_insert_all(log, ops1).0, log_insert_all(log, ops2).0),
        rebuilt(log_insert_all(log, ops1).0) == rebuilt(log_insert_all(log, ops2).0),
        rebuild_ok(log_insert_all(log, ops1).0) == rebuild_ok(log_insert_all(log, ops2).0),
{
    assert forall|i: int, j: int|
        0 <= i < (log + ops2).len() && 0 <= j < (log + ops2).len() && (#[trigger] (log + ops2)[i]).op_id == (
        #[trigger] (log + ops2)[j]).op_id implies (log + ops2)[i] == (log + ops2)[j] by {
        let a = (log + ops2)[i];
        let b = (log + ops2)[j];
        let pa: int = if i < log.len() {
            i
        } else {
            assert(ops2[i - log.len()] == a);
            assert(ops1.contains(a));
            let q = choose|q: int| 0 <= q < ops1.len() && ops1[q] == a;
            log.len() + q
        };
        let pb: int = if j < log.len() {
            j
        } else {
            assert(ops2[j - log.len()] == b);
            assert(ops1.contains(b));
            let q = choose|q: int| 0 <= q < ops1.len() && ops1[q] == b;
            log.len() + q
        };
        assert((log + ops1)[pa] == a);
        assert((log + ops1)[pb] == b);
    }
    lemma_insert_all_contents(log, ops1);
    lemma_insert_all_contents(log, ops2);
    lemma_same_ops_rebuild(log_insert_all(log, ops1).0, log_insert_all(log, ops2).0);
}

/// Replicas whose logs hold the same operations have the same state.
pub proof fn lemma_replicas_converge(a: LocalClient, b: LocalClient)
    requires
        a.wf(),
        b.wf(),
        same_ops(a.log@, b.log@),
    ensures
        a.state@ == b.state@,
{
    lemma_same_ops_rebuild(a.log@, b.log@);
}

/// A log with distinct ids, taken in from nothing, is taken in whole and in order.
pub(crate) proof fn lemma_distinct_into_empty(log: Seq<OpModel>)
    requires
        op_ids(log).no_duplicates(),
    ensures
        log_insert_all(Seq::<OpModel>::empty(), log).0 == log,
    decreases log.len(),
{
    if log.len() > 0 {
        let rest = log.drop_last();
        let n = log.len();
        assert(op_ids(rest) =~= op_ids(log).drop_last());
        lemma_distinct_into_empty(rest);
        if op_ids(rest).contains(log.last().op_id) {
            let k = choose|k: int| 0 <= k < op_ids(rest).len() && op_ids(rest)[k] == log.last().op_id;
            assert(op_ids(log)[k] == op_ids(log)[n - 1]);
        }
        assert(rest.push(log.last()) =~= log);
    }
}

/// A replica that starts from nothing and takes in a log recorded in replay order
/// (as one replica records its own operations) takes in every operation of it,
/// without overflow at any step, and so rebuilds the same state as the replica
/// that holds that log.
pub proof fn lemma_fresh_replica_catches_up(a: LocalClient)
    requires
        a.wf(),
        sorted_ops(a.log@),
    ensures
        log_insert_all(Seq::<OpModel>::empty(), a.log@).0 == a.log@,
        ingest_ok(Seq::<OpModel>::empty(), a.log@),
        rebuilt(log_insert_all(Seq::<OpModel>::empty(), a.log@).0) == a.state@,
{
    let log = a.log@;
    lemma_distinct_into_empty(log);
    lemma_sorted_is_own_sort(log);
    assert forall|i: int| 0 <= i < log.len() implies {
        let l = #[trigger] log_insert_all(Seq::<OpModel>::empty(), log.take(i)).0;
        !op_ids(l).contains(log[i].op_id) ==> rebuild_ok(l.push(log[i]))
    } by {
        let p = log.take(i);
        let q = log.take(i + 1);
        assert(op_ids(p) =~= op_ids(log).take(i));
        assert(op_ids(q) =~= op_ids(log).take(i + 1));
        lemma_distinct_into_empty(p);
        assert(p.push(log[i]) =~= q);
        lemma_sorted_is_own_sort(q);
        if i + 1 == log.len() {
            assert(q =~= log);
        } else {
            lemma_replay_ok_prefix(empty_state(), log, i + 1);
        }
    }
}

proof fn lemma_missing_covers(store: Seq<OpModel>, seen: Seq<Seq<char>>)
    ensures
        forall|i: int|
            0 <= i < store.len() ==> seen.contains(#[trigger] store[i].op_id) || missing(store, seen).contains(
                store[i],
            ),
    decreases store.len(),
{
    if store.len() > 0 {
        let rest = store.drop_last();
        lemma_missing_covers(rest, seen);
        let m = missing(rest, seen);
        assert forall|i: int| 0 <= i < store.len() implies seen.contains(#[trigger] store[i].op_id) || missing(
            store,
            seen,
        ).contains(store[i]) by {
            if i < rest.len() {
                assert(rest[i] == store[i]);
                if m.contains(store[i]) && !seen.contains(store.last().op_id) {
                    let k = choose|k: int| 0 <= k < m.len() && m[k] == store[i];
                    assert(m.push(store.last())[k] == store[i]);
                }
            } else if !seen.contains(store[i].op_id) {
                assert(m.push(store.last())[m.len() as int] == store[i]);
            }
        }
    }
}

proof fn lemma_insert_all_ids(log: Seq<OpModel>, ops: Seq<OpModel>)
    ensures
        forall|i: int| 0 <= i < log.len() ==> op_ids(log_insert_all(log, ops).0).contains(#[trigger] log[i].op_id),
        forall|i: int| 0 <= i < ops.len() ==> op_ids(log_insert_all(log, ops).0).contains(#[trigger] ops[i].op_id),
    decreases ops.len(),
{
    if ops.len() == 0 {
        assert forall|i: int| 0 <= i < log.len() implies op_ids(log).contains(#[trigger] log[i].op_id) by {
            assert(op_ids(log)[i] == log[i].op_id);
        }
    } else {
        let rest = ops.drop_last();
        lemma_insert_all_ids(log, rest);
        let l = log_insert_all(log, rest).0;
        if !op_ids(l).contains(ops.last().op_id) {
            let l2 = l.push(ops.last());
            assert(op_ids(l2) =~= op_ids(l).push(ops.last().op_id));
            assert forall|x: Seq<char>| op_ids(l).contains(x) implies op_ids(l2).contains(x) by {
                let k = choose|k: int| 0 <= k < op_ids(l).len() && op_ids(l)[k] == x;
                assert(op_ids(l2)[k] == x);
            }
            assert(op_ids(l2)[l.len() as int] == ops.last().op_id);
        }
        assert forall|i: int| 0 <= i < ops.len() implies op_ids(log_insert_all(log, ops).0).contains(
            #[trigger] ops[i].op_id,
        ) by {
            if i < rest.len() {
                assert(rest[i] == ops[i]);
            }
        }
        assert forall|i: int| 0 <= i < log.len() implies op_ids(log_insert_all(log, ops).0).contains(
            #[trigger] log[i].op_id,
        ) by {
            assert(op_ids(l).contains(log[i].op_id));
        }
    }
}

/// Catching up is complete: a client that takes in what the server finds missing
/// for the ids it holds ends up holding an operation under every id the server
/// stored, besides every id it held.
pub proof fn lemma_catch_up_complete(log: Seq<OpModel>, store: Seq<OpModel>)
    ensures
        ({
            let after = log_insert_all(log, missing(store, op_ids(log))).0;
            &&& forall|i: int| 0 <= i < store.len() ==> op_ids(after).contains(#[trigger] store[i].op_id)
            &&& forall|i: int| 0 <= i < log.len() ==> op_ids(after).contains(#[trigger] log[i].op_id)
        }),
{
    let seen = op_ids(log);
    let sent = missing(store, seen);
    let after = log_insert_all(log, sent).0;
    lemma_missing_covers(store, seen);
    lemma_insert_all_ids(log, sent);
    assert forall|i: int| 0 <= i < store.len() implies op_ids(after).contains(#[trigger] store[i].op_id) by {
        if seen.contains(store[i].op_id) {
            let k = choose|k: int| 0 <= k < seen.len() && seen[k] == store[i].op_id;
            assert(log[k].op_id == store[i].op_id);
        } else {
            let k = choose|k: int| 0 <= k < sent.len() && sent[k] == store[i];
            assert(sent[k].op_id == store[i].op_id);
        }
    }
}

/// No replica ever holds a state in which a player's rights are negative, where the
/// amounts of the operations it holds fit in `i64`.
pub proof fn lemma_replica_rights_never_negative(c: LocalClient, player: Seq<char>, replica: Seq<char>)
    requires
        c.wf(),
        forall|i: int| 0 <= i < c.log@.len() ==> amounts_fit(#[trigger] c.log@[i]),
    ensures
        rights_value(bc_at(c.state@, player), replica) >= 0,
        available_result(bc_at(c.state@, player), replica) matches Some(left) ==> left >= 0,
{
    lemma_rights_never_negative(c.log@, player, replica);
}

} // verus!
