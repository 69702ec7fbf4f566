//! The scenarios the project demonstrates: a table split between two replicas,
//! bets placed offline on both and merged, and the double spend that a plain
//! counter allows and spending rights prevent.
use vstd::prelude::*;
use vstd::string::*;
use crate::client::client::{
    ingest_ok, latest_time, lemma_kinds_ok_one, recorded_all, LocalClient,
};
use crate::collections::SortedMap;
use crate::crdt::bounded_counter::available_result;
use crate::crdt::or_set::orset_elements;
use crate::crdt::pn_counter::{count_of, pn_decrement, pn_empty, pn_increment, pn_merge, pn_value, pn_value_defined, PNModel};
use crate::crdt::PNCounter;
use crate::domain::state::{apply_op, empty_state, lemma_rebuild_push_later, pn_at, rebuilt, StateModel};
use crate::domain::BetKind;
use crate::sync::operation::{is_fresh_op_id, is_simple_uuid, KindModel, OpModel};
use crate::sync::operation::op_lt;
use crate::sync::operation_log::{log_insert_all, models, op_ids, sorted_ops};
use crate::sync::Operation;
use crate::scenario::{lemma_exchange, lemma_failure_balance, lemma_setup_bet, lemma_setup_then_bet, lemma_split_facts, lemma_two_bets};
use crate::text::{Duplicate, SameValue};

verus! {

/// What replica A records to set up the table `name`: the table, Liam joining with
/// 100 chips split as A:60 and B:40, and round 1 created and opened.
pub open spec fn setup_kinds(name: Seq<char>) -> Seq<KindModel> {
    seq![
        KindModel::CreateTable { table_id: "main"@, name },
        KindModel::JoinTable {
            table_id: "main"@,
            player_id: "liam"@,
            display_name: "Liam"@,
            starting_chips: 100,
            initial_rights: map!["A"@ => 60u64, "B"@ => 40u64],
        },
        KindModel::CreateRound { round_id: "round-1"@, dealer_id: "dealer"@ },
        KindModel::OpenBetting { round_id: "round-1"@ },
    ]
}

/// `c` is a new online client of `replica` that has recorded `ops`, with nothing queued.
pub open spec fn fresh_after(c: LocalClient, replica: Seq<char>, ops: Seq<OpModel>) -> bool {
    &&& c.replica_id@ == replica
    &&& c.connected()
    &&& c.unsynced() == Seq::<OpModel>::empty()
    &&& c.clock@ == ops.len()
    &&& c.log@ == log_insert_all(Seq::<OpModel>::empty(), ops).0
    &&& forall|k: int|
        0 <= k < ops.len() ==> (#[trigger] ops[k]).replica_id == replica && ops[k].lamport_time == k + 1
            && is_fresh_op_id(ops[k].op_id, replica, ops[k].lamport_time)
}

/// `a` has set up the table `name` (see `setup_kinds`), and `b` is a new online
/// client of replica B that has taken in the whole of `a`'s log.
#[verifier::opaque]
pub open spec fn split_table_made(a: LocalClient, b: LocalClient, name: Seq<char>) -> bool {
    &&& a.wf()
    &&& b.wf()
    &&& exists|ops: Seq<OpModel>|
        #[trigger] fresh_after(a, "A"@, ops) && ops.map_values(|o: OpModel| o.kind) == setup_kinds(name)
    &&& b.replica_id@ == "B"@
    &&& b.connected()
    &&& b.unsynced() == Seq::<OpModel>::empty()
    &&& b.log@ == a.log@
    &&& b.clock@ == latest_time(0, a.log@)
}

/// Operations recorded one after another, each a tick later than the last and
/// later than all a log holds, keep a log in replay order.
proof fn lemma_recorded_in_order(log: Seq<OpModel>, ops: Seq<OpModel>, c: u64)
    requires
        sorted_ops(log),
        forall|i: int| 0 <= i < log.len() ==> (#[trigger] log[i]).lamport_time <= c,
        forall|k: int| 0 <= k < ops.len() ==> (#[trigger] ops[k]).lamport_time == c + 1 + k,
    ensures
        sorted_ops(log_insert_all(log, ops).0),
        forall|i: int|
            0 <= i < log_insert_all(log, ops).0.len() ==> (#[trigger] log_insert_all(log, ops).0[i]).lamport_time
                <= c + ops.len(),
    decreases ops.len(),
{
    if ops.len() > 0 {
        let rest = ops.drop_last();
        lemma_recorded_in_order(log, rest, c);
        let l = log_insert_all(log, rest).0;
        assert(ops[ops.len() - 1].lamport_time == c + ops.len());
        if !op_ids(l).contains(ops.last().op_id) {
            let l2 = l.push(ops.last());
            assert forall|i: int, j: int| 0 <= i < j < l2.len() implies !op_lt(#[trigger] l2[j], #[trigger] l2[i]) by {
                if j == l.len() {
                    assert(l2[i] == l[i]);
                } else {
                    assert(l2[i] == l[i] && l2[j] == l[j]);
                }
            }
            assert forall|i: int| 0 <= i < l2.len() implies (#[trigger] l2[i]).lamport_time <= c + ops.len() by {
                if i < l.len() {
                    assert(l2[i] == l[i]);
                }
            }
        }
    }
}

/// Sets up the table `name` on replica A and copies A's log to replica B.
pub fn split_table(name: &str) -> (r: (LocalClient, LocalClient))
    ensures
        r.0.wf(),
        r.1.wf(),
        r.0.replica_id@ == "A"@,
        r.1.replica_id@ == "B"@,
        r.0.connected(),
        r.1.connected(),
        split_table_made(r.0, r.1, name@),
{
    reveal(split_table_made);
    let mut rights: SortedMap<String, u64> = SortedMap::new();
    rights.insert(String::from_str("A"), 60);
    rights.insert(String::from_str("B"), 40);
    proof {
        reveal_strlit("A");
        reveal_strlit("B");
        assert(rights@ =~= map!["A"@ => 60u64, "B"@ => 40u64]);
    }
    let mut a = LocalClient::new("A");
    let ghost a0 = a;
    let first = a.create_table(name);
    let ghost a1 = a;
    proof {
        crate::client::client::lemma_insert_all_one(Seq::<OpModel>::empty(), first.deep_view());
        assert(a1.log@ =~= seq![first.deep_view()]);
        lemma_rebuild_push_later(Seq::<OpModel>::empty(), first.deep_view());
        assert(Seq::<OpModel>::empty().push(first.deep_view()) =~= seq![first.deep_view()]);
        assert(crate::sync::operation_log::sort_ops(Seq::<OpModel>::empty()) =~= Seq::<OpModel>::empty());
        assert(rebuilt(Seq::<OpModel>::empty()) == empty_state());
        assert(a1.state@ == apply_op(empty_state(), first.deep_view()));
        assert(a1.state@.balances =~= Map::<Seq<char>, PNModel>::empty());
        let kind = KindModel::JoinTable {
            table_id: "main"@,
            player_id: "liam"@,
            display_name: "Liam"@,
            starting_chips: 100,
            initial_rights: rights@,
        };
        assert(count_of(pn_at(a1.state@, "liam"@).increments, a1.replica_id@) == 0);
        lemma_kinds_ok_one(a1.state@, a1.replica_id@, a1.clock@, kind);
    }
    let second = a.join_table_with_rights("liam", "Liam", 100, rights);
    let ghost a2 = a;
    let rest = a.start_round("round-1", "dealer");
    let ghost ops = seq![first.deep_view(), second.deep_view()] + models(rest@);
    proof {
        crate::client::client::lemma_recorded_extend(a0, a1, a2, seq![first.deep_view()], second.deep_view());
        assert(seq![first.deep_view()].push(second.deep_view()) =~= seq![first.deep_view(), second.deep_view()]);
        crate::client::client::lemma_recorded_concat(a0, a2, a, seq![first.deep_view(), second.deep_view()], models(rest@));
        assert(ops.map_values(|o: OpModel| o.kind) =~= setup_kinds(name@));
        assert(fresh_after(a, "A"@, ops));
    }
    let mut b = LocalClient::new("B");
    let operations = crate::client::client::copy_operations(&a.log.operations);
    proof {
        assert(log_insert_all(Seq::<OpModel>::empty(), ops).0 == a.log@);
        lemma_recorded_in_order(Seq::<OpModel>::empty(), ops, 0);
        crate::client::convergence::lemma_fresh_replica_catches_up(a);
    }
    b.ingest_many(operations);
    (a, b)
}

/// `c2` is `c1` after taking in `ops` in turn.
#[verifier::opaque]
pub open spec fn pulled(c1: LocalClient, c2: LocalClient, ops: Seq<OpModel>) -> bool {
    &&& c2.wf()
    &&& c2.log@ == log_insert_all(c1.log@, ops).0
    &&& c2.clock@ == latest_time(c1.clock@, ops)
    &&& c2.replica_id == c1.replica_id
    &&& c2.connected() == c1.connected()
    &&& c2.unsynced() == c1.unsynced()
}

/// `c2` is `c1` after recording Liam's bet of `amount` on `kind` in round 1 under
/// a fresh `bet-UUID` id, as operation `op`.
#[verifier::opaque]
pub open spec fn bet_recorded(c1: LocalClient, c2: LocalClient, op: OpModel, amount: u64, kind: BetKind) -> bool {
    &&& c2.wf()
    &&& recorded_all(c1, c2, seq![op])
    &&& exists|u: Seq<char>|
        is_simple_uuid(u) && op.kind == #[trigger] LocalClient::bet_kind_model(
            "bet-"@ + u,
            "liam"@,
            "round-1"@,
            amount,
            kind,
        )
}

/// The client with its connection state set.
pub open spec fn with_online(c: LocalClient, online: bool) -> LocalClient {
    LocalClient { online, ..c }
}

/// Liam's chips on a replica's state, where they can be read.
pub open spec fn liam_balance(s: StateModel) -> Option<i64> {
    if !s.balances.contains_key("liam"@) {
        Some(0)
    } else if pn_value_defined(s.balances["liam"@]) {
        Some(pn_value(s.balances["liam"@]) as i64)
    } else {
        None
    }
}

/// Liam's rights on `replica` in a replica's state, where they can be read.
pub open spec fn liam_rights(s: StateModel, replica: Seq<char>) -> Option<i64> {
    if !s.spending_rights.contains_key("liam"@) {
        Some(0)
    } else if available_result(s.spending_rights["liam"@], replica) is Some {
        Some(available_result(s.spending_rights["liam"@], replica)->0 as i64)
    } else {
        None
    }
}

fn liam_balance_of(c: &LocalClient) -> (r: Option<i64>)
    requires
        c.wf(),
    ensures
        r == liam_balance(c.state@),
{
    proof {
        reveal_strlit("liam");
    }
    match c.state.balances.get(&String::from_str("liam")) {
        Some(counter) => counter.checked_value(),
        None => Some(0),
    }
}

fn liam_rights_of(c: &LocalClient, replica: &str) -> (r: Option<i64>)
    requires
        c.wf(),
    ensures
        r == liam_rights(c.state@, replica@),
{
    match c.state.spending_rights.get(&String::from_str("liam")) {
        Some(counter) => counter.checked_available(replica),
        None => Some(0),
    }
}

/// The two counters of the double spend: 100 chips from the bank, then 80 taken
/// by A on one and by B on the other.
pub open spec fn failure_counters() -> (PNModel, PNModel) {
    let base = pn_increment(pn_empty(), "bank"@, 100);
    (pn_decrement(base, "A"@, 80), pn_decrement(base, "B"@, 80))
}

/// The balance of the merged failure counters, where it can be read.
pub open spec fn failure_balance() -> Option<i64> {
    let m = pn_merge(failure_counters().0, failure_counters().1);
    if pn_value_defined(m) {
        Some(pn_value(m) as i64)
    } else {
        None
    }
}

/// The balance a plain counter reaches when two replicas each take 80 of 100 chips
/// without seeing each other.
pub fn pn_double_spend_balance() -> (r: Option<i64>)
    ensures
        r == failure_balance(),
        r == Some(-60i64),
{
    proof {
        lemma_failure_balance();
    }
    let mut base = PNCounter::default();
    base.increment("bank", 100);
    let mut pn_a = base.duplicate();
    let mut pn_b = base;
    pn_a.decrement("A", 80);
    pn_b.decrement("B", 80);
    pn_a.merge(&pn_b).checked_value()
}

/// Liam's bet of `amount` on `kind` in round 1 from `c`; the operation recorded.
fn bet_from(c: &mut LocalClient, amount: u64, kind: BetKind) -> (r: Result<Operation, String>)
    requires
        old(c).wf(),
    ensures
        final(c).wf(),
        r is Ok == (!old(c).bet_overflows("liam"@, "round-1"@, amount) && old(c).bet_refusal(
            "liam"@,
            "round-1"@,
            amount,
        ) is None),
        r matches Ok(op) ==> bet_recorded(*old(c), *final(c), op.deep_view(), amount, kind),
{
    reveal(bet_recorded);
    proof {
        reveal_strlit("liam");
        reveal_strlit("round-1");
    }
    let r = c.place_bet_checked("liam", "round-1", amount, kind);
    match r {
        Ok(op) => {
            assert(bet_recorded(*old(c), *c, op.deep_view(), amount, kind));
            Ok(op)
        },
        Err(e) => Err(e),
    }
}

/// Tries Liam's bet of `amount` on `kind` in round 1 from `c`; whether it was refused.
fn try_bet(c: &mut LocalClient, amount: u64, kind: BetKind) -> (refused: bool)
    requires
        old(c).wf(),
    ensures
        final(c).wf(),
        bet_tried(*old(c), *final(c), amount, kind, refused),
        refused == (old(c).bet_overflows("liam"@, "round-1"@, amount) || old(c).bet_refusal(
            "liam"@,
            "round-1"@,
            amount,
        ) is Some),
{
    reveal(bet_recorded);
    reveal(bet_tried);
    let r = c.place_bet_checked("liam", "round-1", amount, kind);
    match r {
        Ok(op) => {
            assert(bet_recorded(*old(c), *c, op.deep_view(), amount, kind));
            false
        },
        Err(_) => true,
    }
}

/// `a` takes in `b`'s log, then `b` takes in `a`'s, where that is free of overflow;
/// whether it was.
fn merge_pair(a: &mut LocalClient, b: &mut LocalClient) -> (ok: bool)
    requires
        old(a).wf(),
        old(b).wf(),
    ensures
        final(a).wf(),
        final(b).wf(),
        ok == (ingest_ok(old(a).log@, old(b).log@) && ingest_ok(
            old(b).log@,
            log_insert_all(old(a).log@, old(b).log@).0,
        )),
        ok ==> pulled(*old(a), *final(a), old(b).log@) && pulled(*old(b), *final(b), final(a).log@),
{
    reveal(pulled);
    let b_operations = crate::client::client::copy_operations(&b.log.operations);
    if !a.can_ingest_all(&b_operations) {
        return false;
    }
    a.ingest_many(b_operations);
    let a_operations = crate::client::client::copy_operations(&a.log.operations);
    if !b.can_ingest_all(&a_operations) {
        return false;
    }
    b.ingest_many(a_operations);
    true
}

/// What the offline-merge scenario shows.
#[derive(Debug, Clone)]
pub struct OfflineMergeReport {
    pub a_operation: String,
    pub b_operation: String,
    pub a_bets: usize,
    pub b_bets: usize,
    pub a_balance: i64,
    pub b_balance: i64,
    pub states_equal: bool,
}

/// The offline-merge scenario ran: after setting up the table `BetSync Demo`, both
/// replicas went offline, A bet 50 on odd and B 30 on even, then A took in B's
/// log and B took in A's; `a` and `b` are the replicas at the end.
#[verifier::opaque]
pub open spec fn offline_merge_ran(a: LocalClient, b: LocalClient, op_a: OpModel, op_b: OpModel) -> bool {
    exists|a0: LocalClient, b0: LocalClient, a1: LocalClient, b1: LocalClient|
        #![trigger split_table_made(a0, b0, "BetSync Demo"@), bet_recorded(with_online(a0, false), a1, op_a, 50, BetKind::Odd), bet_recorded(with_online(b0, false), b1, op_b, 30, BetKind::Even)]
        {
            &&& split_table_made(a0, b0, "BetSync Demo"@)
            &&& bet_recorded(with_online(a0, false), a1, op_a, 50, BetKind::Odd)
            &&& bet_recorded(with_online(b0, false), b1, op_b, 30, BetKind::Even)
            &&& pulled(a1, a, b1.log@)
            &&& pulled(b1, b, a.log@)
        }
}

/// Runs the offline-merge scenario and reads the outcome: each offline bet's id, the
/// bets and Liam's chips on each replica, and whether the states are equal. Both
/// bets are within the rights of their replica, so the scenario always succeeds:
/// each replica ends with both bets, Liam has 20 chips on each, and the states
/// are equal.
pub fn simulate_offline_merge() -> (r: Result<OfflineMergeReport, String>)
    ensures
        r is Ok,
        r matches Ok(report) ==> report.a_bets == 2 && report.b_bets == 2 && report.a_balance == 20
            && report.b_balance == 20 && report.states_equal,
        r matches Ok(report) ==> exists|a: LocalClient, b: LocalClient, op_a: OpModel, op_b: OpModel|
            #![trigger offline_merge_ran(a, b, op_a, op_b)]
            {
                &&& offline_merge_ran(a, b, op_a, op_b)
                &&& report.a_operation@ == op_a.op_id
                &&& report.b_operation@ == op_b.op_id
                &&& report.a_bets == orset_elements(a.state@.bets).len()
                &&& report.b_bets == orset_elements(b.state@.bets).len()
                &&& Some(report.a_balance) == liam_balance(a.state@)
                &&& Some(report.b_balance) == liam_balance(b.state@)
                &&& report.states_equal == (a.state@ == b.state@)
            },
{
    proof {
        reveal_strlit("BetSync Demo");
        reveal_strlit("arithmetic overflow");
    }
    let (mut a, mut b) = split_table("BetSync Demo");
    let ghost a0 = a;
    let ghost b0 = b;
    proof {
        lemma_split_facts(a0, b0, "BetSync Demo"@);
    }
    a.set_online(false);
    b.set_online(false);
    proof {
        lemma_setup_bet(a, 50);
        lemma_setup_bet(b, 30);
    }
    let ghost a_off = a;
    let ghost b_off = b;
    let a_bet = bet_from(&mut a, 50, BetKind::Odd)?;
    let ghost a1 = a;
    let b_bet = bet_from(&mut b, 30, BetKind::Even)?;
    let ghost b1 = b;
    proof {
        lemma_setup_then_bet(a_off, a1, a_bet.deep_view(), 50, BetKind::Odd);
        lemma_setup_then_bet(b_off, b1, b_bet.deep_view(), 30, BetKind::Even);
        lemma_exchange(a0.log@, a_bet.deep_view(), 50, b_bet.deep_view(), 30);
    }
    if !merge_pair(&mut a, &mut b) {
        return Err(String::from_str("arithmetic overflow"));
    }
    proof {
        reveal(pulled);
        lemma_two_bets(a0.state@, a_bet.deep_view(), 50, b_bet.deep_view(), 30);
    }
    let a_balance = match liam_balance_of(&a) {
        Some(v) => v,
        None => return Err(String::from_str("arithmetic overflow")),
    };
    let b_balance = match liam_balance_of(&b) {
        Some(v) => v,
        None => return Err(String::from_str("arithmetic overflow")),
    };
    let a_visible = a.state.visible_bets();
    let b_visible = b.state.visible_bets();
    proof {
        a_visible.lemma_wf_view();
        b_visible.lemma_wf_view();
        a_visible.elems().unique_seq_to_set();
        b_visible.elems().unique_seq_to_set();
    }
    let a_bets = a_visible.len();
    let b_bets = b_visible.len();
    let report = OfflineMergeReport {
        a_operation: a_bet.op_id.clone(),
        b_operation: b_bet.op_id.clone(),
        a_bets,
        b_bets,
        a_balance,
        b_balance,
        states_equal: a.state.same_value(&b.state),
    };
    proof {
        let a_off = with_online(a0, false);
        let b_off = with_online(b0, false);
        assert(split_table_made(a0, b0, "BetSync Demo"@));
        assert(bet_recorded(a_off, a1, a_bet.deep_view(), 50, BetKind::Odd));
        assert(bet_recorded(b_off, b1, b_bet.deep_view(), 30, BetKind::Even));
        assert(pulled(a1, a, b1.log@));
        assert(pulled(b1, b, a.log@));
        assert(offline_merge_ran(a, b, a_bet.deep_view(), b_bet.deep_view())) by {
            reveal(offline_merge_ran);
        }
    }
    Ok(report)
}

/// What the double-spend scenario shows.
#[derive(Debug, Clone)]
pub struct DoubleSpendReport {
    pub pn_balance: i64,
    pub a_rejected: bool,
    pub b_rejected: bool,
    pub merged_balance: i64,
    pub rights_a: i64,
    pub rights_b: i64,
    pub states_equal: bool,
}

/// `c2` is `c1` after trying to bet `amount` on `kind`: unchanged where the bet was
/// refused (`refused`), with the bet recorded otherwise.
#[verifier::opaque]
pub open spec fn bet_tried(c1: LocalClient, c2: LocalClient, amount: u64, kind: BetKind, refused: bool) -> bool {
    if refused {
        c2 == c1 && (c1.bet_overflows("liam"@, "round-1"@, amount) || c1.bet_refusal("liam"@, "round-1"@, amount) is Some)
    } else {
        exists|op: OpModel| #[trigger] bet_recorded(c1, c2, op, amount, kind)
    }
}

/// The double-spend scenario ran: after setting up the table `Bounded Counter Demo`,
/// A tried 80 on odd and B 80 on even (refused as `a_refused`, `b_refused`), A bet 50
/// on odd and B 30 on even, then A took in B's log and B took in A's.
#[verifier::opaque]
pub open spec fn double_spend_ran(a: LocalClient, b: LocalClient, a_refused: bool, b_refused: bool) -> bool {
    exists|a0: LocalClient, b0: LocalClient, a1: LocalClient, b1: LocalClient, a2: LocalClient, b2: LocalClient|
        #![trigger split_table_made(a0, b0, "Bounded Counter Demo"@), bet_tried(a0, a1, 80, BetKind::Odd, a_refused), bet_tried(b0, b1, 80, BetKind::Even, b_refused), pulled(a2, a, b2.log@)]
        {
            &&& split_table_made(a0, b0, "Bounded Counter Demo"@)
            &&& bet_tried(a0, a1, 80, BetKind::Odd, a_refused)
            &&& bet_tried(b0, b1, 80, BetKind::Even, b_refused)
            &&& (exists|op: OpModel| #[trigger] bet_recorded(a1, a2, op, 50, BetKind::Odd))
            &&& (exists|op: OpModel| #[trigger] bet_recorded(b1, b2, op, 30, BetKind::Even))
            &&& pulled(a2, a, b2.log@)
            &&& pulled(b2, b, a.log@)
        }
}

/// `report` reads replicas at the end of the double-spend scenario.
pub open spec fn double_spend_shows(report: DoubleSpendReport) -> bool {
    exists|a: LocalClient, b: LocalClient|
        #![trigger double_spend_ran(a, b, report.a_rejected, report.b_rejected)]
        {
            &&& double_spend_ran(a, b, report.a_rejected, report.b_rejected)
            &&& Some(report.merged_balance) == liam_balance(a.state@)
            &&& Some(report.rights_a) == liam_rights(a.state@, "A"@)
            &&& Some(report.rights_b) == liam_rights(a.state@, "B"@)
            &&& report.states_equal == (a.state@ == b.state@)
        }
}

/// Runs the double-spend scenario and reads the outcome: the plain counter's
/// merged balance, whether each 80-chip bet was refused, Liam's chips and rights
/// after the merge, and whether the states are equal. The scenario always
/// succeeds: the plain counter ends at -60, both 80-chip bets are refused, and
/// after the 50- and 30-chip bets Liam has 20 chips, 10 rights on A and 10 on B,
/// on replicas whose states are equal.
pub fn simulate_double_spend() -> (r: Result<DoubleSpendReport, String>)
    ensures
        r is Ok,
        r matches Ok(report) ==> report.pn_balance == -60 && report.a_rejected && report.b_rejected
            && report.merged_balance == 20 && report.rights_a == 10 && report.rights_b == 10
            && report.states_equal,
        r matches Ok(report) ==> Some(report.pn_balance) == failure_balance(),
        r matches Ok(report) ==> double_spend_shows(report),
{
    proof {
        reveal_strlit("Bounded Counter Demo");
        reveal_strlit("arithmetic overflow");
    }
    proof {
        lemma_failure_balance();
    }
    let pn_balance = match pn_double_spend_balance() {
        Some(v) => v,
        None => return Err(String::from_str("arithmetic overflow")),
    };
    let (mut a, mut b) = split_table("Bounded Counter Demo");
    let ghost a0 = a;
    let ghost b0 = b;
    proof {
        lemma_split_facts(a0, b0, "Bounded Counter Demo"@);
        lemma_setup_bet(a0, 80);
        lemma_setup_bet(b0, 80);
    }
    let a_rejected = try_bet(&mut a, 80, BetKind::Odd);
    let ghost a1 = a;
    let b_rejected = try_bet(&mut b, 80, BetKind::Even);
    let ghost b1 = b;
    proof {
        reveal(bet_tried);
        lemma_setup_bet(a1, 50);
        lemma_setup_bet(b1, 30);
    }
    let a_bet = bet_from(&mut a, 50, BetKind::Odd)?;
    let ghost a2 = a;
    let b_bet = bet_from(&mut b, 30, BetKind::Even)?;
    let ghost b2 = b;
    proof {
        lemma_setup_then_bet(a1, a2, a_bet.deep_view(), 50, BetKind::Odd);
        lemma_setup_then_bet(b1, b2, b_bet.deep_view(), 30, BetKind::Even);
        lemma_exchange(a0.log@, a_bet.deep_view(), 50, b_bet.deep_view(), 30);
    }
    if !merge_pair(&mut a, &mut b) {
        return Err(String::from_str("arithmetic overflow"));
    }
    proof {
        reveal(pulled);
        lemma_two_bets(a0.state@, a_bet.deep_view(), 50, b_bet.deep_view(), 30);
    }
    let merged_balance = match liam_balance_of(&a) {
        Some(v) => v,
        None => return Err(String::from_str("arithmetic overflow")),
    };
    let rights_a = match liam_rights_of(&a, "A") {
        Some(v) => v,
        None => return Err(String::from_str("arithmetic overflow")),
    };
    let rights_b = match liam_rights_of(&a, "B") {
        Some(v) => v,
        None => return Err(String::from_str("arithmetic overflow")),
    };
    let report = DoubleSpendReport {
        pn_balance,
        a_rejected,
        b_rejected,
        merged_balance,
        rights_a,
        rights_b,
        states_equal: a.state.same_value(&b.state),
    };
    proof {
        reveal_strlit("A");
        reveal_strlit("B");
        assert(split_table_made(a0, b0, "Bounded Counter Demo"@));
        assert(bet_tried(a0, a1, 80, BetKind::Odd, a_rejected));
        assert(bet_tried(b0, b1, 80, BetKind::Even, b_rejected));
        assert(bet_recorded(a1, a2, a_bet.deep_view(), 50, BetKind::Odd));
        assert(bet_recorded(b1, b2, b_bet.deep_view(), 30, BetKind::Even));
        assert(pulled(a2, a, b2.log@));
        assert(pulled(b2, b, a.log@));
        assert(double_spend_ran(a, b, a_rejected, b_rejected)) by {
            reveal(double_spend_ran);
        }
        assert(Some(report.merged_balance) == liam_balance(a.state@));
        assert(Some(report.rights_a) == liam_rights(a.state@, "A"@));
        assert(Some(report.rights_b) == liam_rights(a.state@, "B"@));
        assert(report.states_equal == (a.state@ == b.state@));
        assert(double_spend_ran(a, b, report.a_rejected, report.b_rejected));
        assert(Some(report.pn_balance) == failure_balance());
        assert(double_spend_shows(report));
    }
    Ok(report)
}

} // verus!
