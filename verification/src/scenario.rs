//! What the demonstration scenarios compute: the table that replica A sets up,
//! the bets that each replica can then place, and the state both reach once they
//! have exchanged their logs.
use vstd::prelude::*;
use vstd::string::*;
use crate::crdt::bounded_counter::BoundedModel;
use crate::crdt::or_set::{orset_contains, orset_empty, visible_tags};
use crate::crdt::pn_counter::{pn_empty, pn_increment};
use crate::domain::bet::BetModel;
use crate::domain::state::{apply_op, empty_state, rebuilt, replay, StateModel};
use crate::domain::RoundPhase;
use crate::client::client::{latest_time, rights_in, LocalClient};
use crate::collections::{lemma_map_total_empty, lemma_map_total_insert, map_total};
use crate::crdt::bounded_counter::{
    available_result, checked_total, lemma_tally_sum_insert, lemma_spend_tally_small, lemma_tally_empty, sum_of,
    tally_terms, EntryModel, GrantEntry, SpendEntry, Tally, TransferEntry,
};
use crate::crdt::or_set::{orset_add, orset_elements};
use crate::crdt::pn_counter::count_of;
use crate::domain::state::{bc_at, lemma_rebuild_push_later, pn_at};
use crate::domain::BetKind;
use crate::simulation::{
    bet_recorded, failure_balance, failure_counters, fresh_after, liam_balance, liam_rights, setup_kinds, split_table_made,
};
use crate::collections::{lemma_map_join_laws, map_join};
use crate::crdt::pn_counter::{pn_decrement, pn_merge, pn_value, pn_value_defined};
use crate::domain::state::{apply_ok, lemma_rebuild_depends_only_on_contents, rebuild_ok, replay_ok};
use crate::client::client::ingest_ok;
use crate::sync::operation_log::lemma_distinct_ids_determine;
use crate::sync::operation::KindModel;
use crate::sync::operation::{is_fresh_op_id, op_id_text, OpModel};
use crate::sync::operation_log::{lemma_sorted_is_own_sort, log_insert_all, op_ids, sort_ops, sorted_ops};
use crate::text::{decimal, digit_char};

verus! {

/// An operation id of replica `r` (one character) at a time below ten has `r` first
/// and the digit of the time third.
proof fn lemma_fresh_id_shape(id: Seq<char>, r: Seq<char>, t: u64)
    requires
        is_fresh_op_id(id, r, t),
        r.len() == 1,
        1 <= t <= 9,
    ensures
        id.len() >= 3,
        id[0] == r[0],
        id[2] == digit_char(t as nat),
{
    let u = choose|u: Seq<char>| crate::sync::operation::is_simple_uuid(u) && id == #[trigger] op_id_text(r, t, u);
    assert(decimal(t as nat) == seq![digit_char(t as nat)]);
    let full = r + seq!['-'] + decimal(t as nat) + seq!['-'] + u;
    assert(id == full);
    assert(full[0] == r[0]);
    assert(full[2] == digit_char(t as nat));
}

/// Ids of one-character replicas at times below ten differ where the replicas or
/// the times do.
pub(crate) proof fn lemma_fresh_ids_differ(id1: Seq<char>, r1: Seq<char>, t1: u64, id2: Seq<char>, r2: Seq<char>, t2: u64)
    requires
        is_fresh_op_id(id1, r1, t1),
        is_fresh_op_id(id2, r2, t2),
        r1.len() == 1,
        r2.len() == 1,
        1 <= t1 <= 9,
        1 <= t2 <= 9,
        r1 != r2 || t1 != t2,
    ensures
        id1 != id2,
{
    lemma_fresh_id_shape(id1, r1, t1);
    lemma_fresh_id_shape(id2, r2, t2);
    if r1 != r2 {
        assert(r1 =~= seq![r1[0]]);
        assert(r2 =~= seq![r2[0]]);
        assert(id1[0] != id2[0]);
    } else {
        assert(digit_char(t1 as nat) != digit_char(t2 as nat));
    }
}

/// The log replica A records to set up a table: four operations of A at times 1 to 4.
pub(crate) open spec fn setup_log(l: Seq<OpModel>) -> bool {
    &&& l.len() == 4
    &&& forall|k: int|
        0 <= k < 4 ==> (#[trigger] l[k]).replica_id == "A"@ && l[k].lamport_time == k + 1 && is_fresh_op_id(
            l[k].op_id,
            "A"@,
            l[k].lamport_time,
        )
}

/// Liam's rights right after the setup: 60 on A and 40 on B, nothing else.
pub(crate) open spec fn setup_rights() -> BoundedModel {
    BoundedModel {
        initial_rights: map!["A"@ => 60u64, "B"@ => 40u64],
        grants: Map::empty(),
        spends: Map::empty(),
        transfers: Map::empty(),
    }
}

/// The state right after the setup, as far as the scenarios read it.
pub(crate) open spec fn setup_state_ok(s: StateModel) -> bool {
    &&& orset_contains(s.players, "liam"@)
    &&& s.round_views.contains_key("round-1"@)
    &&& s.round_views["round-1"@].phase == RoundPhase::BettingOpen
    &&& s.balances.contains_key("liam"@)
    &&& s.balances["liam"@] == pn_increment(pn_empty(), "A"@, 100)
    &&& s.spending_rights.contains_key("liam"@)
    &&& s.spending_rights["liam"@] == setup_rights()
    &&& s.bets == orset_empty::<BetModel>()
}

proof fn lemma_replay_step(s: StateModel, ops: Seq<OpModel>, i: int)
    requires
        0 <= i < ops.len(),
    ensures
        replay(s, ops.take(i + 1)) == apply_op(replay(s, ops.take(i)), ops[i]),
{
    assert(ops.take(i + 1).drop_last() =~= ops.take(i));
}

/// The setup log has distinct ids, is in replay order, and rebuilds the setup state.
pub(crate) proof fn lemma_setup_state(ops: Seq<OpModel>, name: Seq<char>)
    requires
        setup_log(ops),
        ops.map_values(|o: OpModel| o.kind) == setup_kinds(name),
    ensures
        op_ids(ops).no_duplicates(),
        sorted_ops(ops),
        log_insert_all(Seq::<OpModel>::empty(), ops).0 == ops,
        setup_state_ok(rebuilt(ops)),
{
    reveal_strlit("A");
    reveal_strlit("B");
    reveal_strlit("liam");
    reveal_strlit("round-1");
    assert forall|i: int, j: int| 0 <= i < op_ids(ops).len() && 0 <= j < op_ids(ops).len() && i != j implies op_ids(
        ops,
    )[i] != op_ids(ops)[j] by {
        lemma_fresh_ids_differ(
            ops[i].op_id,
            "A"@,
            ops[i].lamport_time,
            ops[j].op_id,
            "A"@,
            ops[j].lamport_time,
        );
    }
    crate::client::convergence::lemma_distinct_into_empty(ops);
    lemma_sorted_is_own_sort(ops);
    let k0 = ops.map_values(|o: OpModel| o.kind);
    assert(ops[0].kind == k0[0]);
    assert(ops[1].kind == k0[1]);
    assert(ops[2].kind == k0[2]);
    assert(ops[3].kind == k0[3]);
    let s0 = empty_state();
    assert(ops.take(0) =~= Seq::<OpModel>::empty());
    lemma_replay_step(s0, ops, 0);
    lemma_replay_step(s0, ops, 1);
    lemma_replay_step(s0, ops, 2);
    lemma_replay_step(s0, ops, 3);
    assert(ops.take(4) =~= ops);
    let s1 = apply_op(s0, ops[0]);
    let s2 = apply_op(s1, ops[1]);
    let s3 = apply_op(s2, ops[2]);
    let s4 = apply_op(s3, ops[3]);
    assert(rebuilt(ops) == s4);
    assert(s2.spending_rights["liam"@] =~= setup_rights());
    assert(s2.balances["liam"@] == pn_increment(pn_empty(), "A"@, 100));
    assert(visible_tags(s4.players, "liam"@).contains(ops[1].op_id));
    assert(s4.bets == orset_empty::<BetModel>());
}

/// What a table split between the replicas holds: A's log is the setup log, B's is
/// the same, both clocks stand at 4, and both states are the setup state.
pub(crate) proof fn lemma_split_facts(a: LocalClient, b: LocalClient, name: Seq<char>)
    requires
        split_table_made(a, b, name),
    ensures
        a.wf(),
        b.wf(),
        setup_log(a.log@),
        b.log@ == a.log@,
        a.clock@ == 4,
        b.clock@ == 4,
        a.replica_id@ == "A"@,
        b.replica_id@ == "B"@,
        setup_state_ok(a.state@),
        setup_state_ok(b.state@),
{
    reveal(split_table_made);
    let ops = choose|ops: Seq<OpModel>|
        #[trigger] fresh_after(a, "A"@, ops) && ops.map_values(|o: OpModel| o.kind) == setup_kinds(name);
    assert(ops.len() == 4) by {
        assert(ops.map_values(|o: OpModel| o.kind).len() == ops.len());
    }
    assert(setup_log(ops));
    lemma_setup_state(ops, name);
    assert(ops.drop_last() =~= ops.take(3));
    assert(ops.take(3).drop_last() =~= ops.take(2));
    assert(ops.take(2).drop_last() =~= ops.take(1));
    assert(ops.take(1).drop_last() =~= ops.take(0));
    assert(latest_time(0, ops.take(0)) == 0);
    assert(latest_time(0, ops.take(1)) == 1);
    assert(latest_time(0, ops.take(2)) == 2);
    assert(latest_time(0, ops.take(3)) == 3);
    assert(latest_time(0, ops) == 4);
}

/// The rights of a replica in the setup state: 60 on A, 40 on B.
pub(crate) open spec fn setup_share(replica: Seq<char>) -> int {
    if replica == "A"@ {
        60
    } else {
        40
    }
}

proof fn lemma_setup_available(replica: Seq<char>)
    requires
        replica == "A"@ || replica == "B"@,
    ensures
        available_result(setup_rights(), replica) == Some(setup_share(replica)),
{
    reveal_strlit("A");
    reveal_strlit("B");
    lemma_tally_empty::<GrantEntry>(replica, true);
    lemma_tally_empty::<TransferEntry>(replica, true);
    lemma_tally_empty::<TransferEntry>(replica, false);
    lemma_tally_empty::<SpendEntry>(replica, true);
    assert(checked_total(Seq::<int>::empty()) == Some(0int));
    assert(setup_rights().initial_rights.contains_key(replica));
    assert("A"@ != "B"@) by {
        assert("A"@[0] != "B"@[0]);
    }
    let v = setup_rights().initial_rights[replica];
    assert(v == setup_share(replica));
    assert(v as i64 as int == v);
}

/// In the setup state, Liam can bet from A or B exactly what that replica holds,
/// and betting cannot overflow.
pub(crate) proof fn lemma_setup_bet(c: LocalClient, amount: u64)
    requires
        c.wf(),
        setup_state_ok(c.state@),
        c.clock@ == 4,
        c.replica_id@ == "A"@ || c.replica_id@ == "B"@,
    ensures
        (c.bet_refusal("liam"@, "round-1"@, amount) is None) == (amount as i64 <= setup_share(c.replica_id@)),
        !c.bet_overflows("liam"@, "round-1"@, amount),
{
    lemma_setup_available(c.replica_id@);
    assert(rights_in(c.state@, "liam"@, c.replica_id@) == setup_share(c.replica_id@));
    assert(bc_at(c.state@, "liam"@) == setup_rights());
    assert(count_of(pn_at(c.state@, "liam"@).decrements, c.replica_id@) == 0);
}

/// A bet recorded on a replica that holds the setup log: it comes at time 5, enters
/// the log at its end, and the state is the setup state with the bet applied.
pub(crate) proof fn lemma_setup_then_bet(c1: LocalClient, c2: LocalClient, op: OpModel, amount: u64, kind: BetKind)
    requires
        c1.wf(),
        c2.wf(),
        setup_log(c1.log@),
        c1.clock@ == 4,
        c1.replica_id@ == "A"@ || c1.replica_id@ == "B"@,
        bet_recorded(c1, c2, op, amount, kind),
    ensures
        op.replica_id == c1.replica_id@,
        op.lamport_time == 5,
        is_fresh_op_id(op.op_id, op.replica_id, 5),
        op.kind matches KindModel::PlaceBet { player_id, round_id, amount: x, bet_kind, origin_round_phase, .. }
            && player_id == "liam"@ && round_id == "round-1"@ && x == amount && bet_kind == kind
            && origin_round_phase == RoundPhase::BettingOpen,
        c2.log@ == c1.log@.push(op),
        c2.state@ == apply_op(c1.state@, op),
        c2.clock@ == 5,
        c2.replica_id == c1.replica_id,
{
    reveal(bet_recorded);
    reveal_strlit("A");
    reveal_strlit("B");
    assert(op == seq![op][0]);
    let l = c1.log@;
    if op_ids(l).contains(op.op_id) {
        let k = choose|k: int| 0 <= k < op_ids(l).len() && op_ids(l)[k] == op.op_id;
        lemma_fresh_ids_differ(l[k].op_id, "A"@, l[k].lamport_time, op.op_id, op.replica_id, 5);
    }
    crate::client::client::lemma_insert_all_one(l, op);
    assert forall|i: int| 0 <= i < l.len() implies (#[trigger] l[i]).lamport_time < op.lamport_time by {
    }
    lemma_rebuild_push_later(l, op);
}

/// `op` is Liam's bet of `amount` in round 1, placed on `replica` at time 5 while
/// betting was open there.
pub(crate) open spec fn bet_op(op: OpModel, replica: Seq<char>, amount: u64) -> bool {
    &&& op.replica_id == replica
    &&& op.lamport_time == 5
    &&& is_fresh_op_id(op.op_id, replica, 5)
    &&& op.kind matches KindModel::PlaceBet { player_id, round_id, amount: x, origin_round_phase, .. }
        && player_id == "liam"@ && round_id == "round-1"@ && x == amount
        && origin_round_phase == RoundPhase::BettingOpen
}

/// The bet that a bet operation adds to the bets.
pub(crate) open spec fn bet_of(op: OpModel) -> BetModel {
    match op.kind {
        KindModel::PlaceBet { bet_id, player_id, round_id, amount, bet_kind, .. } => BetModel {
            id: bet_id,
            player_id,
            round_id,
            amount,
            kind: bet_kind,
            origin_replica: op.replica_id,
            origin_lamport: op.lamport_time,
        },
        _ => arbitrary(),
    }
}

proof fn lemma_spends_one(m: Map<Seq<char>, EntryModel>, k: Seq<char>, e: EntryModel, replica: Seq<char>)
    requires
        m == Map::<Seq<char>, EntryModel>::empty().insert(k, e),
        e.amount <= 0x1_0000_0000,
    ensures
        checked_total(tally_terms::<SpendEntry>(m, replica, true)) == Some(
            SpendEntry::tally(e, replica, true) as int,
        ),
{
    let m0 = Map::<Seq<char>, EntryModel>::empty();
    lemma_tally_empty::<SpendEntry>(replica, true);
    assert(sum_of(Seq::<int>::empty()) == 0);
    lemma_tally_sum_insert::<SpendEntry>(m0, k, e, replica, true);
    assert(m.dom() =~= set![k]);
    lemma_spend_tally_small(m, replica);
}

proof fn lemma_spends_two(
    m: Map<Seq<char>, EntryModel>,
    k1: Seq<char>,
    e1: EntryModel,
    k2: Seq<char>,
    e2: EntryModel,
    replica: Seq<char>,
)
    requires
        m == Map::<Seq<char>, EntryModel>::empty().insert(k1, e1).insert(k2, e2),
        k1 != k2,
        e1.amount <= 0x1_0000_0000,
        e2.amount <= 0x1_0000_0000,
    ensures
        checked_total(tally_terms::<SpendEntry>(m, replica, true)) == Some(
            SpendEntry::tally(e1, replica, true) + SpendEntry::tally(e2, replica, true),
        ),
{
    let m0 = Map::<Seq<char>, EntryModel>::empty();
    let m1 = m0.insert(k1, e1);
    lemma_tally_empty::<SpendEntry>(replica, true);
    assert(sum_of(Seq::<int>::empty()) == 0);
    lemma_tally_sum_insert::<SpendEntry>(m0, k1, e1, replica, true);
    lemma_tally_sum_insert::<SpendEntry>(m1, k2, e2, replica, true);
    assert(m.dom() =~= set![k1, k2]);
    assert(set![k1].insert(k2).len() == 2);
    lemma_spend_tally_small(m, replica);
}

/// A bet of `x` from A and then one of `y` from B, each within that replica's
/// rights, applied to the setup state: both apply without overflow, Liam is left
/// with `100 - x - y` chips, `60 - x` rights on A and `40 - y` on B, and the two
/// bets are the bets.
pub(crate) proof fn lemma_two_bets(s4: StateModel, opa: OpModel, x: u64, opb: OpModel, y: u64)
    requires
        setup_state_ok(s4),
        bet_op(opa, "A"@, x),
        bet_op(opb, "B"@, y),
        x <= 60,
        y <= 40,
    ensures
        ({
            let s5 = apply_op(s4, opa);
            let s6 = apply_op(s5, opb);
            &&& apply_ok(s4, opa)
            &&& apply_ok(s5, opb)
            &&& liam_balance(s6) == Some((100 - x - y) as i64)
            &&& liam_rights(s6, "A"@) == Some((60 - x) as i64)
            &&& liam_rights(s6, "B"@) == Some((40 - y) as i64)
            &&& orset_elements(s6.bets) == set![bet_of(opa), bet_of(opb)]
            &&& orset_elements(s6.bets).len() == 2
        }),
{
    reveal_strlit("A");
    reveal_strlit("B");
    reveal_strlit("liam");
    reveal_strlit("round-1");
    assert("A"@ != "B"@) by {
        assert("A"@[0] != "B"@[0]);
    }
    lemma_fresh_ids_differ(opa.op_id, "A"@, 5, opb.op_id, "B"@, 5);
    let s5 = apply_op(s4, opa);
    let s6 = apply_op(s5, opb);
    let ea = EntryModel { replica_id: "A"@, amount: x };
    let eb = EntryModel { replica_id: "B"@, amount: y };
    let m0 = Map::<Seq<char>, EntryModel>::empty();
    lemma_setup_available("A"@);
    lemma_setup_available("B"@);
    assert(bc_at(s4, "liam"@) == setup_rights());
    let bc5 = BoundedModel { spends: m0.insert(opa.op_id, ea), ..setup_rights() };
    assert(s5.spending_rights["liam"@] == bc5);
    lemma_tally_empty::<GrantEntry>("B"@, true);
    lemma_tally_empty::<TransferEntry>("B"@, true);
    lemma_tally_empty::<TransferEntry>("B"@, false);
    lemma_spends_one(bc5.spends, opa.op_id, ea, "B"@);
    assert(available_result(bc5, "B"@) == Some(40int));
    let bc6 = BoundedModel { spends: m0.insert(opa.op_id, ea).insert(opb.op_id, eb), ..setup_rights() };
    assert(s6.spending_rights["liam"@] == bc6);
    lemma_tally_empty::<GrantEntry>("A"@, true);
    lemma_tally_empty::<TransferEntry>("A"@, true);
    lemma_tally_empty::<TransferEntry>("A"@, false);
    lemma_spends_two(bc6.spends, opa.op_id, ea, opb.op_id, eb, "A"@);
    lemma_spends_two(bc6.spends, opa.op_id, ea, opb.op_id, eb, "B"@);
    assert(available_result(bc6, "A"@) == Some(60 - x));
    assert(available_result(bc6, "B"@) == Some(40 - y));
    let inc = Map::<Seq<char>, u64>::empty().insert("A"@, 100u64);
    let dec = Map::<Seq<char>, u64>::empty().insert("A"@, x).insert("B"@, y);
    assert(s6.balances["liam"@].increments =~= inc);
    assert(s6.balances["liam"@].decrements =~= dec);
    lemma_map_total_empty::<String>();
    lemma_map_total_insert::<String>(Map::<Seq<char>, u64>::empty(), "A"@, 100u64);
    lemma_map_total_insert::<String>(Map::<Seq<char>, u64>::empty(), "A"@, x);
    lemma_map_total_insert::<String>(Map::<Seq<char>, u64>::empty().insert("A"@, x), "B"@, y);
    assert(map_total::<String>(inc) == 100);
    assert(map_total::<String>(dec) == x + y);
    let ba = bet_of(opa);
    let bb = bet_of(opb);
    assert(s6.bets == orset_add(orset_add(orset_empty::<BetModel>(), ba, opa.op_id), bb, opb.op_id));
    assert(ba != bb);
    assert(visible_tags(s6.bets, ba).contains(opa.op_id));
    assert(visible_tags(s6.bets, bb).contains(opb.op_id));
    assert(orset_elements(s6.bets) =~= set![ba, bb]);
    assert(set![ba].insert(bb).len() == 2);
}

/// Taking in operations whose ids a log already holds leaves it as it is.
proof fn lemma_insert_known(log: Seq<OpModel>, ops: Seq<OpModel>, i: int)
    requires
        0 <= i <= ops.len(),
        forall|j: int| 0 <= j < i ==> op_ids(log).contains(#[trigger] ops[j].op_id),
    ensures
        log_insert_all(log, ops.take(i)).0 == log,
    decreases i,
{
    if i == 0 {
        assert(ops.take(0) =~= Seq::<OpModel>::empty());
    } else {
        lemma_insert_known(log, ops, i - 1);
        assert(ops.take(i).drop_last() =~= ops.take(i - 1));
        assert(ops.take(i).last() == ops[i - 1]);
    }
}

proof fn lemma_insert_one_more(log: Seq<OpModel>, ops: Seq<OpModel>, i: int)
    requires
        0 <= i < ops.len(),
    ensures
        log_insert_all(log, ops.take(i + 1)).0 == if op_ids(log_insert_all(log, ops.take(i)).0).contains(
            ops[i].op_id,
        ) {
            log_insert_all(log, ops.take(i)).0
        } else {
            log_insert_all(log, ops.take(i)).0.push(ops[i])
        },
{
    assert(ops.take(i + 1).drop_last() =~= ops.take(i));
    assert(ops.take(i + 1).last() == ops[i]);
}

/// Two replicas that hold the setup log, one with A's bet after it and the other
/// with B's, exchange their logs without overflow: A ends with A's bet then B's,
/// B with B's then A's, and both rebuild the setup state with A's bet then B's
/// applied.
pub(crate) proof fn lemma_exchange(l4: Seq<OpModel>, opa: OpModel, x: u64, opb: OpModel, y: u64)
    requires
        setup_log(l4),
        setup_state_ok(rebuilt(l4)),
        bet_op(opa, "A"@, x),
        bet_op(opb, "B"@, y),
        x <= 60,
        y <= 40,
        rebuild_ok(l4.push(opa)),
    ensures
        ingest_ok(l4.push(opa), l4.push(opb)),
        log_insert_all(l4.push(opa), l4.push(opb)).0 == l4.push(opa).push(opb),
        ingest_ok(l4.push(opb), l4.push(opa).push(opb)),
        log_insert_all(l4.push(opb), l4.push(opa).push(opb)).0 == l4.push(opb).push(opa),
        rebuilt(l4.push(opa).push(opb)) == apply_op(apply_op(rebuilt(l4), opa), opb),
        rebuilt(l4.push(opb).push(opa)) == apply_op(apply_op(rebuilt(l4), opa), opb),
{
    broadcast use vstd::seq_lib::group_to_multiset_ensures;

    reveal_strlit("A");
    reveal_strlit("B");
    assert("A"@ != "B"@) by {
        assert("A"@[0] != "B"@[0]);
    }
    let la = l4.push(opa);
    let lb = l4.push(opb);
    let l6 = la.push(opb);
    let l6b = lb.push(opa);
    // the ids: those of the setup log, then A's bet and B's bet, all distinct
    assert forall|i: int, j: int| 0 <= i < op_ids(l6).len() && 0 <= j < op_ids(l6).len() && i != j implies op_ids(
        l6,
    )[i] != op_ids(l6)[j] by {
        assert(l6[i].replica_id.len() == 1 && l6[j].replica_id.len() == 1);
        lemma_fresh_ids_differ(
            l6[i].op_id,
            l6[i].replica_id,
            l6[i].lamport_time,
            l6[j].op_id,
            l6[j].replica_id,
            l6[j].lamport_time,
        );
    }
    assert(op_ids(la) =~= op_ids(l6).drop_last());
    assert(op_ids(l4) =~= op_ids(l6).take(4));
    assert(op_ids(lb) =~= op_ids(l4).push(opb.op_id));
    assert(!op_ids(la).contains(opb.op_id)) by {
        if op_ids(la).contains(opb.op_id) {
            let k = choose|k: int| 0 <= k < op_ids(la).len() && op_ids(la)[k] == opb.op_id;
            assert(op_ids(l6)[k] == op_ids(l6)[5]);
        }
    }
    assert(!op_ids(lb).contains(opa.op_id)) by {
        if op_ids(lb).contains(opa.op_id) {
            let k = choose|k: int| 0 <= k < op_ids(lb).len() && op_ids(lb)[k] == opa.op_id;
            if k < 4 {
                assert(op_ids(l6)[k] == op_ids(l6)[4]);
            } else {
                assert(op_ids(l6)[5] == op_ids(l6)[4]);
            }
        }
    }
    // replay order: the setup log, A's bet, B's bet
    assert(sorted_ops(l6)) by {
        assert(!crate::text::text_lt("B"@, "A"@)) by {
            reveal_with_fuel(crate::text::text_lt, 2);
        }
    }
    assert(sorted_ops(la));
    assert(sorted_ops(l4));
    assert(op_ids(l4).no_duplicates());
    lemma_sorted_is_own_sort(l6);
    lemma_sorted_is_own_sort(la);
    lemma_sorted_is_own_sort(l4);
    assert(l6.drop_last() =~= la);
    assert(la.drop_last() =~= l4);
    let s4 = rebuilt(l4);
    assert(rebuilt(la) == apply_op(s4, opa));
    assert(rebuilt(l6) == apply_op(apply_op(s4, opa), opb));
    lemma_two_bets(s4, opa, x, opb, y);
    assert(rebuild_ok(l6));
    // A takes in B's log: only B's bet is new
    assert forall|j: int| 0 <= j < 4 implies op_ids(la).contains(#[trigger] lb[j].op_id) by {
        assert(op_ids(la)[j] == lb[j].op_id);
    }
    assert forall|i: int| 0 <= i < lb.len() implies {
        let l = #[trigger] log_insert_all(la, lb.take(i)).0;
        !op_ids(l).contains(lb[i].op_id) ==> rebuild_ok(l.push(lb[i]))
    } by {
        lemma_insert_known(la, lb, i);
        if i < 4 {
            assert(op_ids(la)[i] == lb[i].op_id);
        }
    }
    lemma_insert_known(la, lb, 4);
    lemma_insert_one_more(la, lb, 4);
    assert(lb.take(5) =~= lb);
    // B takes in A's log: only A's bet is new
    assert forall|j: int| 0 <= j < 4 implies op_ids(lb).contains(#[trigger] l6[j].op_id) by {
        assert(op_ids(lb)[j] == l6[j].op_id);
    }
    lemma_insert_known(lb, l6, 4);
    lemma_insert_one_more(lb, l6, 4);
    lemma_insert_one_more(lb, l6, 5);
    assert(l6.take(6) =~= l6);
    assert(op_ids(l6b)[4] == opb.op_id);
    assert(l6b.to_multiset() =~= l6.to_multiset());
    lemma_distinct_ids_determine(l6);
    lemma_rebuild_depends_only_on_contents(l6, l6b);
    assert forall|i: int| 0 <= i < l6.len() implies {
        let l = #[trigger] log_insert_all(lb, l6.take(i)).0;
        !op_ids(l).contains(l6[i].op_id) ==> rebuild_ok(l.push(l6[i]))
    } by {
        if i < 4 {
            lemma_insert_known(lb, l6, i);
            assert(op_ids(lb)[i] == l6[i].op_id);
        }
    }
}

/// The plain counter of the double spend ends at -60: 100 chips, less 80 taken on
/// each of two replicas.
pub(crate) proof fn lemma_failure_balance()
    ensures
        failure_balance() == Some(-60i64),
{
    reveal_strlit("A");
    reveal_strlit("B");
    assert("A"@ != "B"@) by {
        assert("A"@[0] != "B"@[0]);
    }
    let (c1, c2) = failure_counters();
    let m = pn_merge(c1, c2);
    let inc = Map::<Seq<char>, u64>::empty().insert("bank"@, 100u64);
    let d1 = Map::<Seq<char>, u64>::empty().insert("A"@, 80u64);
    let d2 = Map::<Seq<char>, u64>::empty().insert("B"@, 80u64);
    assert(c1.increments =~= inc);
    assert(c2.increments =~= inc);
    assert(c1.decrements =~= d1);
    assert(c2.decrements =~= d2);
    lemma_map_join_laws::<String, u64>(inc, inc, inc);
    assert(m.increments == inc);
    assert(m.decrements =~= d1.insert("B"@, 80u64));
    lemma_map_total_empty::<String>();
    lemma_map_total_insert::<String>(Map::<Seq<char>, u64>::empty(), "bank"@, 100u64);
    lemma_map_total_insert::<String>(Map::<Seq<char>, u64>::empty(), "A"@, 80u64);
    lemma_map_total_insert::<String>(d1, "B"@, 80u64);
    assert(map_total::<String>(m.increments) == 100);
    assert(map_total::<String>(m.decrements) == 160);
    assert(pn_value_defined(m));
    assert(pn_value(m) == -60);
}

} // verus!
