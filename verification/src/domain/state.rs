//! The betting state, rebuilt deterministically by replaying operations in
//! replay order.
use vstd::prelude::*;
use vstd::string::*;
use crate::collections::{map_join, SortedMap, SortedSet};
use crate::crdt::bounded_counter::{
    available_result, bc_empty, bc_grant, bc_set_initial, bc_spend, bc_spend_defined, bc_transfer,
    bc_transfer_defined, counter_ok, lemma_available_is_value, lemma_empty_counter_ok, lemma_grant_keeps_ok,
    lemma_join_initial_keeps_ok, lemma_set_initial_keeps_ok, lemma_spend_keeps_ok, lemma_transfer_keeps_ok,
    rights_value, BoundedModel,
};
use crate::crdt::lww_register::{lww_merge, LwwModel};
use crate::crdt::or_set::{orset_add, orset_contains, orset_elements, orset_empty, orset_remove_observed, OrSetModel};
use crate::crdt::pn_counter::{count_of, pn_decrement, pn_empty, pn_increment, pn_value, pn_value_defined, PNModel};
use crate::crdt::{BoundedCounter, LwwRegister, OrSet, PNCounter};
use crate::domain::bet::BetModel;
use crate::domain::round::{round_close, round_new, round_open, round_resolve, RoundModel};
use crate::domain::{Bet, Round, RoundPhase};
use crate::sync::operation::{KindModel, OpModel};
use crate::sync::operation::op_lt;
use crate::sync::operation_log::{keys_determine, lemma_sort_depends_only_on_contents, lemma_sort_props, models, sort_operations, sort_ops};
use crate::sync::{Operation, OperationKind};
use crate::text::{compare_text, lemma_text_lt_irreflexive, lemma_text_lt_total, lemma_text_lt_transitive, text_lt, Duplicate, KeyOrder, SameValue};

verus! {

#[derive(Debug, Clone, PartialEq, Eq)]
pub struct BetSyncState {
    pub table_name: LwwRegister<Option<String>>,
    pub players: OrSet<String>,
    pub player_names: SortedMap<String, LwwRegister<String>>,
    pub rounds: OrSet<String>,
    pub round_views: SortedMap<String, Round>,
    pub bets: OrSet<Bet>,
    pub balances: SortedMap<String, PNCounter>,
    pub spending_rights: SortedMap<String, BoundedCounter>,
    pub applied_payouts: SortedSet<String>,
    pub rejected_operations: SortedMap<String, String>,
}

/// The model of the betting state.
#[verifier::ext_equal]
pub struct StateModel {
    pub table_name: LwwModel<Option<Seq<char>>>,
    pub players: OrSetModel<Seq<char>>,
    pub player_names: Map<Seq<char>, LwwModel<Seq<char>>>,
    pub rounds: OrSetModel<Seq<char>>,
    pub round_views: Map<Seq<char>, RoundModel>,
    pub bets: OrSetModel<BetModel>,
    pub balances: Map<Seq<char>, PNModel>,
    pub spending_rights: Map<Seq<char>, BoundedModel>,
    pub applied_payouts: Set<Seq<char>>,
    pub rejected_operations: Map<Seq<char>, Seq<char>>,
}

impl DeepView for BetSyncState {
    type V = StateModel;

    open spec fn deep_view(&self) -> StateModel {
        StateModel {
            table_name: self.table_name@,
            players: self.players@,
            player_names: self.player_names@,
            rounds: self.rounds@,
            round_views: self.round_views@,
            bets: self.bets@,
            balances: self.balances@,
            spending_rights: self.spending_rights@,
            applied_payouts: self.applied_payouts@,
            rejected_operations: self.rejected_operations@,
        }
    }
}

impl View for BetSyncState {
    type V = StateModel;

    open spec fn view(&self) -> StateModel {
        self.deep_view()
    }
}

/// The state before any operation: no table name, no players, rounds, bets or chips.
pub open spec fn empty_state() -> StateModel {
    StateModel {
        table_name: LwwModel { value: None, timestamp: 0, replica_id: Seq::empty() },
        players: orset_empty(),
        player_names: Map::empty(),
        rounds: orset_empty(),
        round_views: Map::empty(),
        bets: orset_empty(),
        balances: Map::empty(),
        spending_rights: Map::empty(),
        applied_payouts: Set::empty(),
        rejected_operations: Map::empty(),
    }
}

/// A player's chip counter (empty where the player has none).
pub open spec fn pn_at(s: StateModel, player: Seq<char>) -> PNModel {
    if s.balances.contains_key(player) {
        s.balances[player]
    } else {
        pn_empty()
    }
}

/// A player's spending-rights counter (empty where the player has none).
pub open spec fn bc_at(s: StateModel, player: Seq<char>) -> BoundedModel {
    if s.spending_rights.contains_key(player) {
        s.spending_rights[player]
    } else {
        bc_empty()
    }
}

/// Recording why `op` was refused.
pub open spec fn reject(s: StateModel, op: OpModel, reason: Seq<char>) -> StateModel {
    StateModel { rejected_operations: s.rejected_operations.insert(op.op_id, reason), ..s }
}

/// A player's rights after joining: the joining replica gets the starting chips
/// where no split is given, else each replica of the split gets its share (each
/// keeping any larger rights it already had).
pub open spec fn join_rights(
    c: BoundedModel,
    replica: Seq<char>,
    starting_chips: u64,
    initial_rights: Map<Seq<char>, u64>,
) -> BoundedModel {
    if initial_rights == Map::<Seq<char>, u64>::empty() {
        bc_set_initial(c, replica, starting_chips)
    } else {
        BoundedModel { initial_rights: map_join::<String, u64>(c.initial_rights, initial_rights), ..c }
    }
}

/// A round transition on the round `round_id`: refused where the round does not
/// exist or the transition is not allowed from its phase.
pub open spec fn round_step(
    s: StateModel,
    op: OpModel,
    round_id: Seq<char>,
    step: (RoundModel, bool),
    refused: Seq<char>,
) -> StateModel {
    let s2 = StateModel { round_views: s.round_views.insert(round_id, step.0), ..s };
    if step.1 {
        s2
    } else {
        reject(s2, op, refused)
    }
}

/// The effect of one operation on the state.
pub open spec fn apply_op(s: StateModel, op: OpModel) -> StateModel {
    match op.kind {
        KindModel::CreateTable { name, .. } => StateModel {
            table_name: lww_merge(
                s.table_name,
                LwwModel { value: Some(name), timestamp: op.lamport_time, replica_id: op.replica_id },
            ),
            ..s
        },
        KindModel::JoinTable { player_id, display_name, starting_chips, initial_rights, .. } => {
            let name = LwwModel { value: display_name, timestamp: op.lamport_time, replica_id: op.replica_id };
            StateModel {
                players: orset_add(s.players, player_id, op.op_id),
                player_names: s.player_names.insert(
                    player_id,
                    if s.player_names.contains_key(player_id) {
                        lww_merge(s.player_names[player_id], name)
                    } else {
                        name
                    },
                ),
                balances: s.balances.insert(
                    player_id,
                    pn_increment(pn_at(s, player_id), op.replica_id, starting_chips),
                ),
                spending_rights: s.spending_rights.insert(
                    player_id,
                    join_rights(bc_at(s, player_id), op.replica_id, starting_chips, initial_rights),
                ),
                ..s
            }
        },
        KindModel::LeaveTable { player_id, .. } => StateModel {
            players: orset_remove_observed(s.players, player_id),
            ..s
        },
        KindModel::CreateRound { round_id, dealer_id } => StateModel {
            rounds: orset_add(s.rounds, round_id, op.op_id),
            round_views: if s.round_views.contains_key(round_id) {
                s.round_views
            } else {
                s.round_views.insert(round_id, round_new(round_id, dealer_id))
            },
            ..s
        },
        KindModel::OpenBetting { round_id } => if !s.round_views.contains_key(round_id) {
            reject(s, op, "round does not exist"@)
        } else {
            round_step(
                s,
                op,
                round_id,
                round_open(s.round_views[round_id]),
                "invalid round transition to BettingOpen"@,
            )
        },
        KindModel::PlaceBet { bet_id, player_id, round_id, amount, bet_kind, origin_round_phase } => {
            if !orset_contains(s.players, player_id) {
                reject(s, op, "player has not joined"@)
            } else if origin_round_phase != RoundPhase::BettingOpen {
                reject(s, op, "origin replica did not have betting open"@)
            } else if !s.round_views.contains_key(round_id) {
                reject(s, op, "round does not exist"@)
            } else {
                let (rights, accepted) = bc_spend(bc_at(s, player_id), op.op_id, op.replica_id, amount);
                let s2 = StateModel { spending_rights: s.spending_rights.insert(player_id, rights), ..s };
                if !accepted {
                    reject(s2, op, "insufficient local spending rights"@)
                } else {
                    StateModel {
                        balances: s2.balances.insert(
                            player_id,
                            pn_decrement(pn_at(s2, player_id), op.replica_id, amount),
                        ),
                        bets: orset_add(
                            s2.bets,
                            BetModel {
                                id: bet_id,
                                player_id,
                                round_id,
                                amount,
                                kind: bet_kind,
                                origin_replica: op.replica_id,
                                origin_lamport: op.lamport_time,
                            },
                            op.op_id,
                        ),
                        ..s2
                    }
                }
            }
        },
        KindModel::CloseBetting { round_id } => if !s.round_views.contains_key(round_id) {
            reject(s, op, "round does not exist"@)
        } else {
            round_step(
                s,
                op,
                round_id,
                round_close(s.round_views[round_id]),
                "invalid round transition to BettingClosed"@,
            )
        },
        KindModel::ResolveRound { round_id, dice } => if !s.round_views.contains_key(round_id) {
            reject(s, op, "round does not exist"@)
        } else {
            round_step(
                s,
                op,
                round_id,
                round_resolve(s.round_views[round_id], dice),
                "invalid round transition to Resolved"@,
            )
        },
        KindModel::ApplyPayout { payout_id, player_id, amount, .. } => {
            if s.applied_payouts.contains(payout_id) {
                reject(s, op, "duplicate payout id"@)
            } else {
                StateModel {
                    applied_payouts: s.applied_payouts.insert(payout_id),
                    balances: s.balances.insert(
                        player_id,
                        pn_increment(pn_at(s, player_id), op.replica_id, amount),
                    ),
                    spending_rights: s.spending_rights.insert(
                        player_id,
                        bc_grant(bc_at(s, player_id), payout_id, op.replica_id, amount),
                    ),
                    ..s
                }
            }
        },
        KindModel::TransferSpendingRights { player_id, from_replica, to_replica, amount } => {
            let (rights, accepted) = bc_transfer(bc_at(s, player_id), op.op_id, from_replica, to_replica, amount);
            let s2 = StateModel { spending_rights: s.spending_rights.insert(player_id, rights), ..s };
            if accepted {
                s2
            } else {
                reject(s2, op, "insufficient rights for transfer"@)
            }
        },
    }
}

/// Applying `op` to `s` does no arithmetic that overflows: a join's or a payout's
/// chips fit the replica's `u64` total, an accepted bet fits the replica's spent
/// total and its rights can be computed, and so can those of a transfer's source.
pub open spec fn apply_ok(s: StateModel, op: OpModel) -> bool {
    match op.kind {
        KindModel::JoinTable { player_id, starting_chips, .. } => count_of(
            pn_at(s, player_id).increments,
            op.replica_id,
        ) + starting_chips <= u64::MAX,
        KindModel::PlaceBet { player_id, round_id, amount, origin_round_phase, .. } => {
            (orset_contains(s.players, player_id) && origin_round_phase == RoundPhase::BettingOpen
                && s.round_views.contains_key(round_id)) ==> {
                &&& bc_spend_defined(bc_at(s, player_id), op.op_id, op.replica_id)
                &&& bc_spend(bc_at(s, player_id), op.op_id, op.replica_id, amount).1 ==> count_of(
                    pn_at(s, player_id).decrements,
                    op.replica_id,
                ) + amount <= u64::MAX
            }
        },
        KindModel::ApplyPayout { payout_id, player_id, amount, .. } => !s.applied_payouts.contains(
            payout_id,
        ) ==> count_of(pn_at(s, player_id).increments, op.replica_id) + amount <= u64::MAX,
        KindModel::TransferSpendingRights { player_id, from_replica, .. } => bc_transfer_defined(
            bc_at(s, player_id),
            op.op_id,
            from_replica,
        ),
        _ => true,
    }
}

/// The state after applying `ops` in order to `s`.
pub open spec fn replay(s: StateModel, ops: Seq<OpModel>) -> StateModel
    decreases ops.len(),
{
    if ops.len() == 0 {
        s
    } else {
        apply_op(replay(s, ops.drop_last()), ops.last())
    }
}

/// No step of replaying `ops` on `s` overflows.
pub open spec fn replay_ok(s: StateModel, ops: Seq<OpModel>) -> bool
    decreases ops.len(),
{
    if ops.len() == 0 {
        true
    } else {
        replay_ok(s, ops.drop_last()) && apply_ok(replay(s, ops.drop_last()), ops.last())
    }
}

/// The state rebuilt from a set of operations: replayed from the empty state in
/// replay order.
pub open spec fn rebuilt(ops: Seq<OpModel>) -> StateModel {
    replay(empty_state(), sort_ops(ops))
}

/// Rebuilding from `ops` does not overflow.
pub open spec fn rebuild_ok(ops: Seq<OpModel>) -> bool {
    replay_ok(empty_state(), sort_ops(ops))
}

pub proof fn lemma_replay_ok_prefix(s: StateModel, ops: Seq<OpModel>, i: int)
    requires
        0 <= i < ops.len(),
        replay_ok(s, ops),
    ensures
        replay_ok(s, ops.take(i)),
        apply_ok(replay(s, ops.take(i)), ops[i]),
    decreases ops.len() - i,
{
    if i == ops.len() - 1 {
        assert(ops.drop_last() =~= ops.take(i));
    } else {
        lemma_replay_ok_prefix(s, ops.drop_last(), i);
        assert(ops.drop_last().take(i) =~= ops.take(i));
    }
}

/// The state rebuilt from operations depends only on which operations there are,
/// not on their order: hosts that hold the same operations (the same multiset),
/// where operations with one replay key (Lamport time, replica id, operation id)
/// are identical, rebuild the same state; and rebuilding overflows for one exactly
/// when it does for the other.
pub proof fn lemma_rebuild_depends_only_on_contents(s1: Seq<OpModel>, s2: Seq<OpModel>)
    requires
        s1.to_multiset() == s2.to_multiset(),
        keys_determine(s1.to_multiset()),
    ensures
        rebuilt(s1) == rebuilt(s2),
        rebuild_ok(s1) == rebuild_ok(s2),
{
    lemma_sort_depends_only_on_contents(s1, s2);
}

/// An operation later than every operation of a log is replayed last: the state
/// rebuilt with it is the state rebuilt without it, with it applied.
pub proof fn lemma_rebuild_push_later(log: Seq<OpModel>, op: OpModel)
    requires
        forall|i: int| 0 <= i < log.len() ==> (#[trigger] log[i]).lamport_time < op.lamport_time,
    ensures
        sort_ops(log.push(op)) == sort_ops(log).push(op),
        rebuilt(log.push(op)) == apply_op(rebuilt(log), op),
        rebuild_ok(log.push(op)) == (rebuild_ok(log) && apply_ok(rebuilt(log), op)),
{
    broadcast use vstd::seq_lib::group_to_multiset_ensures;

    let t = sort_ops(log);
    lemma_sort_props(log);
    assert(log.push(op).drop_last() =~= log);
    if t.len() > 0 {
        assert(t.contains(t.last()));
        assert(t.to_multiset().count(t.last()) > 0);
        assert(log.contains(t.last()));
        assert(!op_lt(op, t.last()));
    }
    assert(sort_ops(log.push(op)) == sort_ops(log).push(op));
    assert(sort_ops(log).push(op).drop_last() =~= sort_ops(log));
}

/// The greatest id of a round that is not resolved yet.
pub open spec fn open_round_ids(s: StateModel) -> Set<Seq<char>> {
    Set::new(
        |id: Seq<char>|
            exists|k: Seq<char>|
                #[trigger] s.round_views.contains_key(k) && s.round_views[k].phase != RoundPhase::Resolved
                    && s.round_views[k].id == id,
    )
}

pub open spec fn is_greatest(ids: Set<Seq<char>>, x: Seq<char>) -> bool {
    ids.contains(x) && forall|y: Seq<char>| #[trigger] ids.contains(y) ==> !text_lt(x, y)
}

/// The round that `active_round_id` reports: the greatest id among unresolved rounds.
pub open spec fn active_round(s: StateModel) -> Option<Seq<char>> {
    if exists|x: Seq<char>| is_greatest(open_round_ids(s), x) {
        Some(choose|x: Seq<char>| is_greatest(open_round_ids(s), x))
    } else {
        None
    }
}

impl Default for BetSyncState {
    fn default() -> (r: Self)
        ensures
            r.wf(),
            r@ == empty_state(),
    {
        let r = BetSyncState {
            table_name: LwwRegister::new(None, 0, ""),
            players: OrSet::default(),
            player_names: SortedMap::new(),
            rounds: OrSet::default(),
            round_views: SortedMap::new(),
            bets: OrSet::default(),
            balances: SortedMap::new(),
            spending_rights: SortedMap::new(),
            applied_payouts: SortedSet::new(),
            rejected_operations: SortedMap::new(),
        };
        proof {
            reveal_strlit("");
        }
        assert(r.table_name@.replica_id =~= Seq::<char>::empty());
        assert(r@ =~= empty_state());
        r
    }
}

impl BetSyncState {
    pub open spec fn wf(&self) -> bool {
        &&& self.table_name.wf()
        &&& self.players.wf()
        &&& self.player_names.wf()
        &&& self.rounds.wf()
        &&& self.round_views.wf()
        &&& self.bets.wf()
        &&& self.balances.wf()
        &&& self.spending_rights.wf()
        &&& self.applied_payouts.wf()
        &&& self.rejected_operations.wf()
    }

    /// Rebuilds the state from `operations`: sorts them into replay order and
    /// applies each in turn to the empty state.
    pub fn from_operations(operations: &[Operation]) -> (r: Self)
        requires
            forall|i: int| 0 <= i < operations@.len() ==> (#[trigger] operations@[i]).wf(),
            rebuild_ok(models(operations@)),
        ensures
            r.wf(),
            r@ == rebuilt(models(operations@)),
    {
        let mut state = Self::default();
        let sorted = sort_operations(operations);
        let ghost ops = models(sorted@);
        let n = sorted.len();
        assert(ops.take(0) =~= Seq::<OpModel>::empty());
        for i in 0..n
            invariant
                n == sorted@.len(),
                ops == models(sorted@),
                forall|k: int| 0 <= k < sorted@.len() ==> (#[trigger] sorted@[k]).wf(),
                replay_ok(empty_state(), ops),
                state.wf(),
                state@ == replay(empty_state(), ops.take(i as int)),
        {
            proof {
                lemma_replay_ok_prefix(empty_state(), ops, i as int);
                assert(ops.take(i + 1).drop_last() =~= ops.take(i as int));
            }
            state.apply(&sorted[i]);
        }
        assert(ops.take(n as int) =~= ops);
        state
    }

    /// A player's chips: the value of their counter, or zero where they have none.
    pub fn player_balance(&self, player_id: &str) -> (r: i64)
        requires
            self.wf(),
            self@.balances.contains_key(player_id@) ==> pn_value_defined(self@.balances[player_id@]),
        ensures
            r == if self@.balances.contains_key(player_id@) {
                pn_value(self@.balances[player_id@])
            } else {
                0
            },
    {
        match self.balances.get(&player_id.to_owned()) {
            Some(counter) => counter.value(),
            None => 0,
        }
    }

    /// The rights a player has left on a replica, or zero where the player has no
    /// counter.
    pub fn available_rights(&self, player_id: &str, replica_id: &str) -> (r: i64)
        requires
            self.wf(),
            self@.spending_rights.contains_key(player_id@) ==> available_result(
                self@.spending_rights[player_id@],
                replica_id@,
            ) is Some,
        ensures
            r == if self@.spending_rights.contains_key(player_id@) {
                available_result(self@.spending_rights[player_id@], replica_id@)->0
            } else {
                0
            },
    {
        match self.spending_rights.get(&player_id.to_owned()) {
            Some(counter) => counter.available(replica_id),
            None => 0,
        }
    }

    pub fn round_phase(&self, round_id: &str) -> (r: Option<RoundPhase>)
        requires
            self.wf(),
        ensures
            r == if self@.round_views.contains_key(round_id@) {
                Some(self@.round_views[round_id@].phase)
            } else {
                None::<RoundPhase>
            },
    {
        match self.round_views.get(&round_id.to_owned()) {
            Some(round) => Some(round.phase),
            None => None,
        }
    }

    /// The bets that are in the set, in bet order.
    pub fn visible_bets(&self) -> (r: SortedSet<Bet>)
        requires
            self.wf(),
        ensures
            r.wf(),
            r@ == orset_elements(self@.bets),
    {
        self.bets.elements()
    }

    /// The greatest id among rounds that are not resolved yet.
    pub fn active_round_id(&self) -> (r: Option<String>)
        requires
            self.wf(),
        ensures
            match r {
                Some(id) => active_round(self@) == Some(id@),
                None => active_round(self@) is None,
            },
    {
        proof {
            self.round_views.lemma_wf_view();
        }
        let ghost m = self@.round_views;
        let ghost keys = self.round_views.keys();
        let n = self.round_views.len();
        let mut best: Option<String> = None;
        for i in 0..n
            invariant
                n == keys.len(),
                keys == self.round_views.keys(),
                m == self@.round_views,
                self.wf(),
                m.dom() == keys.to_set(),
                match best {
                    Some(b) => (exists|j: int|
                        0 <= j < i && m[keys[j]].phase != RoundPhase::Resolved && #[trigger] m[keys[j]].id
                            == b@) && (forall|j: int|
                        0 <= j < i && m[keys[j]].phase != RoundPhase::Resolved ==> !text_lt(
                            b@,
                            #[trigger] m[keys[j]].id,
                        )),
                    None => forall|j: int| 0 <= j < i ==> #[trigger] m[keys[j]].phase == RoundPhase::Resolved,
                },
        {
            let round = self.round_views.value_at(i);
            assert(m[keys[i as int]].id == round.id@);
            assert(m[keys[i as int]].phase == round.phase);
            if round.phase != RoundPhase::Resolved {
                let replace = match &best {
                    None => true,
                    Some(b) => compare_text(b.as_str(), round.id.as_str()) == KeyOrder::Less,
                };
                if replace {
                    proof {
                        assert forall|j: int|
                            0 <= j < i + 1 && m[keys[j]].phase != RoundPhase::Resolved implies !text_lt(
                            round.id@,
                            #[trigger] m[keys[j]].id,
                        ) by {
                            if j < i {
                                if best is Some {
                                    let b = best->0@;
                                    lemma_text_lt_total(b, m[keys[j]].id);
                                    if text_lt(round.id@, m[keys[j]].id) {
                                        lemma_text_lt_transitive(b, round.id@, m[keys[j]].id);
                                        lemma_text_lt_irreflexive(b);
                                    }
                                }
                            } else {
                                lemma_text_lt_irreflexive(round.id@);
                            }
                        }
                    }
                    best = Some(round.id.clone());
                    assert(exists|j: int|
                        0 <= j < i + 1 && m[keys[j]].phase != RoundPhase::Resolved && #[trigger] m[keys[j]].id
                            == round.id@);
                } else {
                    proof {
                        if best is Some {
                            lemma_text_lt_total(best->0@, round.id@);
                        }
                    }
                }
            }
        }
        let ghost open = open_round_ids(self@);
        match best {
            Some(b) => {
                proof {
                    assert(is_greatest(open, b@)) by {
                        let j0 = choose|j: int|
                            0 <= j < n && m[keys[j]].phase != RoundPhase::Resolved && #[trigger] m[keys[j]].id
                                == b@;
                        assert(m.contains_key(keys[j0]));
                        assert forall|y: Seq<char>| #[trigger] open.contains(y) implies !text_lt(b@, y) by {
                            let k = choose|k: Seq<char>|
                                #[trigger] m.contains_key(k) && m[k].phase != RoundPhase::Resolved && m[k].id == y;
                            assert(keys.to_set().contains(k));
                            let j = choose|j: int| 0 <= j < keys.len() && keys[j] == k;
                            assert(m[keys[j]].id == y);
                        }
                    }
                    let c = choose|x: Seq<char>| is_greatest(open, x);
                    lemma_text_lt_total(c, b@);
                }
                Some(b)
            },
            None => {
                proof {
                    assert forall|x: Seq<char>| !is_greatest(open, x) by {
                        if open.contains(x) {
                            let k = choose|k: Seq<char>|
                                #[trigger] m.contains_key(k) && m[k].phase != RoundPhase::Resolved && m[k].id == x;
                            assert(keys.to_set().contains(k));
                            let j = choose|j: int| 0 <= j < keys.len() && keys[j] == k;
                            assert(m[keys[j]].phase == RoundPhase::Resolved);
                        }
                    }
                }
                None
            },
        }
    }

    fn reject(&mut self, operation: &Operation, reason: &str)
        requires
            old(self).wf(),
        ensures
            final(self).wf(),
            final(self)@ == reject(old(self)@, operation.deep_view(), reason@),
    {
        self.rejected_operations.insert(operation.op_id.clone(), reason.to_owned());
    }

    /// The counter of `player_id`, or a new one.
    fn balance_of(&self, player_id: &String) -> (r: PNCounter)
        requires
            self.wf(),
        ensures
            r.wf(),
            r@ == pn_at(self@, player_id@),
    {
        match self.balances.get(player_id) {
            Some(counter) => counter.duplicate(),
            None => PNCounter::default(),
        }
    }

    /// The spending rights of `player_id`, or a new counter.
    fn rights_of(&self, player_id: &String) -> (r: BoundedCounter)
        requires
            self.wf(),
        ensures
            r.wf(),
            r@ == bc_at(self@, player_id@),
    {
        match self.spending_rights.get(player_id) {
            Some(counter) => counter.duplicate(),
            None => BoundedCounter::default(),
        }
    }

    /// Applies one operation; see `apply_op`.
    pub fn apply(&mut self, operation: &Operation)
        requires
            old(self).wf(),
            operation.wf(),
            apply_ok(old(self)@, operation.deep_view()),
        ensures
            final(self).wf(),
            final(self)@ == apply_op(old(self)@, operation.deep_view()),
    {
        let ghost s = self@;
        let ghost op = operation.deep_view();
        let t = operation.lamport_time;
        let replica = operation.replica_id.as_str();
        let op_id = operation.op_id.as_str();
        match &operation.kind {
            OperationKind::CreateTable { name, .. } => {
                self.table_name.assign(Some(name.clone()), t, replica);
                assert(self@ =~= apply_op(s, op));
            },
            OperationKind::JoinTable { player_id, display_name, starting_chips, initial_rights, .. } => {
                self.players.add(player_id.clone(), op_id);
                let register = match self.player_names.get(player_id) {
                    Some(existing) => {
                        let mut updated = existing.duplicate();
                        updated.assign(display_name.clone(), t, replica);
                        updated
                    },
                    None => LwwRegister::new(display_name.clone(), t, replica),
                };
                self.player_names.insert(player_id.clone(), register);
                let mut balance = self.balance_of(player_id);
                balance.increment(replica, *starting_chips);
                self.balances.insert(player_id.clone(), balance);
                let mut rights = self.rights_of(player_id);
                proof {
                    initial_rights.lemma_wf_view();
                }
                if initial_rights.len() == 0 {
                    assert(initial_rights@ =~= Map::<Seq<char>, u64>::empty());
                    rights.set_initial_rights(replica, *starting_chips);
                } else {
                    assert(initial_rights@.contains_key(initial_rights.keys()[0]));
                    rights.initial_rights.join_from(initial_rights);
                }
                self.spending_rights.insert(player_id.clone(), rights);
                assert(self@ =~= apply_op(s, op));
            },
            OperationKind::LeaveTable { player_id, .. } => {
                self.players.remove_observed(player_id, op_id);
                assert(self@ =~= apply_op(s, op));
            },
            OperationKind::CreateRound { round_id, dealer_id } => {
                self.rounds.add(round_id.clone(), op_id);
                if !self.round_views.contains_key(round_id) {
                    self.round_views.insert(round_id.clone(), Round::new(round_id.as_str(), dealer_id.as_str()));
                }
                assert(self@ =~= apply_op(s, op));
            },
            OperationKind::OpenBetting { round_id } => {
                let found = match self.round_views.get(round_id) {
                    Some(round) => Some(round.duplicate()),
                    None => None,
                };
                match found {
                    None => {
                        self.reject(operation, "round does not exist");
                    },
                    Some(mut round) => {
                        let changed = round.open();
                        self.round_views.insert(round_id.clone(), round);
                        if !changed {
                            self.reject(operation, "invalid round transition to BettingOpen");
                        }
                    },
                }
                assert(self@ =~= apply_op(s, op));
            },
            OperationKind::CloseBetting { round_id } => {
                let found = match self.round_views.get(round_id) {
                    Some(round) => Some(round.duplicate()),
                    None => None,
                };
                match found {
                    None => {
                        self.reject(operation, "round does not exist");
                    },
                    Some(mut round) => {
                        let changed = round.close();
                        self.round_views.insert(round_id.clone(), round);
                        if !changed {
                            self.reject(operation, "invalid round transition to BettingClosed");
                        }
                    },
                }
                assert(self@ =~= apply_op(s, op));
            },
            OperationKind::ResolveRound { round_id, dice } => {
                let found = match self.round_views.get(round_id) {
                    Some(round) => Some(round.duplicate()),
                    None => None,
                };
                match found {
                    None => {
                        self.reject(operation, "round does not exist");
                    },
                    Some(mut round) => {
                        let changed = round.resolve(*dice);
                        self.round_views.insert(round_id.clone(), round);
                        if !changed {
                            self.reject(operation, "invalid round transition to Resolved");
                        }
                    },
                }
                assert(self@ =~= apply_op(s, op));
            },
            OperationKind::PlaceBet { bet_id, player_id, round_id, amount, bet_kind, origin_round_phase } => {
                if !self.players.contains(player_id) {
                    self.reject(operation, "player has not joined");
                    assert(self@ =~= apply_op(s, op));
                    return;
                }
                if *origin_round_phase != RoundPhase::BettingOpen {
                    self.reject(operation, "origin replica did not have betting open");
                    assert(self@ =~= apply_op(s, op));
                    return;
                }
                if !self.round_views.contains_key(round_id) {
                    self.reject(operation, "round does not exist");
                    assert(self@ =~= apply_op(s, op));
                    return;
                }
                let mut rights = self.rights_of(player_id);
                let accepted = rights.spend(op_id, replica, *amount);
                self.spending_rights.insert(player_id.clone(), rights);
                if !accepted {
                    self.reject(operation, "insufficient local spending rights");
                    assert(self@ =~= apply_op(s, op));
                    return;
                }
                let mut balance = self.balance_of(player_id);
                balance.decrement(replica, *amount);
                self.balances.insert(player_id.clone(), balance);
                let bet = Bet {
                    id: bet_id.clone(),
                    player_id: player_id.clone(),
                    round_id: round_id.clone(),
                    amount: *amount,
                    kind: *bet_kind,
                    origin_replica: operation.replica_id.clone(),
                    origin_lamport: t,
                };
                self.bets.add(bet, op_id);
                assert(self@ =~= apply_op(s, op));
            },
            OperationKind::ApplyPayout { payout_id, player_id, amount, .. } => {
                if self.applied_payouts.contains(payout_id) {
                    self.reject(operation, "duplicate payout id");
                    assert(self@ =~= apply_op(s, op));
                    return;
                }
                self.applied_payouts.insert(payout_id.clone());
                let mut balance = self.balance_of(player_id);
                balance.increment(replica, *amount);
                self.balances.insert(player_id.clone(), balance);
                let mut rights = self.rights_of(player_id);
                rights.grant(payout_id.as_str(), replica, *amount);
                self.spending_rights.insert(player_id.clone(), rights);
                assert(self@ =~= apply_op(s, op));
            },
            OperationKind::TransferSpendingRights { player_id, from_replica, to_replica, amount } => {
                let mut rights = self.rights_of(player_id);
                let accepted = rights.transfer(op_id, from_replica.as_str(), to_replica.as_str(), *amount);
                self.spending_rights.insert(player_id.clone(), rights);
                if !accepted {
                    self.reject(operation, "insufficient rights for transfer");
                }
                assert(self@ =~= apply_op(s, op));
            },
        }
    }
}

proof fn lemma_replay_not_ok(s: StateModel, ops: Seq<OpModel>, i: int)
    requires
        0 <= i < ops.len(),
        !apply_ok(replay(s, ops.take(i)), ops[i]),
    ensures
        !replay_ok(s, ops),
    decreases ops.len() - i,
{
    if i == ops.len() - 1 {
        assert(ops.drop_last() =~= ops.take(i));
    } else {
        assert(ops.drop_last().take(i) =~= ops.take(i));
        assert(ops.drop_last()[i] == ops[i]);
        lemma_replay_not_ok(s, ops.drop_last(), i);
    }
}

impl BetSyncState {
    /// A player's count at a replica in a per-replica map of their counter.
    fn count_at(map: &SortedMap<String, u64>, replica: &str) -> (r: u64)
        requires
            map.wf(),
        ensures
            r == count_of(map@, replica@),
    {
        match map.get(&replica.to_owned()) {
            Some(v) => *v,
            None => 0,
        }
    }

    /// Whether applying `operation` is free of overflow; see `apply_ok`.
    pub fn apply_fits(&self, operation: &Operation) -> (r: bool)
        requires
            self.wf(),
            operation.wf(),
        ensures
            r == apply_ok(self@, operation.deep_view()),
    {
        let replica = operation.replica_id.as_str();
        let op_id = operation.op_id.as_str();
        match &operation.kind {
            OperationKind::JoinTable { player_id, starting_chips, .. } => {
                let balance = self.balance_of(player_id);
                Self::count_at(&balance.increments, replica) <= u64::MAX - *starting_chips
            },
            OperationKind::PlaceBet { player_id, round_id, amount, origin_round_phase, .. } => {
                if !(self.players.contains(player_id) && *origin_round_phase == RoundPhase::BettingOpen
                    && self.round_views.contains_key(round_id)) {
                    return true;
                }
                let rights = self.rights_of(player_id);
                let recorded = rights.spends.contains_key(&op_id.to_owned());
                let accepted = if recorded {
                    true
                } else {
                    match rights.checked_available(replica) {
                        None => {
                            return false;
                        },
                        Some(available) => available >= *amount as i64,
                    }
                };
                if !accepted {
                    return true;
                }
                let balance = self.balance_of(player_id);
                Self::count_at(&balance.decrements, replica) <= u64::MAX - *amount
            },
            OperationKind::ApplyPayout { payout_id, player_id, amount, .. } => {
                if self.applied_payouts.contains(payout_id) {
                    return true;
                }
                let balance = self.balance_of(player_id);
                Self::count_at(&balance.increments, replica) <= u64::MAX - *amount
            },
            OperationKind::TransferSpendingRights { player_id, from_replica, .. } => {
                let rights = self.rights_of(player_id);
                rights.transfers.contains_key(&op_id.to_owned()) || rights.checked_available(
                    from_replica.as_str(),
                ).is_some()
            },
            _ => true,
        }
    }

    /// Whether rebuilding from `operations` is free of overflow; see `rebuild_ok`.
    pub fn rebuild_fits(operations: &[Operation]) -> (r: bool)
        requires
            forall|i: int| 0 <= i < operations@.len() ==> (#[trigger] operations@[i]).wf(),
        ensures
            r == rebuild_ok(models(operations@)),
    {
        let mut state = Self::default();
        let sorted = sort_operations(operations);
        let ghost ops = models(sorted@);
        let n = sorted.len();
        assert(ops.take(0) =~= Seq::<OpModel>::empty());
        for i in 0..n
            invariant
                n == sorted@.len(),
                ops == models(sorted@),
                ops == sort_ops(models(operations@)),
                forall|k: int| 0 <= k < sorted@.len() ==> (#[trigger] sorted@[k]).wf(),
                replay_ok(empty_state(), ops.take(i as int)),
                state.wf(),
                state@ == replay(empty_state(), ops.take(i as int)),
        {
            proof {
                assert(ops.take(i + 1).drop_last() =~= ops.take(i as int));
                assert(ops.take(i + 1).last() == ops[i as int]);
            }
            if !state.apply_fits(&sorted[i]) {
                proof {
                    lemma_replay_not_ok(empty_state(), ops, i as int);
                }
                return false;
            }
            state.apply(&sorted[i]);
        }
        assert(ops.take(n as int) =~= ops);
        true
    }
}

impl SameValue for BetSyncState {
    fn same_value(&self, other: &Self) -> (r: bool) {
        self.table_name.same_value(&other.table_name) && self.players.same_value(&other.players)
            && self.player_names.same_value(&other.player_names) && self.rounds.same_value(&other.rounds)
            && self.round_views.same_value(&other.round_views) && self.bets.same_value(&other.bets)
            && self.balances.same_value(&other.balances) && self.spending_rights.same_value(&other.spending_rights)
            && self.applied_payouts.same_value(&other.applied_payouts) && self.rejected_operations.same_value(
            &other.rejected_operations,
        )
    }
}

impl Duplicate for BetSyncState {
    open spec fn valid(&self) -> bool {
        self.wf()
    }

    fn duplicate(&self) -> (r: Self) {
        BetSyncState {
            table_name: self.table_name.duplicate(),
            players: self.players.duplicate(),
            player_names: self.player_names.duplicate(),
            rounds: self.rounds.duplicate(),
            round_views: self.round_views.duplicate(),
            bets: self.bets.duplicate(),
            balances: self.balances.duplicate(),
            spending_rights: self.spending_rights.duplicate(),
            applied_payouts: self.applied_payouts.duplicate(),
            rejected_operations: self.rejected_operations.duplicate(),
        }
    }
}

/// A payout is paid once: applying a second payout under the same payout id, from
/// whichever replica, changes no chips and no rights.
pub proof fn lemma_payout_paid_once(s: StateModel, first: OpModel, second: OpModel)
    requires
        first.kind is ApplyPayout,
        second.kind is ApplyPayout,
        first.kind->ApplyPayout_payout_id == second.kind->ApplyPayout_payout_id,
    ensures
        apply_op(apply_op(s, first), second).balances == apply_op(s, first).balances,
        apply_op(apply_op(s, first), second).spending_rights == apply_op(s, first).spending_rights,
        apply_op(apply_op(s, first), second).applied_payouts == apply_op(s, first).applied_payouts,
{
    assert(apply_op(s, first).applied_payouts.contains(first.kind->ApplyPayout_payout_id));
}

/// A bet is judged by the phase its origin replica saw: where that replica had
/// betting open, the phase that this host holds for the round (closed or even
/// resolved here) changes nothing of the bets, chips or rights that the bet leaves.
pub proof fn lemma_late_bet_judged_by_origin(s: StateModel, op: OpModel, phase: RoundPhase)
    requires
        op.kind is PlaceBet,
        op.kind->PlaceBet_origin_round_phase == RoundPhase::BettingOpen,
        s.round_views.contains_key(op.kind->PlaceBet_round_id),
    ensures
        ({
            let rid = op.kind->PlaceBet_round_id;
            let here = StateModel {
                round_views: s.round_views.insert(rid, RoundModel { phase, ..s.round_views[rid] }),
                ..s
            };
            &&& apply_op(here, op).bets == apply_op(s, op).bets
            &&& apply_op(here, op).balances == apply_op(s, op).balances
            &&& apply_op(here, op).spending_rights == apply_op(s, op).spending_rights
            &&& apply_op(here, op).rejected_operations == apply_op(s, op).rejected_operations
        }),
{
}

/// The amounts of an operation that enter spending rights fit in `i64`: a join's
/// chips and split, a payout, a transfer.
pub open spec fn amounts_fit(op: OpModel) -> bool {
    match op.kind {
        KindModel::JoinTable { starting_chips, initial_rights, .. } => starting_chips <= i64::MAX && forall|
            r: Seq<char>,
        | #[trigger] initial_rights.contains_key(r) ==> initial_rights[r] <= i64::MAX,
        KindModel::ApplyPayout { amount, .. } => amount <= i64::MAX,
        KindModel::TransferSpendingRights { amount, .. } => amount <= i64::MAX,
        _ => true,
    }
}

/// No player's rights are negative on any replica, and every grant is of a payout
/// already applied.
pub open spec fn rights_ok(s: StateModel) -> bool {
    forall|p: Seq<char>|
        #[trigger] s.spending_rights.contains_key(p) ==> counter_ok(s.spending_rights[p])
            && s.spending_rights[p].grants.dom().subset_of(s.applied_payouts)
}

proof fn lemma_bc_at_ok(s: StateModel, p: Seq<char>)
    requires
        rights_ok(s),
    ensures
        counter_ok(bc_at(s, p)),
        bc_at(s, p).grants.dom().subset_of(s.applied_payouts),
{
    lemma_empty_counter_ok();
    if !s.spending_rights.contains_key(p) {
        assert(bc_at(s, p).grants.dom() =~= Set::<Seq<char>>::empty());
    }
}

/// No accepted bet, transfer, payout or join takes rights below zero: applying to a
/// state in which no player's rights are negative on any replica (and every grant
/// is of an applied payout) an operation whose amounts fit in `i64`, without
/// overflow, leaves a state of which the same holds.
pub proof fn lemma_apply_keeps_rights(s: StateModel, op: OpModel)
    requires
        rights_ok(s),
        apply_ok(s, op),
        amounts_fit(op),
    ensures
        rights_ok(apply_op(s, op)),
{
    let s2 = apply_op(s, op);
    match op.kind {
        KindModel::JoinTable { player_id, starting_chips, initial_rights, .. } => {
            lemma_bc_at_ok(s, player_id);
            let c = bc_at(s, player_id);
            if initial_rights == Map::<Seq<char>, u64>::empty() {
                lemma_set_initial_keeps_ok(c, op.replica_id, starting_chips);
            } else {
                lemma_join_initial_keeps_ok(c, initial_rights);
            }
            assert forall|p: Seq<char>| #[trigger] s2.spending_rights.contains_key(p) implies counter_ok(
                s2.spending_rights[p],
            ) && s2.spending_rights[p].grants.dom().subset_of(s2.applied_payouts) by {
                if p != player_id {
                    assert(s.spending_rights.contains_key(p));
                }
            }
        },
        KindModel::PlaceBet { player_id, round_id, amount, origin_round_phase, .. } => {
            if orset_contains(s.players, player_id) && origin_round_phase == RoundPhase::BettingOpen
                && s.round_views.contains_key(round_id) {
                lemma_bc_at_ok(s, player_id);
                lemma_spend_keeps_ok(bc_at(s, player_id), op.op_id, op.replica_id, amount);
                assert forall|p: Seq<char>| #[trigger] s2.spending_rights.contains_key(p) implies counter_ok(
                    s2.spending_rights[p],
                ) && s2.spending_rights[p].grants.dom().subset_of(s2.applied_payouts) by {
                    if p != player_id {
                        assert(s.spending_rights.contains_key(p));
                    }
                }
            }
        },
        KindModel::ApplyPayout { payout_id, player_id, amount, .. } => {
            if !s.applied_payouts.contains(payout_id) {
                lemma_bc_at_ok(s, player_id);
                lemma_grant_keeps_ok(bc_at(s, player_id), payout_id, op.replica_id, amount);
                assert forall|p: Seq<char>| #[trigger] s2.spending_rights.contains_key(p) implies counter_ok(
                    s2.spending_rights[p],
                ) && s2.spending_rights[p].grants.dom().subset_of(s2.applied_payouts) by {
                    if p != player_id {
                        assert(s.spending_rights.contains_key(p));
                    }
                }
            }
        },
        KindModel::TransferSpendingRights { player_id, from_replica, to_replica, amount } => {
            lemma_bc_at_ok(s, player_id);
            lemma_transfer_keeps_ok(bc_at(s, player_id), op.op_id, from_replica, to_replica, amount);
            assert forall|p: Seq<char>| #[trigger] s2.spending_rights.contains_key(p) implies counter_ok(
                s2.spending_rights[p],
            ) && s2.spending_rights[p].grants.dom().subset_of(s2.applied_payouts) by {
                if p != player_id {
                    assert(s.spending_rights.contains_key(p));
                }
            }
        },
        _ => {
            assert(s2.spending_rights == s.spending_rights);
            assert(s2.applied_payouts == s.applied_payouts);
        },
    }
}

proof fn lemma_replay_keeps_rights(s: StateModel, ops: Seq<OpModel>)
    requires
        rights_ok(s),
        replay_ok(s, ops),
        forall|i: int| 0 <= i < ops.len() ==> amounts_fit(#[trigger] ops[i]),
    ensures
        rights_ok(replay(s, ops)),
    decreases ops.len(),
{
    if ops.len() > 0 {
        let rest = ops.drop_last();
        assert forall|i: int| 0 <= i < rest.len() implies amounts_fit(#[trigger] rest[i]) by {
            assert(rest[i] == ops[i]);
        }
        lemma_replay_keeps_rights(s, rest);
        assert(amounts_fit(ops[ops.len() - 1]));
        lemma_apply_keeps_rights(replay(s, rest), ops.last());
    }
}

/// Spending rights never go negative: in the state rebuilt, without overflow, from
/// operations whose amounts fit in `i64`, every player has rights of at least zero
/// on every replica, and so does every amount of rights left that can be read.
pub proof fn lemma_rights_never_negative(ops: Seq<OpModel>, player: Seq<char>, replica: Seq<char>)
    requires
        rebuild_ok(ops),
        forall|i: int| 0 <= i < ops.len() ==> amounts_fit(#[trigger] ops[i]),
    ensures
        rights_value(bc_at(rebuilt(ops), player), replica) >= 0,
        available_result(bc_at(rebuilt(ops), player), replica) matches Some(left) ==> left >= 0,
{
    lemma_rebuilt_rights_ok(ops);
    lemma_bc_at_ok(rebuilt(ops), player);
    lemma_available_is_value(bc_at(rebuilt(ops), player), replica);
}

/// Every state rebuilt without overflow from operations whose amounts fit in `i64`
/// has no negative rights, and every grant in it is of an applied payout.
pub proof fn lemma_rebuilt_rights_ok(ops: Seq<OpModel>)
    requires
        rebuild_ok(ops),
        forall|i: int| 0 <= i < ops.len() ==> amounts_fit(#[trigger] ops[i]),
    ensures
        rights_ok(rebuilt(ops)),
{
    broadcast use vstd::seq_lib::group_to_multiset_ensures;

    let sorted = sort_ops(ops);
    lemma_sort_props(ops);
    assert forall|i: int| 0 <= i < sorted.len() implies amounts_fit(#[trigger] sorted[i]) by {
        assert(sorted.contains(sorted[i]));
        assert(sorted.to_multiset().count(sorted[i]) > 0);
        assert(ops.contains(sorted[i]));
        let j = choose|j: int| 0 <= j < ops.len() && ops[j] == sorted[i];
        assert(amounts_fit(ops[j]));
    }
    assert(rights_ok(empty_state()));
    lemma_replay_keeps_rights(empty_state(), sorted);
}

/// Applying one more operation to a reachable state never makes rights negative:
/// where the state was rebuilt from operations whose amounts fit in `i64` and the
/// new operation's amounts fit too and it applies without overflow, every player
/// has rights of at least zero on every replica afterwards, and so does every
/// amount of rights left that can be read.
pub proof fn lemma_apply_never_makes_rights_negative(
    ops: Seq<OpModel>,
    op: OpModel,
    player: Seq<char>,
    replica: Seq<char>,
)
    requires
        rebuild_ok(ops),
        forall|i: int| 0 <= i < ops.len() ==> amounts_fit(#[trigger] ops[i]),
        amounts_fit(op),
        apply_ok(rebuilt(ops), op),
    ensures
        rights_value(bc_at(apply_op(rebuilt(ops), op), player), replica) >= 0,
        available_result(bc_at(apply_op(rebuilt(ops), op), player), replica) matches Some(left) ==> left >= 0,
{
    lemma_rebuilt_rights_ok(ops);
    lemma_apply_keeps_rights(rebuilt(ops), op);
    lemma_bc_at_ok(apply_op(rebuilt(ops), op), player);
    lemma_available_is_value(bc_at(apply_op(rebuilt(ops), op), player), replica);
}

/// A payout is paid in chips and in spending rights alike: applying a payout not
/// applied before raises the player's rights on the paying replica by exactly the
/// amount paid (so winnings can be bet again there), leaves their rights on every
/// other replica as they were, and raises that replica's chip count for the player
/// by the same amount. Amounts above `i64::MAX` are left out: rights read them as
/// negative.
pub proof fn lemma_payout_grants_rights(s: StateModel, op: OpModel, other: Seq<char>)
    requires
        rights_ok(s),
        op.kind is ApplyPayout,
        !s.applied_payouts.contains(op.kind->ApplyPayout_payout_id),
        amounts_fit(op),
        apply_ok(s, op),
        other != op.replica_id,
    ensures
        ({
            let p = op.kind->ApplyPayout_player_id;
            let n = op.kind->ApplyPayout_amount;
            let r = op.replica_id;
            let before = bc_at(s, p);
            let after = bc_at(apply_op(s, op), p);
            &&& rights_value(after, r) == rights_value(before, r) + n
            &&& rights_value(after, other) == rights_value(before, other)
            &&& (available_result(after, r) is Some && available_result(before, r) is Some) ==> available_result(
                after,
                r,
            )->0 == available_result(before, r)->0 + n
            &&& count_of(pn_at(apply_op(s, op), p).increments, r) == count_of(pn_at(s, p).increments, r) + n
        }),
{
    let pid = op.kind->ApplyPayout_payout_id;
    let p = op.kind->ApplyPayout_player_id;
    let n = op.kind->ApplyPayout_amount;
    let r = op.replica_id;
    lemma_bc_at_ok(s, p);
    let c = bc_at(s, p);
    assert(!c.grants.contains_key(pid));
    let e = crate::crdt::bounded_counter::EntryModel { replica_id: r, amount: n };
    assert(bc_at(apply_op(s, op), p) == bc_grant(c, pid, r, n));
    crate::crdt::bounded_counter::lemma_tally_sum_insert::<crate::crdt::bounded_counter::GrantEntry>(
        c.grants,
        pid,
        e,
        r,
        true,
    );
    crate::crdt::bounded_counter::lemma_tally_sum_insert::<crate::crdt::bounded_counter::GrantEntry>(
        c.grants,
        pid,
        e,
        other,
        true,
    );
    lemma_available_is_value(c, r);
    lemma_available_is_value(bc_grant(c, pid, r, n), r);
}

/// A bet on an open round by a player who has joined is accepted exactly when the
/// player's rights on the betting replica cover it. Accepted, it lowers those
/// rights by the stake, adds the stake to what that replica has taken from the
/// player's chips, and records the bet under the operation's id; refused, it
/// leaves rights, chips and bets as they were and records the refusal. Rights on
/// other replicas never change. Stakes above `i64::MAX` are left out.
pub proof fn lemma_bet_takes_chips_and_rights(s: StateModel, op: OpModel, other: Seq<char>)
    requires
        rights_ok(s),
        apply_ok(s, op),
        op.kind is PlaceBet,
        orset_contains(s.players, op.kind->PlaceBet_player_id),
        op.kind->PlaceBet_origin_round_phase == RoundPhase::BettingOpen,
        s.round_views.contains_key(op.kind->PlaceBet_round_id),
        !bc_at(s, op.kind->PlaceBet_player_id).spends.contains_key(op.op_id),
        op.kind->PlaceBet_amount <= i64::MAX,
        other != op.replica_id,
    ensures
        ({
            let p = op.kind->PlaceBet_player_id;
            let n = op.kind->PlaceBet_amount;
            let r = op.replica_id;
            let s2 = apply_op(s, op);
            let accepted = rights_value(bc_at(s, p), r) >= n;
            let bet = BetModel {
                id: op.kind->PlaceBet_bet_id,
                player_id: p,
                round_id: op.kind->PlaceBet_round_id,
                amount: n,
                kind: op.kind->PlaceBet_bet_kind,
                origin_replica: r,
                origin_lamport: op.lamport_time,
            };
            &&& rights_value(bc_at(s2, p), other) == rights_value(bc_at(s, p), other)
            &&& accepted ==> {
                &&& rights_value(bc_at(s2, p), r) == rights_value(bc_at(s, p), r) - n
                &&& count_of(pn_at(s2, p).decrements, r) == count_of(pn_at(s, p).decrements, r) + n
                &&& crate::crdt::or_set::tags_in(s2.bets.adds, bet).contains(op.op_id)
                &&& !s2.rejected_operations.contains_key(op.op_id) || s.rejected_operations.contains_key(op.op_id)
            }
            &&& !accepted ==> {
                &&& s2.spending_rights == s.spending_rights.insert(p, bc_at(s, p))
                &&& bc_at(s2, p) == bc_at(s, p)
                &&& s2.balances == s.balances
                &&& s2.bets == s.bets
                &&& s2.rejected_operations.contains_key(op.op_id)
            }
        }),
{
    let p = op.kind->PlaceBet_player_id;
    lemma_bc_at_ok(s, p);
    let c = bc_at(s, p);
    crate::crdt::bounded_counter::lemma_spend_moves_rights(
        c,
        op.op_id,
        op.replica_id,
        op.kind->PlaceBet_amount,
        other,
    );
}

} // verus!
