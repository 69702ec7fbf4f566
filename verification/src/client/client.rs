//! A replica's client: its Lamport clock, operation log, rebuilt state and the queue
//! of operations made while offline.
use vstd::prelude::*;
use vstd::string::*;
use crate::collections::{ordered, SortedMap};
use crate::crdt::bounded_counter::available_result;
use crate::crdt::or_set::{orset_contains, orset_elements};
use crate::domain::bet::{bet_multiplier, bet_wins, BetModel};
use crate::domain::state::{apply_ok, apply_op, bc_at, empty_state, lemma_rebuild_push_later, pn_at, rebuild_ok, rebuilt, StateModel};
use crate::crdt::pn_counter::count_of;
use crate::crdt::bounded_counter::bc_spend_defined;
use crate::domain::{Bet, BetKind, BetSyncState, RoundPhase};
use crate::crdt::BoundedCounter;
use crate::sync::operation::{is_fresh_op_id, random_simple_uuid, KindModel, OpModel};
use crate::sync::operation_log::{log_insert_all, models, op_ids, sort_ops};
use crate::sync::{LamportClock, Operation, OperationKind, OperationLog};
use crate::text::{decimal, push_decimal, push_signed_decimal, signed_decimal, Duplicate};

verus! {

#[derive(Debug, Clone)]
pub struct LocalClient {
    pub replica_id: String,
    pub clock: LamportClock,
    pub log: OperationLog,
    pub state: BetSyncState,
    pub unsynced_operations: Vec<Operation>,
    pub online: bool,
}

/// Recording `kinds` one after another from `state` at Lamport time `clock` does
/// not overflow, whatever ids the new operations get: the clock can advance, and
/// each operation can be applied (or is dropped, where its random id is taken).
pub open spec fn kinds_ok(state: StateModel, replica: Seq<char>, clock: u64, kinds: Seq<KindModel>) -> bool
    decreases kinds.len(),
{
    if kinds.len() == 0 {
        true
    } else {
        &&& clock < u64::MAX
        &&& forall|op: OpModel|
            op.replica_id == replica && op.lamport_time == clock + 1 && op.kind == kinds[0] ==> {
                &&& #[trigger] apply_ok(state, op)
                &&& kinds_ok(apply_op(state, op), replica, (clock + 1) as u64, kinds.drop_first())
                &&& kinds_ok(state, replica, (clock + 1) as u64, kinds.drop_first())
            }
    }
}

/// `b` is `a` after recording `ops` in order: each was made by `a`'s replica at the
/// next Lamport time with a fresh-format id, entered the log unless its id was
/// there, and was queued too where the client is offline.
pub open spec fn recorded_all(a: LocalClient, b: LocalClient, ops: Seq<OpModel>) -> bool {
    &&& forall|k: int|
        0 <= k < ops.len() ==> (#[trigger] ops[k]).replica_id == a.replica_id@ && ops[k].lamport_time
            == a.clock@ + 1 + k && is_fresh_op_id(ops[k].op_id, ops[k].replica_id, ops[k].lamport_time)
    &&& b.replica_id == a.replica_id
    &&& b.clock@ == a.clock@ + ops.len()
    &&& b.log@ == log_insert_all(a.log@, ops).0
    &&& b.connected() == a.connected()
    &&& b.unsynced() == if a.connected() {
        a.unsynced()
    } else {
        log_insert_all(a.unsynced(), ops).0
    }
}

/// The largest Lamport time among `ops` and `t`.
pub open spec fn latest_time(t: u64, ops: Seq<OpModel>) -> u64
    decreases ops.len(),
{
    if ops.len() == 0 {
        t
    } else {
        let prev = latest_time(t, ops.drop_last());
        if prev >= ops.last().lamport_time {
            prev
        } else {
            ops.last().lamport_time
        }
    }
}

/// Ingesting `ops` one by one into a log that holds `log` does not overflow: each
/// operation that is new to the log can be rebuilt with.
pub open spec fn ingest_ok(log: Seq<OpModel>, ops: Seq<OpModel>) -> bool {
    forall|i: int|
        0 <= i < ops.len() ==> {
            let l = #[trigger] log_insert_all(log, ops.take(i)).0;
            !op_ids(l).contains(ops[i].op_id) ==> rebuild_ok(l.push(ops[i]))
        }
}

/// The bets of `round_id` that win on `dice`, in bet order.
pub open spec fn winning_bets(bets: Seq<BetModel>, round_id: Seq<char>, dice: u8) -> Seq<BetModel>
    decreases bets.len(),
{
    if bets.len() == 0 {
        bets
    } else {
        let rest = winning_bets(bets.drop_last(), round_id, dice);
        if bets.last().round_id == round_id && bet_wins(bets.last().kind, dice) {
            rest.push(bets.last())
        } else {
            rest
        }
    }
}

/// The id of the payout of `bet` in `round_id`: `payout:ROUND:BET`.
pub open spec fn payout_id(round_id: Seq<char>, bet: BetModel) -> Seq<char> {
    seq!['p', 'a', 'y', 'o', 'u', 't', ':'] + round_id + seq![':'] + bet.id
}

/// The payout operation for a winning bet.
pub open spec fn payout_kind(round_id: Seq<char>, bet: BetModel) -> KindModel {
    KindModel::ApplyPayout {
        payout_id: payout_id(round_id, bet),
        player_id: bet.player_id,
        round_id,
        amount: (bet.amount * bet_multiplier(bet.kind)) as u64,
    }
}

/// What resolving a round records: the resolution, then one payout per winning bet.
pub open spec fn resolve_kinds(round_id: Seq<char>, dice: u8, winners: Seq<BetModel>) -> Seq<KindModel> {
    seq![KindModel::ResolveRound { round_id, dice }] + winners.map_values(|b: BetModel| payout_kind(round_id, b))
}

pub open spec fn msg_not_joined(player_id: Seq<char>) -> Seq<char> {
    "player "@ + player_id + " has not joined"@
}

pub open spec fn msg_no_round(round_id: Seq<char>) -> Seq<char> {
    "round "@ + round_id + " does not exist"@
}

pub open spec fn msg_not_open_for_betting(round_id: Seq<char>) -> Seq<char> {
    "round "@ + round_id + " is not open for betting"@
}

pub open spec fn msg_not_open(round_id: Seq<char>) -> Seq<char> {
    "round "@ + round_id + " is not open"@
}

pub open spec fn msg_not_closed(round_id: Seq<char>) -> Seq<char> {
    "round "@ + round_id + " is not closed"@
}

pub open spec fn msg_bad_dice() -> Seq<char> {
    "dice result must be 1 through 6"@
}

pub open spec fn msg_insufficient(replica_id: Seq<char>, have: int, need: u64) -> Seq<char> {
    "insufficient spending rights on replica "@ + replica_id + ": have "@ + signed_decimal(have) + ", need "@
        + decimal(need as nat)
}

/// The rights `player_id` has on `replica_id` in `state`, as `available_rights`
/// reports them.
pub open spec fn rights_in(state: StateModel, player_id: Seq<char>, replica_id: Seq<char>) -> int {
    if state.spending_rights.contains_key(player_id) {
        available_result(state.spending_rights[player_id], replica_id)->0
    } else {
        0
    }
}

pub open spec fn rights_defined(state: StateModel, player_id: Seq<char>, replica_id: Seq<char>) -> bool {
    state.spending_rights.contains_key(player_id) ==> available_result(
        state.spending_rights[player_id],
        replica_id,
    ) is Some
}

/// The chips a payout pays (nothing for any other kind).
pub open spec fn payout_amount(kind: KindModel) -> int {
    match kind {
        KindModel::ApplyPayout { amount, .. } => amount as int,
        _ => 0,
    }
}

/// The chips that `kinds` pay out in all.
pub open spec fn payout_total(kinds: Seq<KindModel>) -> int
    decreases kinds.len(),
{
    if kinds.len() == 0 {
        0
    } else {
        payout_total(kinds.drop_last()) + payout_amount(kinds.last())
    }
}

/// `kind` is a resolution, or a payout to a player whose total on `replica` can take
/// `budget` more chips.
pub open spec fn room_for(s: StateModel, replica: Seq<char>, kind: KindModel, budget: int) -> bool {
    match kind {
        KindModel::ResolveRound { .. } => true,
        KindModel::ApplyPayout { player_id, .. } => count_of(pn_at(s, player_id).increments, replica) + budget
            <= u64::MAX,
        _ => false,
    }
}

/// Room to record `kinds`, resolutions and payouts coming to at most `budget`
/// chips: the clock can advance once for each, and every paid player's total on
/// `replica` can take the whole budget.
pub open spec fn payout_room(s: StateModel, replica: Seq<char>, clock: u64, kinds: Seq<KindModel>, budget: int) -> bool {
    &&& clock + kinds.len() <= u64::MAX
    &&& payout_total(kinds) <= budget
    &&& forall|k: int| 0 <= k < kinds.len() ==> room_for(s, replica, #[trigger] kinds[k], budget)
}

proof fn lemma_payout_total_nonneg(kinds: Seq<KindModel>)
    ensures
        payout_total(kinds) >= 0,
    decreases kinds.len(),
{
    if kinds.len() > 0 {
        lemma_payout_total_nonneg(kinds.drop_last());
    }
}

proof fn lemma_payout_total_split(kinds: Seq<KindModel>)
    requires
        kinds.len() > 0,
    ensures
        payout_total(kinds) == payout_amount(kinds[0]) + payout_total(kinds.drop_first()),
    decreases kinds.len(),
{
    if kinds.len() > 1 {
        lemma_payout_total_split(kinds.drop_last());
        assert(kinds.drop_last().drop_first() =~= kinds.drop_first().drop_last());
        assert(kinds.drop_first().last() == kinds.last());
        assert(kinds.drop_last()[0] == kinds[0]);
    } else {
        assert(kinds.drop_last() =~= Seq::<KindModel>::empty());
        assert(kinds.drop_first() =~= Seq::<KindModel>::empty());
    }
}

/// Recording a resolution or a payout adds at most the payout to any player's total
/// on the recording replica.
proof fn lemma_payout_step(s: StateModel, op: OpModel, p: Seq<char>)
    requires
        apply_ok(s, op),
        op.kind is ResolveRound || op.kind is ApplyPayout,
    ensures
        count_of(pn_at(apply_op(s, op), p).increments, op.replica_id) <= count_of(
            pn_at(s, p).increments,
            op.replica_id,
        ) + payout_amount(op.kind),
{
}

/// Room for resolutions and payouts makes them recordable.
proof fn lemma_payout_room(s: StateModel, replica: Seq<char>, clock: u64, kinds: Seq<KindModel>, budget: int)
    requires
        payout_room(s, replica, clock, kinds, budget),
    ensures
        kinds_ok(s, replica, clock, kinds),
    decreases kinds.len(),
{
    if kinds.len() > 0 {
        let rest = kinds.drop_first();
        lemma_payout_total_split(kinds);
        lemma_payout_total_nonneg(rest);
        let amount = payout_amount(kinds[0]);
        assert(room_for(s, replica, kinds[0], budget));
        assert forall|op: OpModel|
            op.replica_id == replica && op.lamport_time == clock + 1 && op.kind == kinds[0] implies {
            &&& #[trigger] apply_ok(s, op)
            &&& kinds_ok(apply_op(s, op), replica, (clock + 1) as u64, rest)
            &&& kinds_ok(s, replica, (clock + 1) as u64, rest)
        } by {
            assert(apply_ok(s, op));
            assert forall|k: int| 0 <= k < rest.len() implies room_for(s, replica, #[trigger] rest[k], budget) by {
                assert(rest[k] == kinds[k + 1]);
                assert(room_for(s, replica, kinds[k + 1], budget));
            }
            lemma_payout_room(s, replica, (clock + 1) as u64, rest, budget);
            let s2 = apply_op(s, op);
            assert forall|k: int| 0 <= k < rest.len() implies room_for(s2, replica, #[trigger] rest[k], budget - amount) by {
                assert(rest[k] == kinds[k + 1]);
                assert(room_for(s, replica, kinds[k + 1], budget));
                if let KindModel::ApplyPayout { player_id, .. } = rest[k] {
                    lemma_payout_step(s, op, player_id);
                }
            }
            lemma_payout_room(s2, replica, (clock + 1) as u64, rest, budget - amount);
        }
    }
}

pub(crate) proof fn lemma_insert_all_one(log: Seq<OpModel>, op: OpModel)
    ensures
        log_insert_all(log, seq![op]).0 == if op_ids(log).contains(op.op_id) {
            log
        } else {
            log.push(op)
        },
{
    reveal_with_fuel(log_insert_all, 2);
    assert(seq![op].drop_last() =~= Seq::<OpModel>::empty());
    assert(seq![op].last() == op);
}

proof fn lemma_latest_one(t: u64, op: OpModel)
    ensures
        latest_time(t, seq![op]) == if t >= op.lamport_time { t } else { op.lamport_time },
{
    reveal_with_fuel(latest_time, 2);
    assert(seq![op].drop_last() =~= Seq::<OpModel>::empty());
    assert(seq![op].last() == op);
}

/// Where every operation of `kind` can be applied, one operation of it can be recorded.
pub(crate) proof fn lemma_kinds_ok_one(state: StateModel, replica: Seq<char>, clock: u64, kind: KindModel)
    requires
        clock < u64::MAX,
        forall|op: OpModel|
            op.replica_id == replica && op.lamport_time == clock + 1 && op.kind == kind ==> #[trigger] apply_ok(
                state,
                op,
            ),
    ensures
        kinds_ok(state, replica, clock, seq![kind]),
{
    reveal_with_fuel(kinds_ok, 2);
    assert(seq![kind].drop_first() =~= Seq::<KindModel>::empty());
    assert(seq![kind][0] == kind);
}

pub(crate) proof fn lemma_insert_all_push(log: Seq<OpModel>, ops: Seq<OpModel>, op: OpModel)
    ensures
        log_insert_all(log, ops.push(op)).0 == log_insert_all(log_insert_all(log, ops).0, seq![op]).0,
{
    assert(ops.push(op).drop_last() =~= ops);
    lemma_insert_all_one(log_insert_all(log, ops).0, op);
}

impl LocalClient {
    /// The operations queued while offline.
    pub open spec fn unsynced(&self) -> Seq<OpModel> {
        models(self.unsynced_operations@)
    }

    /// Whether the client is online.
    pub open spec fn connected(&self) -> bool {
        self.online
    }

    pub open spec fn queue_valid(&self) -> bool {
        forall|i: int| 0 <= i < self.unsynced_operations@.len() ==> (#[trigger] self.unsynced_operations@[i]).wf()
    }

    /// The log is well formed and never overflows on rebuilding, the state is the one
    /// rebuilt from it, and the clock is at least every logged Lamport time.
    pub open spec fn wf(&self) -> bool {
        &&& self.log.wf()
        &&& self.state.wf()
        &&& rebuild_ok(self.log@)
        &&& self.state@ == rebuilt(self.log@)
        &&& forall|i: int| 0 <= i < self.log@.len() ==> (#[trigger] self.log@[i]).lamport_time <= self.clock@
        &&& self.queue_valid()
    }

    /// Recording `kind` now does not overflow.
    pub open spec fn can_record(&self, kind: KindModel) -> bool {
        kinds_ok(self.state@, self.replica_id@, self.clock@, seq![kind])
    }

    pub fn new(replica_id: &str) -> (r: Self)
        ensures
            r.wf(),
            r.replica_id@ == replica_id@,
            r.clock@ == 0,
            r.log@ == Seq::<OpModel>::empty(),
            r.state@ == empty_state(),
            r.connected(),
            r.unsynced() == Seq::<OpModel>::empty(),
    {
        let r = LocalClient {
            replica_id: replica_id.to_owned(),
            clock: LamportClock::new(),
            log: OperationLog::default(),
            state: BetSyncState::default(),
            unsynced_operations: Vec::new(),
            online: true,
        };
        assert(sort_ops(Seq::<OpModel>::empty()) =~= Seq::<OpModel>::empty());
        assert(r.unsynced() =~= Seq::<OpModel>::empty());
        r
    }

    pub fn set_online(&mut self, online: bool)
        requires
            old(self).wf(),
        ensures
            final(self).wf(),
            final(self).connected() == online,
            *final(self) == (LocalClient { online, ..*old(self) }),
            final(self).unsynced() == old(self).unsynced(),
    {
        self.online = online;
    }

    pub fn is_online(&self) -> (r: bool)
        ensures
            r == self.connected(),
    {
        self.online
    }

    /// Queues `operation` for sending unless an operation with its id is queued.
    pub fn queue_unsynced(&mut self, operation: Operation)
        requires
            old(self).wf(),
            operation.wf(),
        ensures
            final(self).wf(),
            final(self).unsynced() == log_insert_all(old(self).unsynced(), seq![operation.deep_view()]).0,
            final(self).replica_id == old(self).replica_id,
            final(self).clock == old(self).clock,
            final(self).log == old(self).log,
            final(self).state == old(self).state,
            final(self).connected() == old(self).connected(),
    {
        proof {
            lemma_insert_all_one(self.unsynced(), operation.deep_view());
        }
        if self.queued(operation.op_id.as_str()) {
            return;
        }
        let ghost before = self.unsynced();
        self.unsynced_operations.push(operation);
        assert(self.unsynced() =~= before.push(operation.deep_view()));
    }

    /// Whether an operation with this id is queued.
    fn queued(&self, op_id: &str) -> (r: bool)
        ensures
            r == op_ids(self.unsynced()).contains(op_id@),
    {
        let n = self.unsynced_operations.len();
        for i in 0..n
            invariant
                n == self.unsynced_operations@.len(),
                forall|j: int| 0 <= j < i ==> (#[trigger] self.unsynced_operations@[j]).op_id@ != op_id@,
        {
            if crate::text::compare_text(self.unsynced_operations[i].op_id.as_str(), op_id)
                == crate::text::KeyOrder::Equal {
                proof {
                    crate::text::lemma_text_lt_irreflexive(op_id@);
                }
                assert(op_ids(self.unsynced())[i as int] == op_id@);
                return true;
            }
            proof {
                crate::text::lemma_text_lt_irreflexive(op_id@);
            }
        }
        assert(!op_ids(self.unsynced()).contains(op_id@)) by {
            if op_ids(self.unsynced()).contains(op_id@) {
                let j = choose|j: int| 0 <= j < op_ids(self.unsynced()).len() && op_ids(self.unsynced())[j] == op_id@;
                assert(self.unsynced_operations@[j].op_id@ == op_id@);
            }
        }
        false
    }

    /// Hands over the queued operations and empties the queue.
    pub fn take_unsynced(&mut self) -> (r: Vec<Operation>)
        requires
            old(self).wf(),
        ensures
            final(self).wf(),
            models(r@) == old(self).unsynced(),
            final(self).unsynced() == Seq::<OpModel>::empty(),
            final(self).replica_id == old(self).replica_id,
            final(self).clock == old(self).clock,
            final(self).log == old(self).log,
            final(self).state == old(self).state,
            final(self).connected() == old(self).connected(),
    {
        let mut taken: Vec<Operation> = Vec::new();
        std::mem::swap(&mut taken, &mut self.unsynced_operations);
        assert(self.unsynced() =~= Seq::<OpModel>::empty());
        taken
    }

    fn rebuild_state(&mut self)
        requires
            old(self).log.wf(),
            rebuild_ok(old(self).log@),
        ensures
            final(self).state.wf(),
            final(self).state@ == rebuilt(old(self).log@),
            final(self).replica_id == old(self).replica_id,
            final(self).clock == old(self).clock,
            final(self).log == old(self).log,
            final(self).unsynced_operations == old(self).unsynced_operations,
            final(self).online == old(self).online,
    {
        self.state = BetSyncState::from_operations(self.log.operations.as_slice());
    }

    /// Takes in an operation from elsewhere: the clock catches up with it, and an
    /// operation new to the log enters it and the state is rebuilt.
    pub fn ingest(&mut self, operation: Operation) -> (inserted: bool)
        requires
            old(self).wf(),
            operation.wf(),
            !op_ids(old(self).log@).contains(operation.deep_view().op_id) ==> rebuild_ok(
                old(self).log@.push(operation.deep_view()),
            ),
        ensures
            final(self).wf(),
            inserted == !op_ids(old(self).log@).contains(operation.deep_view().op_id),
            final(self).log@ == log_insert_all(old(self).log@, seq![operation.deep_view()]).0,
            !inserted ==> final(self).log@ == old(self).log@ && final(self).state@ == old(self).state@,
            final(self).clock@ == latest_time(old(self).clock@, seq![operation.deep_view()]),
            final(self).replica_id == old(self).replica_id,
            final(self).connected() == old(self).connected(),
            final(self).unsynced() == old(self).unsynced(),
    {
        proof {
            lemma_insert_all_one(self.log@, operation.deep_view());
            lemma_latest_one(self.clock@, operation.deep_view());
        }
        self.clock.observe(operation.lamport_time);
        let inserted = self.log.insert(operation);
        if inserted {
            self.rebuild_state();
        }
        inserted
    }

    /// Ingests each of `operations` in turn; the number that were new.
    pub fn ingest_many(&mut self, operations: Vec<Operation>) -> (count: usize)
        requires
            old(self).wf(),
            forall|i: int| 0 <= i < operations@.len() ==> (#[trigger] operations@[i]).wf(),
            ingest_ok(old(self).log@, models(operations@)),
        ensures
            final(self).wf(),
            (final(self).log@, count as nat) == log_insert_all(old(self).log@, models(operations@)),
            final(self).clock@ == latest_time(old(self).clock@, models(operations@)),
            final(self).replica_id == old(self).replica_id,
            final(self).connected() == old(self).connected(),
            final(self).unsynced() == old(self).unsynced(),
    {
        let ghost ops = models(operations@);
        let ghost log0 = self.log@;
        let mut count: usize = 0;
        let n = operations.len();
        assert(ops.take(0) =~= Seq::<OpModel>::empty());
        for i in 0..n
            invariant
                n == operations@.len(),
                ops == models(operations@),
                forall|k: int| 0 <= k < operations@.len() ==> (#[trigger] operations@[k]).wf(),
                ingest_ok(log0, ops),
                self.wf(),
                count <= i,
                (self.log@, count as nat) == log_insert_all(log0, ops.take(i as int)),
                self.clock@ == latest_time(old(self).clock@, ops.take(i as int)),
                self.replica_id == old(self).replica_id,
                self.connected() == old(self).connected(),
                self.unsynced() == old(self).unsynced(),
        {
            let ghost l = self.log@;
            let ghost c = self.clock@;
            proof {
                assert(ops.take(i + 1).drop_last() =~= ops.take(i as int));
                assert(ops.take(i + 1).last() == ops[i as int]);
                assert(log_insert_all(log0, ops.take(i as int)).0 == l);
                assert(!op_ids(l).contains(ops[i as int].op_id) ==> rebuild_ok(l.push(ops[i as int])));
                lemma_insert_all_one(l, ops[i as int]);
                lemma_latest_one(c, ops[i as int]);
            }
            if self.ingest(operations[i].duplicate()) {
                count = count + 1;
            }
        }
        assert(ops.take(n as int) =~= ops);
        count
    }

    /// Ingests every operation of `other`'s log.
    pub fn merge_from(&mut self, other: &LocalClient) -> (count: usize)
        requires
            old(self).wf(),
            other.wf(),
            ingest_ok(old(self).log@, other.log@),
        ensures
            final(self).wf(),
            (final(self).log@, count as nat) == log_insert_all(old(self).log@, other.log@),
            final(self).clock@ == latest_time(old(self).clock@, other.log@),
            final(self).replica_id == old(self).replica_id,
            final(self).connected() == old(self).connected(),
            final(self).unsynced() == old(self).unsynced(),
    {
        let operations = copy_operations(&other.log.operations);
        self.ingest_many(operations)
    }

    /// Makes a new operation at the next Lamport time, logs and applies it, and
    /// queues it where the client is offline.
    fn record(&mut self, kind: OperationKind) -> (operation: Operation)
        requires
            old(self).wf(),
            kind.valid(),
            old(self).can_record(kind.deep_view()),
        ensures
            final(self).wf(),
            operation.wf(),
            operation.deep_view().kind == kind.deep_view(),
            recorded_all(*old(self), *final(self), seq![operation.deep_view()]),
            final(self).state@ == if op_ids(old(self).log@).contains(operation.deep_view().op_id) {
                old(self).state@
            } else {
                apply_op(old(self).state@, operation.deep_view())
            },
    {
        let t = self.clock.tick();
        let operation = Operation::new(self.replica_id.as_str(), t, kind);
        let ghost op = operation.deep_view();
        let ghost log0 = self.log@;
        proof {
            assert(seq![kind.deep_view()][0] == kind.deep_view());
            assert(apply_ok(old(self).state@, op));
            lemma_rebuild_push_later(log0, op);
            lemma_insert_all_one(log0, op);
            lemma_insert_all_one(self.unsynced(), op);
        }
        let inserted = self.log.insert(operation.duplicate());
        self.rebuild_state();
        if !self.online {
            self.queue_unsynced(operation.duplicate());
        }
        proof {
            assert(seq![op][0] == op);
        }
        operation
    }

    /// Records an operation of any kind.
    pub fn record_operation_kind(&mut self, kind: OperationKind) -> (operation: Operation)
        requires
            old(self).wf(),
            kind.valid(),
            old(self).can_record(kind.deep_view()),
        ensures
            final(self).wf(),
            operation.deep_view().kind == kind.deep_view(),
            recorded_all(*old(self), *final(self), seq![operation.deep_view()]),
    {
        self.record(kind)
    }

    /// Records naming the table (the table id is always `main`).
    pub fn create_table(&mut self, name: &str) -> (operation: Operation)
        requires
            old(self).wf(),
            old(self).clock@ < u64::MAX,
        ensures
            final(self).wf(),
            operation.deep_view().kind == (KindModel::CreateTable { table_id: "main"@, name: name@ }),
            recorded_all(*old(self), *final(self), seq![operation.deep_view()]),
    {
        let kind = OperationKind::CreateTable { table_id: String::from_str("main"), name: name.to_owned() };
        proof {
            lemma_kinds_ok_one(old(self).state@, old(self).replica_id@, old(self).clock@, kind.deep_view());
        }
        self.record(kind)
    }

    /// Records a player joining with all its starting chips as rights of this replica.
    pub fn join_table(&mut self, player_id: &str, display_name: &str, starting_chips: u64) -> (operation:
        Operation)
        requires
            old(self).wf(),
            old(self).can_record(
                KindModel::JoinTable {
                    table_id: "main"@,
                    player_id: player_id@,
                    display_name: display_name@,
                    starting_chips,
                    initial_rights: map![old(self).replica_id@ => starting_chips],
                },
            ),
        ensures
            final(self).wf(),
            operation.deep_view().kind == (KindModel::JoinTable {
                table_id: "main"@,
                player_id: player_id@,
                display_name: display_name@,
                starting_chips,
                initial_rights: map![old(self).replica_id@ => starting_chips],
            }),
            recorded_all(*old(self), *final(self), seq![operation.deep_view()]),
    {
        let mut initial_rights: SortedMap<String, u64> = SortedMap::new();
        initial_rights.insert(self.replica_id.clone(), starting_chips);
        assert(initial_rights@ =~= map![old(self).replica_id@ => starting_chips]);
        self.join_table_with_rights(player_id, display_name, starting_chips, initial_rights)
    }

    /// Records a player joining, with their starting rights split between replicas.
    pub fn join_table_with_rights(
        &mut self,
        player_id: &str,
        display_name: &str,
        starting_chips: u64,
        initial_rights: SortedMap<String, u64>,
    ) -> (operation: Operation)
        requires
            old(self).wf(),
            initial_rights.wf(),
            old(self).can_record(
                KindModel::JoinTable {
                    table_id: "main"@,
                    player_id: player_id@,
                    display_name: display_name@,
                    starting_chips,
                    initial_rights: initial_rights@,
                },
            ),
        ensures
            final(self).wf(),
            operation.deep_view().kind == (KindModel::JoinTable {
                table_id: "main"@,
                player_id: player_id@,
                display_name: display_name@,
                starting_chips,
                initial_rights: initial_rights@,
            }),
            recorded_all(*old(self), *final(self), seq![operation.deep_view()]),
    {
        let kind = OperationKind::JoinTable {
            table_id: String::from_str("main"),
            player_id: player_id.to_owned(),
            display_name: display_name.to_owned(),
            starting_chips,
            initial_rights,
        };
        self.record(kind)
    }

    pub fn leave_table(&mut self, player_id: &str) -> (operation: Operation)
        requires
            old(self).wf(),
            old(self).clock@ < u64::MAX,
        ensures
            final(self).wf(),
            operation.deep_view().kind == (KindModel::LeaveTable { table_id: "main"@, player_id: player_id@ }),
            recorded_all(*old(self), *final(self), seq![operation.deep_view()]),
    {
        let kind = OperationKind::LeaveTable { table_id: String::from_str("main"), player_id: player_id.to_owned() };
        proof {
            lemma_kinds_ok_one(old(self).state@, old(self).replica_id@, old(self).clock@, kind.deep_view());
        }
        self.record(kind)
    }

    pub fn create_round(&mut self, round_id: &str, dealer_id: &str) -> (operation: Operation)
        requires
            old(self).wf(),
            old(self).clock@ < u64::MAX,
        ensures
            final(self).wf(),
            operation.deep_view().kind == (KindModel::CreateRound { round_id: round_id@, dealer_id: dealer_id@ }),
            recorded_all(*old(self), *final(self), seq![operation.deep_view()]),
    {
        let kind = OperationKind::CreateRound { round_id: round_id.to_owned(), dealer_id: dealer_id.to_owned() };
        proof {
            lemma_kinds_ok_one(old(self).state@, old(self).replica_id@, old(self).clock@, kind.deep_view());
        }
        self.record(kind)
    }

    pub fn open_betting(&mut self, round_id: &str) -> (operation: Operation)
        requires
            old(self).wf(),
            old(self).clock@ < u64::MAX,
        ensures
            final(self).wf(),
            operation.deep_view().kind == (KindModel::OpenBetting { round_id: round_id@ }),
            recorded_all(*old(self), *final(self), seq![operation.deep_view()]),
    {
        let kind = OperationKind::OpenBetting { round_id: round_id.to_owned() };
        proof {
            lemma_kinds_ok_one(old(self).state@, old(self).replica_id@, old(self).clock@, kind.deep_view());
        }
        self.record(kind)
    }

    /// Records creating a round and opening its betting.
    pub fn start_round(&mut self, round_id: &str, dealer_id: &str) -> (operations: Vec<Operation>)
        requires
            old(self).wf(),
            old(self).clock@ < u64::MAX - 1,
        ensures
            final(self).wf(),
            operations@.len() == 2,
            operations@[0].deep_view().kind == (KindModel::CreateRound { round_id: round_id@, dealer_id: dealer_id@ }),
            operations@[1].deep_view().kind == (KindModel::OpenBetting { round_id: round_id@ }),
            recorded_all(*old(self), *final(self), models(operations@)),
    {
        let ghost c0 = *self;
        let first = self.create_round(round_id, dealer_id);
        let ghost c1 = *self;
        let second = self.open_betting(round_id);
        let operations = vec![first, second];
        proof {
            assert(models(operations@) =~= seq![first.deep_view()].push(second.deep_view()));
            lemma_insert_all_push(c0.log@, seq![first.deep_view()], second.deep_view());
            lemma_insert_all_push(c0.unsynced(), seq![first.deep_view()], second.deep_view());
            assert(seq![first.deep_view()][0] == first.deep_view());
            assert(seq![second.deep_view()][0] == second.deep_view());
            assert(models(operations@)[0] == first.deep_view());
            assert(models(operations@)[1] == second.deep_view());
        }
        operations
    }

    /// Closes betting on a round that is open for betting.
    pub fn close_betting(&mut self, round_id: &str) -> (r: Result<Operation, String>)
        requires
            old(self).wf(),
            old(self).state@.round_views.contains_key(round_id@) && old(self).state@.round_views[round_id@].phase
                == RoundPhase::BettingOpen ==> old(self).clock@ < u64::MAX,
        ensures
            final(self).wf(),
            match r {
                Ok(operation) => old(self).state@.round_views.contains_key(round_id@)
                    && old(self).state@.round_views[round_id@].phase == RoundPhase::BettingOpen
                    && operation.deep_view().kind == (KindModel::CloseBetting { round_id: round_id@ })
                    && recorded_all(*old(self), *final(self), seq![operation.deep_view()]),
                Err(e) => !(old(self).state@.round_views.contains_key(round_id@)
                    && old(self).state@.round_views[round_id@].phase == RoundPhase::BettingOpen)
                    && e@ == msg_not_open(round_id@) && *final(self) == *old(self),
            },
    {
        if self.state.round_phase(round_id) != Some(RoundPhase::BettingOpen) {
            proof {
                reveal_strlit("round ");
                reveal_strlit(" is not open");
            }
            let mut message = String::from_str("round ");
            message.append(round_id);
            message.append(" is not open");
            return Err(message);
        }
        let kind = OperationKind::CloseBetting { round_id: round_id.to_owned() };
        proof {
            lemma_kinds_ok_one(old(self).state@, old(self).replica_id@, old(self).clock@, kind.deep_view());
        }
        Ok(self.record(kind))
    }

    /// Builds `insufficient spending rights on replica R: have H, need N`.
    fn insufficient_message(&self, have: i64, need: u64) -> (m: String)
        ensures
            m@ == msg_insufficient(self.replica_id@, have as int, need),
    {
        proof {
            reveal_strlit("insufficient spending rights on replica ");
            reveal_strlit(": have ");
            reveal_strlit(", need ");
        }
        let mut message = String::from_str("insufficient spending rights on replica ");
        message.append(self.replica_id.as_str());
        message.append(": have ");
        push_signed_decimal(&mut message, have);
        message.append(", need ");
        push_decimal(&mut message, need);
        assert(message@ =~= msg_insufficient(self.replica_id@, have as int, need));
        message
    }

    /// Why a bet would be refused here, or `None` where it is allowed: the player has
    /// not joined, the round does not exist or is not open for betting, or this
    /// replica lacks the rights.
    pub open spec fn bet_refusal(&self, player_id: Seq<char>, round_id: Seq<char>, amount: u64) -> Option<Seq<char>> {
        let s = self.state@;
        if !orset_contains(s.players, player_id) {
            Some(msg_not_joined(player_id))
        } else if !s.round_views.contains_key(round_id) {
            Some(msg_no_round(round_id))
        } else if s.round_views[round_id].phase != RoundPhase::BettingOpen {
            Some(msg_not_open_for_betting(round_id))
        } else if rights_in(s, player_id, self.replica_id@) < amount as i64 {
            Some(msg_insufficient(self.replica_id@, rights_in(s, player_id, self.replica_id@), amount))
        } else {
            None
        }
    }

    /// The kind of operation a bet records, with id `bet_id`.
    pub open spec fn bet_kind_model(
        bet_id: Seq<char>,
        player_id: Seq<char>,
        round_id: Seq<char>,
        amount: u64,
        bet_kind: BetKind,
    ) -> KindModel {
        KindModel::PlaceBet {
            bet_id,
            player_id,
            round_id,
            amount,
            bet_kind,
            origin_round_phase: RoundPhase::BettingOpen,
        }
    }

    /// Places a bet from this replica: refused, with a message, unless the player has
    /// joined, the round is open for betting here and this replica holds the rights;
    /// otherwise records it under a fresh `bet-UUID` id.
    pub fn place_bet(&mut self, player_id: &str, round_id: &str, amount: u64, bet_kind: BetKind) -> (r: Result<
        Operation,
        String,
    >)
        requires
            old(self).wf(),
            orset_contains(old(self).state@.players, player_id@) && old(self).state@.round_views.contains_key(
                round_id@,
            ) && old(self).state@.round_views[round_id@].phase == RoundPhase::BettingOpen ==> rights_defined(
                old(self).state@,
                player_id@,
                old(self).replica_id@,
            ),
            old(self).bet_refusal(player_id@, round_id@, amount) is None ==> forall|bet_id: Seq<char>|
                #[trigger] old(self).can_record(
                    Self::bet_kind_model(bet_id, player_id@, round_id@, amount, bet_kind),
                ),
        ensures
            final(self).wf(),
            r is Ok == old(self).bet_refusal(player_id@, round_id@, amount) is None,
            match r {
                Ok(operation) => recorded_all(*old(self), *final(self), seq![operation.deep_view()])
                    && exists|u: Seq<char>|
                    crate::sync::operation::is_simple_uuid(u) && operation.deep_view().kind
                        == #[trigger] Self::bet_kind_model(
                        "bet-"@ + u,
                        player_id@,
                        round_id@,
                        amount,
                        bet_kind,
                    ),
                Err(e) => e@ == old(self).bet_refusal(player_id@, round_id@, amount)->0 && *final(self)
                    == *old(self),
            },
            r matches Ok(operation) ==> (old(self).state@.spending_rights.contains_key(player_id@) && !op_ids(
                old(self).log@,
            ).contains(operation.deep_view().op_id) && !old(self).state@.spending_rights[player_id@].spends.contains_key(
                operation.deep_view().op_id,
            ) && amount <= i64::MAX ==> rights_in(old(self).state@, player_id@, old(self).replica_id@) >= amount && (
            available_result(bc_at(final(self).state@, player_id@), old(self).replica_id@) matches Some(left) ==> left
                == rights_in(old(self).state@, player_id@, old(self).replica_id@) - amount)),
    {
        if !self.state.players.contains(&player_id.to_owned()) {
            proof {
                reveal_strlit("player ");
                reveal_strlit(" has not joined");
            }
            let mut message = String::from_str("player ");
            message.append(player_id);
            message.append(" has not joined");
            return Err(message);
        }
        let phase = match self.state.round_phase(round_id) {
            None => {
                proof {
                    reveal_strlit("round ");
                    reveal_strlit(" does not exist");
                }
                let mut message = String::from_str("round ");
                message.append(round_id);
                message.append(" does not exist");
                return Err(message);
            },
            Some(phase) => phase,
        };
        if phase != RoundPhase::BettingOpen {
            proof {
                reveal_strlit("round ");
                reveal_strlit(" is not open for betting");
            }
            let mut message = String::from_str("round ");
            message.append(round_id);
            message.append(" is not open for betting");
            return Err(message);
        }
        let available = self.state.available_rights(player_id, self.replica_id.as_str());
        if available < amount as i64 {
            return Err(self.insufficient_message(available, amount));
        }
        proof {
            reveal_strlit("bet-");
        }
        let unique = random_simple_uuid();
        let mut bet_id = String::from_str("bet-");
        bet_id.append(unique.as_str());
        let kind = OperationKind::PlaceBet {
            bet_id,
            player_id: player_id.to_owned(),
            round_id: round_id.to_owned(),
            amount,
            bet_kind,
            origin_round_phase: phase,
        };
        assert(kind.deep_view() == Self::bet_kind_model("bet-"@ + unique@, player_id@, round_id@, amount, bet_kind));
        assert(old(self).can_record(kind.deep_view()));
        let ghost s0 = self.state@;
        proof {
            if s0.spending_rights.contains_key(player_id@) {
                let c = self.state.spending_rights.lemma_value_of(player_id@);
                c.spends.lemma_wf_view();
            }
        }
        let operation = self.record(kind);
        proof {
            let op = operation.deep_view();
            if s0.spending_rights.contains_key(player_id@) && !op_ids(old(self).log@).contains(op.op_id)
                && !s0.spending_rights[player_id@].spends.contains_key(op.op_id) && amount <= i64::MAX {
                crate::crdt::bounded_counter::lemma_spend_within_rights(
                    s0.spending_rights[player_id@],
                    op.op_id,
                    op.replica_id,
                    amount,
                );
            }
        }
        Ok(operation)
    }

    /// The bet would be placed here but cannot be recorded without overflow.
    pub open spec fn bet_overflows(&self, player_id: Seq<char>, round_id: Seq<char>, amount: u64) -> bool {
        &&& orset_contains(self.state@.players, player_id)
        &&& self.state@.round_views.contains_key(round_id)
        &&& self.state@.round_views[round_id].phase == RoundPhase::BettingOpen
        &&& !self.bet_room(player_id, amount)
        &&& (rights_defined(self.state@, player_id, self.replica_id@) ==> rights_in(
            self.state@,
            player_id,
            self.replica_id@,
        ) >= amount as i64)
    }

    /// Places a bet as `place_bet` does, refusing it with `arithmetic overflow` where
    /// it would be placed but cannot be recorded without overflow.
    pub fn place_bet_checked(&mut self, player_id: &str, round_id: &str, amount: u64, bet_kind: BetKind) -> (r:
        Result<Operation, String>)
        requires
            old(self).wf(),
        ensures
            final(self).wf(),
            match r {
                Ok(operation) => !old(self).bet_overflows(player_id@, round_id@, amount) && old(self).bet_refusal(
                    player_id@,
                    round_id@,
                    amount,
                ) is None && recorded_all(*old(self), *final(self), seq![operation.deep_view()]) && exists|u: Seq<char>|
                    crate::sync::operation::is_simple_uuid(u) && operation.deep_view().kind
                        == #[trigger] Self::bet_kind_model("bet-"@ + u, player_id@, round_id@, amount, bet_kind),
                Err(e) => *final(self) == *old(self) && if old(self).bet_overflows(player_id@, round_id@, amount) {
                    e@ == "arithmetic overflow"@
                } else {
                    old(self).bet_refusal(player_id@, round_id@, amount) == Some(e@)
                },
            },
    {
        if !self.bet_fits(player_id, round_id, amount) {
            let joined = self.state.players.contains(&player_id.to_owned());
            let open = self.state.round_phase(round_id) == Some(RoundPhase::BettingOpen);
            if joined && open {
                let refused_for_rights = match self.state.spending_rights.get(&player_id.to_owned()) {
                    Some(counter) => match counter.checked_available(self.replica_id.as_str()) {
                        Some(available) => available < amount as i64,
                        None => false,
                    },
                    None => 0 < amount as i64,
                };
                if !refused_for_rights {
                    proof {
                        reveal_strlit("arithmetic overflow");
                    }
                    return Err(String::from_str("arithmetic overflow"));
                }
            }
        }
        self.place_bet(player_id, round_id, amount, bet_kind)
    }

    /// Moves rights of a player from this replica to `to_replica`: refused, with a
    /// message, where this replica lacks them.
    pub fn transfer_spending_rights(&mut self, player_id: &str, to_replica: &str, amount: u64) -> (r: Result<
        Operation,
        String,
    >)
        requires
            old(self).wf(),
            rights_defined(old(self).state@, player_id@, old(self).replica_id@),
            rights_in(old(self).state@, player_id@, old(self).replica_id@) >= amount as i64 ==> old(
                self,
            ).can_record(
                KindModel::TransferSpendingRights {
                    player_id: player_id@,
                    from_replica: old(self).replica_id@,
                    to_replica: to_replica@,
                    amount,
                },
            ),
        ensures
            final(self).wf(),
            r is Ok == (rights_in(old(self).state@, player_id@, old(self).replica_id@) >= amount as i64),
            match r {
                Ok(operation) => recorded_all(*old(self), *final(self), seq![operation.deep_view()])
                    && operation.deep_view().kind == (KindModel::TransferSpendingRights {
                    player_id: player_id@,
                    from_replica: old(self).replica_id@,
                    to_replica: to_replica@,
                    amount,
                }),
                Err(e) => e@ == msg_insufficient(
                    old(self).replica_id@,
                    rights_in(old(self).state@, player_id@, old(self).replica_id@),
                    amount,
                ) && *final(self) == *old(self),
            },
    {
        let available = self.state.available_rights(player_id, self.replica_id.as_str());
        if available < amount as i64 {
            return Err(self.insufficient_message(available, amount));
        }
        let kind = OperationKind::TransferSpendingRights {
            player_id: player_id.to_owned(),
            from_replica: self.replica_id.clone(),
            to_replica: to_replica.to_owned(),
            amount,
        };
        Ok(self.record(kind))
    }

    /// Why resolving would be refused here, or `None` where it is allowed: the dice
    /// result is not 1 to 6, or the round is not closed.
    pub open spec fn resolve_refusal(&self, round_id: Seq<char>, dice: u8) -> Option<Seq<char>> {
        if !(1 <= dice <= 6) {
            Some(msg_bad_dice())
        } else if !(self.state@.round_views.contains_key(round_id) && self.state@.round_views[round_id].phase
            == RoundPhase::BettingClosed) {
            Some(msg_not_closed(round_id))
        } else {
            None
        }
    }

    /// The bets of `round_id` that win on `dice`, in bet order.
    pub open spec fn winners(&self, round_id: Seq<char>, dice: u8) -> Seq<BetModel> {
        winning_bets(ordered::<Bet>(orset_elements(self.state@.bets)), round_id, dice)
    }

    /// The bets of `round_id` that win on `dice`, in bet order.
    fn winning_bets_here(&self, round_id: &str, dice: u8) -> (won: Vec<Bet>)
        requires
            self.wf(),
        ensures
            won@.map_values(|b: Bet| b.deep_view()) == self.winners(round_id@, dice),
    {
        let bets = self.state.visible_bets();
        proof {
            bets.lemma_elems_ordered();
        }
        let ghost elems = bets.elems();
        let n = bets.len();
        let mut won: Vec<Bet> = Vec::new();
        assert(elems.take(0) =~= Seq::<BetModel>::empty());
        for i in 0..n
            invariant
                n == elems.len(),
                elems == bets.elems(),
                won@.map_values(|b: Bet| b.deep_view()) == winning_bets(elems.take(i as int), round_id@, dice),
        {
            let bet = bets.element_at(i);
            proof {
                assert(elems.take(i + 1).drop_last() =~= elems.take(i as int));
                assert(elems.take(i + 1).last() == elems[i as int]);
            }
            let ghost before = won@;
            if same_round(&bet.round_id, round_id) && bet.kind.wins(dice) {
                won.push(bet.duplicate());
                assert(won@.map_values(|b: Bet| b.deep_view()) =~= before.map_values(|b: Bet| b.deep_view()).push(
                    bet.deep_view(),
                ));
            }
        }
        assert(elems.take(n as int) =~= elems);
        won
    }

    /// Resolves a closed round with a dice result: records the resolution, then a
    /// payout of stake times multiplier for every winning bet, in bet order.
    pub fn resolve_round(&mut self, round_id: &str, dice: u8) -> (r: Result<Vec<Operation>, String>)
        requires
            old(self).wf(),
            old(self).resolve_refusal(round_id@, dice) is None ==> {
                &&& forall|k: int|
                    0 <= k < old(self).winners(round_id@, dice).len() ==> (#[trigger] old(self).winners(
                        round_id@,
                        dice,
                    )[k]).amount * bet_multiplier(old(self).winners(round_id@, dice)[k].kind) <= u64::MAX
                &&& kinds_ok(
                    old(self).state@,
                    old(self).replica_id@,
                    old(self).clock@,
                    resolve_kinds(round_id@, dice, old(self).winners(round_id@, dice)),
                )
            },
        ensures
            final(self).wf(),
            r is Ok == old(self).resolve_refusal(round_id@, dice) is None,
            match r {
                Ok(operations) => recorded_all(*old(self), *final(self), models(operations@))
                    && models(operations@).map_values(|o: OpModel| o.kind) == resolve_kinds(
                    round_id@,
                    dice,
                    old(self).winners(round_id@, dice),
                ),
                Err(e) => e@ == old(self).resolve_refusal(round_id@, dice)->0 && *final(self) == *old(self),
            },
    {
        if !(1 <= dice && dice <= 6) {
            proof {
                reveal_strlit("dice result must be 1 through 6");
            }
            return Err(String::from_str("dice result must be 1 through 6"));
        }
        if self.state.round_phase(round_id) != Some(RoundPhase::BettingClosed) {
            proof {
                reveal_strlit("round ");
                reveal_strlit(" is not closed");
            }
            let mut message = String::from_str("round ");
            message.append(round_id);
            message.append(" is not closed");
            return Err(message);
        }
        let ghost c0 = *self;
        let ghost winners = old(self).winners(round_id@, dice);
        let ghost kinds = resolve_kinds(round_id@, dice, winners);
        let kind = OperationKind::ResolveRound { round_id: round_id.to_owned(), dice };
        proof {
            reveal_with_fuel(kinds_ok, 1);
            assert(kinds[0] == kind.deep_view());
            assert(seq![kind.deep_view()] =~= kinds.take(1));
            lemma_kinds_ok_prefix(c0.state@, c0.replica_id@, c0.clock@, kinds, 1);
        }
        let first = self.record(kind);
        proof {
            lemma_kinds_ok_step(c0.state@, c0.replica_id@, c0.clock@, kinds, first.deep_view());
        }
        let won = self.winning_bets_here(round_id, dice);
        let mut operations: Vec<Operation> = vec![first];
        assert(models(operations@) =~= seq![first.deep_view()]);
        let m = won.len();
        for k in 0..m
            invariant
                m == won@.len(),
                won@.map_values(|b: Bet| b.deep_view()) == winners,
                winners == c0.winners(round_id@, dice),
                kinds == resolve_kinds(round_id@, dice, winners),
                forall|j: int|
                    0 <= j < winners.len() ==> (#[trigger] winners[j]).amount * bet_multiplier(winners[j].kind)
                        <= u64::MAX,
                self.wf(),
                operations@.len() == k + 1,
                recorded_all(c0, *self, models(operations@)),
                models(operations@).map_values(|o: OpModel| o.kind) == kinds.take(k + 1),
                kinds_ok(self.state@, self.replica_id@, self.clock@, kinds.skip(k + 1)),
                kinds.len() == m + 1,
                self.replica_id == c0.replica_id,
        {
            let bet = &won[k];
            assert(bet.deep_view() == winners[k as int]);
            let amount = bet.amount * bet.kind.multiplier();
            proof {
                reveal_strlit("payout:");
                reveal_strlit(":");
            }
            let mut payout_id = String::from_str("payout:");
            payout_id.append(round_id);
            payout_id.append(":");
            payout_id.append(bet.id.as_str());
            assert(payout_id@ =~= crate::client::client::payout_id(round_id@, winners[k as int]));
            let kind = OperationKind::ApplyPayout {
                payout_id,
                player_id: bet.player_id.clone(),
                round_id: round_id.to_owned(),
                amount,
            };
            let ghost c1 = *self;
            proof {
                assert(kinds[k + 1] == payout_kind(round_id@, winners[k as int]));
                assert(kind.deep_view() == kinds[k + 1]);
                assert(kinds.skip(k + 1)[0] == kinds[k + 1]);
                lemma_kinds_ok_prefix(c1.state@, c1.replica_id@, c1.clock@, kinds.skip(k + 1), 1);
                assert(kinds.skip(k + 1).take(1) =~= seq![kind.deep_view()]);
            }
            let next = self.record(kind);
            proof {
                lemma_kinds_ok_step(c1.state@, c1.replica_id@, c1.clock@, kinds.skip(k + 1), next.deep_view());
                assert(kinds.skip(k + 1).drop_first() =~= kinds.skip(k + 2));
                lemma_recorded_extend(c0, c1, *self, models(operations@), next.deep_view());
            }
            let ghost before = operations@;
            operations.push(next);
            proof {
                assert(models(operations@) =~= models(before).push(next.deep_view()));
                assert(models(operations@).map_values(|o: OpModel| o.kind) =~= models(before).map_values(
                    |o: OpModel| o.kind,
                ).push(next.deep_view().kind));
                assert(kinds.take(k + 2) =~= kinds.take(k + 1).push(kinds[k + 1]));
            }
        }
        proof {
            assert(kinds.take(m + 1) =~= kinds);
        }
        Ok(operations)
    }

    /// Room to resolve `round_id` with `dice`: each winning stake times its multiplier
    /// fits in `u64`, the clock can advance once per recorded operation, and each
    /// paid player's total on this replica can take all the payouts.
    pub open spec fn resolve_room(&self, round_id: Seq<char>, dice: u8) -> bool {
        let ws = self.winners(round_id, dice);
        let kinds = resolve_kinds(round_id, dice, ws);
        &&& forall|k: int| 0 <= k < ws.len() ==> (#[trigger] ws[k]).amount * bet_multiplier(ws[k].kind) <= u64::MAX
        &&& payout_room(self.state@, self.replica_id@, self.clock@, kinds, payout_total(kinds))
    }

    /// Whether there is room to resolve `round_id` with `dice`; where there is,
    /// resolving cannot overflow.
    pub fn resolve_fits(&self, round_id: &str, dice: u8) -> (r: bool)
        requires
            self.wf(),
        ensures
            r == self.resolve_room(round_id@, dice),
            r ==> kinds_ok(
                self.state@,
                self.replica_id@,
                self.clock@,
                resolve_kinds(round_id@, dice, self.winners(round_id@, dice)),
            ),
    {
        let won = self.winning_bets_here(round_id, dice);
        let ghost ws = self.winners(round_id@, dice);
        let ghost kinds = resolve_kinds(round_id@, dice, ws);
        let m = won.len();
        let mut total: u128 = 0;
        proof {
            let first = resolve_kinds(round_id@, dice, ws.take(0));
            assert(first =~= seq![KindModel::ResolveRound { round_id: round_id@, dice }]);
            assert(first.drop_last() =~= Seq::<KindModel>::empty());
            assert(payout_total(first) == payout_total(first.drop_last()) + payout_amount(first.last()));
        }
        for k in 0..m
            invariant
                m == won@.len(),
                won@.map_values(|b: Bet| b.deep_view()) == ws,
                ws == self.winners(round_id@, dice),
                forall|j: int| 0 <= j < k ==> (#[trigger] ws[j]).amount * bet_multiplier(ws[j].kind) <= u64::MAX,
                total == payout_total(resolve_kinds(round_id@, dice, ws.take(k as int))),
                total <= k * 0xffff_ffff_ffff_ffffu128,
        {
            let bet = &won[k];
            assert(bet.deep_view() == ws[k as int]);
            let amount = match bet.amount.checked_mul(bet.kind.multiplier()) {
                Some(a) => a,
                None => return false,
            };
            proof {
                let before = resolve_kinds(round_id@, dice, ws.take(k as int));
                let after = resolve_kinds(round_id@, dice, ws.take(k + 1));
                assert(after =~= before.push(payout_kind(round_id@, ws[k as int])));
                assert(after.drop_last() =~= before);
            }
            total = total + amount as u128;
        }
        proof {
            assert(ws.take(m as int) =~= ws);
        }
        let steps: u64 = m as u64;
        if steps == u64::MAX || !self.clock_allows(steps + 1) {
            return false;
        }
        if total > 0xffff_ffff_ffff_ffffu128 {
            proof {
                assert(m > 0);
                assert(kinds[1] == payout_kind(round_id@, ws[0]));
                assert(!room_for(self.state@, self.replica_id@, kinds[1], total as int));
            }
            return false;
        }
        for k in 0..m
            invariant
                m == won@.len(),
                won@.map_values(|b: Bet| b.deep_view()) == ws,
                ws == self.winners(round_id@, dice),
                kinds == resolve_kinds(round_id@, dice, ws),
                total == payout_total(kinds),
                total <= 0xffff_ffff_ffff_ffffu128,
                self.wf(),
                forall|j: int|
                    0 <= j < k ==> count_of(
                        pn_at(self.state@, (#[trigger] ws[j]).player_id).increments,
                        self.replica_id@,
                    ) + total <= u64::MAX,
        {
            let bet = &won[k];
            assert(bet.deep_view() == ws[k as int]);
            let count: u64 = match self.state.balances.get(&bet.player_id) {
                Some(counter) => match counter.increments.get(&self.replica_id) {
                    Some(v) => *v,
                    None => 0,
                },
                None => 0,
            };
            assert(count == count_of(pn_at(self.state@, ws[k as int].player_id).increments, self.replica_id@));
            if count as u128 + total > 0xffff_ffff_ffff_ffffu128 {
                proof {
                    assert(kinds[k + 1] == payout_kind(round_id@, ws[k as int]));
                    assert(!room_for(self.state@, self.replica_id@, kinds[k + 1], total as int));
                }
                return false;
            }
        }
        proof {
            assert forall|k: int| 0 <= k < kinds.len() implies room_for(
                self.state@,
                self.replica_id@,
                #[trigger] kinds[k],
                total as int,
            ) by {
                if k > 0 {
                    assert(kinds[k] == payout_kind(round_id@, ws[k - 1]));
                }
            }
            lemma_payout_room(self.state@, self.replica_id@, self.clock@, kinds, total as int);
        }
        true
    }

    /// Whether ingesting `operation` is free of overflow: true where it is already
    /// logged, else where rebuilding with it is.
    pub fn can_ingest(&self, operation: &Operation) -> (r: bool)
        requires
            self.wf(),
            operation.wf(),
        ensures
            r == (!op_ids(self.log@).contains(operation.deep_view().op_id) ==> rebuild_ok(
                self.log@.push(operation.deep_view()),
            )),
    {
        if self.log.contains(operation.op_id.as_str()) {
            return true;
        }
        let mut operations = copy_operations(&self.log.operations);
        let ghost before = operations@;
        operations.push(operation.duplicate());
        assert(models(operations@) =~= models(before).push(operation.deep_view()));
        BetSyncState::rebuild_fits(operations.as_slice())
    }

    /// Whether ingesting `operations` in turn is free of overflow.
    pub fn can_ingest_all(&self, operations: &Vec<Operation>) -> (r: bool)
        requires
            self.wf(),
            forall|i: int| 0 <= i < operations@.len() ==> (#[trigger] operations@[i]).wf(),
        ensures
            r == ingest_ok(self.log@, models(operations@)),
    {
        let ghost ops = models(operations@);
        let ghost log0 = self.log@;
        let mut log = OperationLog {
            seen_operations: self.log.seen_operations.duplicate(),
            operations: copy_operations(&self.log.operations),
        };
        assert(log@ == log0);
        assert(ops.take(0) =~= Seq::<OpModel>::empty());
        let n = operations.len();
        for i in 0..n
            invariant
                n == operations@.len(),
                ops == models(operations@),
                log0 == self.log@,
                forall|k: int| 0 <= k < operations@.len() ==> (#[trigger] operations@[k]).wf(),
                log.wf(),
                log@ == log_insert_all(log0, ops.take(i as int)).0,
                forall|j: int|
                    0 <= j < i ==> {
                        let l = #[trigger] log_insert_all(log0, ops.take(j)).0;
                        !op_ids(l).contains(ops[j].op_id) ==> rebuild_ok(l.push(ops[j]))
                    },
        {
            let operation = &operations[i];
            let ghost l = log@;
            proof {
                assert(ops.take(i + 1).drop_last() =~= ops.take(i as int));
                assert(ops.take(i + 1).last() == ops[i as int]);
                lemma_insert_all_one(l, ops[i as int]);
            }
            if !log.contains(operation.op_id.as_str()) {
                let mut trial = copy_operations(&log.operations);
                let ghost before = trial@;
                trial.push(operation.duplicate());
                assert(models(trial@) =~= models(before).push(operation.deep_view()));
                if !BetSyncState::rebuild_fits(trial.as_slice()) {
                    proof {
                        let l2 = log_insert_all(log0, ops.take(i as int)).0;
                        assert(l2 == l);
                        assert(!op_ids(l2).contains(ops[i as int].op_id));
                        assert(!rebuild_ok(l2.push(ops[i as int])));
                        assert(!ingest_ok(log0, ops));
                    }
                    return false;
                }
            }
            log.insert(operation.duplicate());
        }
        proof {
            assert(ops.take(n as int) =~= ops);
        }
        true
    }

    /// Whether the clock can advance by `steps` more ticks.
    pub fn clock_allows(&self, steps: u64) -> (r: bool)
        ensures
            r == (self.clock@ + steps <= u64::MAX),
    {
        self.clock.now() <= u64::MAX - steps
    }

    /// Room to record a join of `player_id` with `starting_chips`: the clock can
    /// advance and the player's total on this replica can take the chips.
    pub open spec fn join_room(&self, player_id: Seq<char>, starting_chips: u64) -> bool {
        &&& self.clock@ < u64::MAX
        &&& count_of(pn_at(self.state@, player_id).increments, self.replica_id@) + starting_chips <= u64::MAX
    }

    /// Room to record a transfer of `player_id`'s rights from this replica: the clock
    /// can advance and the rights here can be computed.
    pub open spec fn transfer_room(&self, player_id: Seq<char>) -> bool {
        &&& self.clock@ < u64::MAX
        &&& available_result(bc_at(self.state@, player_id), self.replica_id@) is Some
    }

    /// Whether joining `player_id` with `starting_chips` can be recorded.
    pub fn join_fits(&self, player_id: &str, starting_chips: u64) -> (r: bool)
        requires
            self.wf(),
        ensures
            r == self.join_room(player_id@, starting_chips),
            r ==> forall|display_name: Seq<char>, initial_rights: Map<Seq<char>, u64>|
                #[trigger] self.can_record(
                    KindModel::JoinTable {
                        table_id: "main"@,
                        player_id: player_id@,
                        display_name,
                        starting_chips,
                        initial_rights,
                    },
                ),
    {
        if !self.clock_allows(1) {
            return false;
        }
        let balance = match self.state.balances.get(&player_id.to_owned()) {
            Some(counter) => counter.increments.get(&self.replica_id),
            None => None,
        };
        let count: u64 = match balance {
            Some(v) => *v,
            None => 0,
        };
        let fits = count <= u64::MAX - starting_chips;
        proof {
            if fits {
                assert forall|display_name: Seq<char>, initial_rights: Map<Seq<char>, u64>|
                    #[trigger] self.can_record(
                        KindModel::JoinTable {
                            table_id: "main"@,
                            player_id: player_id@,
                            display_name,
                            starting_chips,
                            initial_rights,
                        },
                    ) by {
                    lemma_kinds_ok_one(
                        self.state@,
                        self.replica_id@,
                        self.clock@,
                        KindModel::JoinTable {
                            table_id: "main"@,
                            player_id: player_id@,
                            display_name,
                            starting_chips,
                            initial_rights,
                        },
                    );
                }
            }
        }
        fits
    }

    /// Room to place a bet: the clock can advance, the player's rights on this
    /// replica can be computed, and this replica's spent total for the player can
    /// take `amount` more.
    pub open spec fn bet_room(&self, player_id: Seq<char>, amount: u64) -> bool {
        &&& self.clock@ < u64::MAX
        &&& available_result(bc_at(self.state@, player_id), self.replica_id@) is Some
        &&& count_of(pn_at(self.state@, player_id).decrements, self.replica_id@) + amount <= u64::MAX
    }

    /// A check that placing a bet cannot overflow: the clock can advance, and where the
    /// bet would be placed, the player's rights on this replica can be computed and
    /// this replica's spent total can take the amount.
    pub fn bet_fits(&self, player_id: &str, round_id: &str, amount: u64) -> (r: bool)
        requires
            self.wf(),
        ensures
            r == self.bet_room(player_id@, amount),
            r ==> (orset_contains(self.state@.players, player_id@) && self.state@.round_views.contains_key(
                round_id@,
            ) && self.state@.round_views[round_id@].phase == RoundPhase::BettingOpen ==> rights_defined(
                self.state@,
                player_id@,
                self.replica_id@,
            )),
            r ==> forall|bet_id: Seq<char>, bet_kind: BetKind|
                #[trigger] self.can_record(Self::bet_kind_model(bet_id, player_id@, round_id@, amount, bet_kind)),
    {
        if !self.clock_allows(1) {
            return false;
        }
        let player = player_id.to_owned();
        let rights = match self.state.spending_rights.get(&player) {
            Some(counter) => counter.duplicate(),
            None => BoundedCounter::default(),
        };
        let available = rights.checked_available(self.replica_id.as_str());
        if available.is_none() {
            return false;
        }
        let spent: u64 = match self.state.balances.get(&player) {
            Some(counter) => match counter.decrements.get(&self.replica_id) {
                Some(v) => *v,
                None => 0,
            },
            None => 0,
        };
        if spent > u64::MAX - amount {
            return false;
        }
        proof {
            assert(rights@ == bc_at(self.state@, player_id@));
            assert forall|bet_id: Seq<char>, bet_kind: BetKind|
                #[trigger] self.can_record(Self::bet_kind_model(bet_id, player_id@, round_id@, amount, bet_kind)) by {
                let kind = Self::bet_kind_model(bet_id, player_id@, round_id@, amount, bet_kind);
                assert forall|op: OpModel|
                    op.replica_id == self.replica_id@ && op.lamport_time == self.clock@ + 1 && op.kind == kind implies #[trigger] apply_ok(
                    self.state@,
                    op,
                ) by {
                    assert(bc_spend_defined(bc_at(self.state@, player_id@), op.op_id, op.replica_id));
                    assert(count_of(pn_at(self.state@, player_id@).decrements, op.replica_id) == spent);
                }
                lemma_kinds_ok_one(self.state@, self.replica_id@, self.clock@, kind);
            }
        }
        true
    }

    /// A check that transferring rights cannot overflow: the clock can advance and the
    /// player's rights on this replica can be computed.
    pub fn transfer_fits(&self, player_id: &str, to_replica: &str, amount: u64) -> (r: bool)
        requires
            self.wf(),
        ensures
            r == self.transfer_room(player_id@),
            r ==> rights_defined(self.state@, player_id@, self.replica_id@),
            r ==> self.can_record(
                KindModel::TransferSpendingRights {
                    player_id: player_id@,
                    from_replica: self.replica_id@,
                    to_replica: to_replica@,
                    amount,
                },
            ),
    {
        if !self.clock_allows(1) {
            return false;
        }
        let rights = match self.state.spending_rights.get(&player_id.to_owned()) {
            Some(counter) => counter.duplicate(),
            None => BoundedCounter::default(),
        };
        if rights.checked_available(self.replica_id.as_str()).is_none() {
            return false;
        }
        proof {
            let kind = KindModel::TransferSpendingRights {
                player_id: player_id@,
                from_replica: self.replica_id@,
                to_replica: to_replica@,
                amount,
            };
            assert(rights@ == bc_at(self.state@, player_id@));
            lemma_kinds_ok_one(self.state@, self.replica_id@, self.clock@, kind);
        }
        true
    }

    pub fn operation_by_id(&self, op_id: &str) -> (r: Option<Operation>)
        requires
            self.wf(),
        ensures
            r is Some == op_ids(self.log@).contains(op_id@),
            r is Some ==> exists|i: int|
                0 <= i < self.log@.len() && #[trigger] self.log@[i] == r->0.deep_view() && self.log@[i].op_id
                    == op_id@,
    {
        let n = self.log.operations.len();
        for i in 0..n
            invariant
                n == self.log.operations@.len(),
                self.wf(),
                forall|j: int| 0 <= j < i ==> (#[trigger] self.log.operations@[j]).op_id@ != op_id@,
        {
            let operation = &self.log.operations[i];
            if crate::text::compare_text(operation.op_id.as_str(), op_id) == crate::text::KeyOrder::Equal {
                proof {
                    crate::text::lemma_text_lt_irreflexive(op_id@);
                    assert(op_ids(self.log@)[i as int] == op_id@);
                }
                return Some(operation.duplicate());
            }
            proof {
                crate::text::lemma_text_lt_irreflexive(op_id@);
            }
        }
        assert(!op_ids(self.log@).contains(op_id@)) by {
            if op_ids(self.log@).contains(op_id@) {
                let j = choose|j: int| 0 <= j < op_ids(self.log@).len() && op_ids(self.log@)[j] == op_id@;
                assert(self.log.operations@[j].op_id@ == op_id@);
            }
        }
        None
    }
}

fn same_round(a: &String, b: &str) -> (r: bool)
    ensures
        r == (a@ == b@),
{
    proof {
        crate::text::lemma_text_lt_irreflexive(b@);
    }
    crate::text::compare_text(a.as_str(), b) == crate::text::KeyOrder::Equal
}

/// The first `j` kinds of a recordable sequence are recordable on their own.
proof fn lemma_kinds_ok_prefix(state: StateModel, replica: Seq<char>, clock: u64, kinds: Seq<KindModel>, j: int)
    requires
        0 <= j <= kinds.len(),
        kinds_ok(state, replica, clock, kinds),
    ensures
        kinds_ok(state, replica, clock, kinds.take(j)),
    decreases kinds.len(),
{
    if j == 0 {
        assert(kinds.take(j) =~= Seq::<KindModel>::empty());
    } else {
        assert(kinds.take(j)[0] == kinds[0]);
        assert(kinds.take(j).drop_first() =~= kinds.drop_first().take(j - 1));
        assert forall|op: OpModel|
            op.replica_id == replica && op.lamport_time == clock + 1 && op.kind == kinds.take(j)[0] implies {
            &&& #[trigger] apply_ok(state, op)
            &&& kinds_ok(apply_op(state, op), replica, (clock + 1) as u64, kinds.take(j).drop_first())
            &&& kinds_ok(state, replica, (clock + 1) as u64, kinds.take(j).drop_first())
        } by {
            assert(op.kind == kinds[0]);
            assert(apply_ok(state, op));
            lemma_kinds_ok_prefix(apply_op(state, op), replica, (clock + 1) as u64, kinds.drop_first(), j - 1);
            lemma_kinds_ok_prefix(state, replica, (clock + 1) as u64, kinds.drop_first(), j - 1);
        }
    }
}

/// After recording the first kind of a recordable sequence, the rest is recordable
/// from the state and clock that the recording left.
proof fn lemma_kinds_ok_step(state: StateModel, replica: Seq<char>, clock: u64, kinds: Seq<KindModel>, op: OpModel)
    requires
        kinds.len() > 0,
        kinds_ok(state, replica, clock, kinds),
        op.replica_id == replica,
        op.lamport_time == clock + 1,
        op.kind == kinds[0],
    ensures
        kinds_ok(apply_op(state, op), replica, (clock + 1) as u64, kinds.drop_first()),
        kinds_ok(state, replica, (clock + 1) as u64, kinds.drop_first()),
{
    assert(apply_ok(state, op));
}

/// Recording one more operation extends a recorded sequence.
pub(crate) proof fn lemma_recorded_extend(a: LocalClient, b: LocalClient, c: LocalClient, ops: Seq<OpModel>, op: OpModel)
    requires
        recorded_all(a, b, ops),
        recorded_all(b, c, seq![op]),
    ensures
        recorded_all(a, c, ops.push(op)),
{
    lemma_insert_all_push(a.log@, ops, op);
    lemma_insert_all_push(a.unsynced(), ops, op);
    assert(seq![op][0] == op);
    assert forall|k: int| 0 <= k < ops.push(op).len() implies (#[trigger] ops.push(op)[k]).replica_id
        == a.replica_id@ && ops.push(op)[k].lamport_time == a.clock@ + 1 + k && is_fresh_op_id(
        ops.push(op)[k].op_id,
        ops.push(op)[k].replica_id,
        ops.push(op)[k].lamport_time,
    ) by {
        if k < ops.len() {
            assert(ops.push(op)[k] == ops[k]);
        }
    }
}

/// Taking in `s1 + s2` is taking in `s1`, then `s2`.
pub(crate) proof fn lemma_insert_all_concat(log: Seq<OpModel>, s1: Seq<OpModel>, s2: Seq<OpModel>)
    ensures
        log_insert_all(log, s1 + s2).0 == log_insert_all(log_insert_all(log, s1).0, s2).0,
    decreases s2.len(),
{
    if s2.len() == 0 {
        assert(s1 + s2 =~= s1);
    } else {
        lemma_insert_all_concat(log, s1, s2.drop_last());
        assert((s1 + s2).drop_last() =~= s1 + s2.drop_last());
        assert((s1 + s2).last() == s2.last());
    }
}

/// Recording `s1`, then `s2`, is recording `s1 + s2`.
pub(crate) proof fn lemma_recorded_concat(a: LocalClient, b: LocalClient, c: LocalClient, s1: Seq<OpModel>, s2: Seq<OpModel>)
    requires
        recorded_all(a, b, s1),
        recorded_all(b, c, s2),
    ensures
        recorded_all(a, c, s1 + s2),
{
    lemma_insert_all_concat(a.log@, s1, s2);
    lemma_insert_all_concat(a.unsynced(), s1, s2);
    assert forall|k: int| 0 <= k < (s1 + s2).len() implies (#[trigger] (s1 + s2)[k]).replica_id == a.replica_id@
        && (s1 + s2)[k].lamport_time == a.clock@ + 1 + k && is_fresh_op_id(
        (s1 + s2)[k].op_id,
        (s1 + s2)[k].replica_id,
        (s1 + s2)[k].lamport_time,
    ) by {
        if k < s1.len() {
            assert((s1 + s2)[k] == s1[k]);
        } else {
            assert((s1 + s2)[k] == s2[k - s1.len()]);
        }
    }
}

/// A copy of each operation.
pub(crate) fn copy_operations(operations: &Vec<Operation>) -> (r: Vec<Operation>)
    requires
        forall|i: int| 0 <= i < operations@.len() ==> (#[trigger] operations@[i]).wf(),
    ensures
        models(r@) == models(operations@),
        forall|i: int| 0 <= i < r@.len() ==> (#[trigger] r@[i]).wf(),
{
    let mut out: Vec<Operation> = Vec::new();
    let n = operations.len();
    for i in 0..n
        invariant
            n == operations@.len(),
            forall|k: int| 0 <= k < operations@.len() ==> (#[trigger] operations@[k]).wf(),
            models(out@) == models(operations@).take(i as int),
            forall|k: int| 0 <= k < out@.len() ==> (#[trigger] out@[k]).wf(),
    {
        let ghost before = out@;
        let copy = operations[i].duplicate();
        out.push(copy);
        assert(out@ == before.push(copy));
        assert(models(out@) =~= models(before).push(copy.deep_view()));
        assert(models(operations@).take(i + 1) =~= models(operations@).take(i as int).push(operations@[i as int].deep_view()));
    }
    assert(models(operations@).take(n as int) =~= models(operations@));
    out
}

} // verus!
