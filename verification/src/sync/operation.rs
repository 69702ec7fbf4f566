//! Immutable operations: each carries a unique id, the replica that made it and its
//! Lamport time, and is ordered by (time, replica id, operation id).
use vstd::prelude::*;
use vstd::string::*;
use crate::collections::SortedMap;
use crate::domain::{BetKind, RoundPhase};
use crate::text::{
    compare_text, decimal, lemma_text_lt_irreflexive, lemma_text_lt_total, lemma_text_lt_transitive,
    push_decimal, text_lt, Duplicate, KeyOrder,
};

verus! {

#[derive(Debug, Clone, PartialEq, Eq)]
pub struct Operation {
    pub op_id: String,
    pub replica_id: String,
    pub lamport_time: u64,
    pub kind: OperationKind,
}

#[derive(Debug, Clone, PartialEq, Eq)]
pub enum OperationKind {
    CreateTable { table_id: String, name: String },
    JoinTable {
        table_id: String,
        player_id: String,
        display_name: String,
        starting_chips: u64,
        initial_rights: SortedMap<String, u64>,
    },
    LeaveTable { table_id: String, player_id: String },
    CreateRound { round_id: String, dealer_id: String },
    OpenBetting { round_id: String },
    PlaceBet {
        bet_id: String,
        player_id: String,
        round_id: String,
        amount: u64,
        bet_kind: BetKind,
        origin_round_phase: RoundPhase,
    },
    CloseBetting { round_id: String },
    ResolveRound { round_id: String, dice: u8 },
    ApplyPayout { payout_id: String, player_id: String, round_id: String, amount: u64 },
    TransferSpendingRights { player_id: String, from_replica: String, to_replica: String, amount: u64 },
}

/// The model of an operation kind.
pub enum KindModel {
    CreateTable { table_id: Seq<char>, name: Seq<char> },
    JoinTable {
        table_id: Seq<char>,
        player_id: Seq<char>,
        display_name: Seq<char>,
        starting_chips: u64,
        initial_rights: Map<Seq<char>, u64>,
    },
    LeaveTable { table_id: Seq<char>, player_id: Seq<char> },
    CreateRound { round_id: Seq<char>, dealer_id: Seq<char> },
    OpenBetting { round_id: Seq<char> },
    PlaceBet {
        bet_id: Seq<char>,
        player_id: Seq<char>,
        round_id: Seq<char>,
        amount: u64,
        bet_kind: BetKind,
        origin_round_phase: RoundPhase,
    },
    CloseBetting { round_id: Seq<char> },
    ResolveRound { round_id: Seq<char>, dice: u8 },
    ApplyPayout { payout_id: Seq<char>, player_id: Seq<char>, round_id: Seq<char>, amount: u64 },
    TransferSpendingRights {
        player_id: Seq<char>,
        from_replica: Seq<char>,
        to_replica: Seq<char>,
        amount: u64,
    },
}

/// The model of an operation.
pub struct OpModel {
    pub op_id: Seq<char>,
    pub replica_id: Seq<char>,
    pub lamport_time: u64,
    pub kind: KindModel,
}

impl DeepView for OperationKind {
    type V = KindModel;

    open spec fn deep_view(&self) -> KindModel {
        match self {
            OperationKind::CreateTable { table_id, name } => KindModel::CreateTable {
                table_id: table_id@,
                name: name@,
            },
            OperationKind::JoinTable {
                table_id,
                player_id,
                display_name,
                starting_chips,
                initial_rights,
            } => KindModel::JoinTable {
                table_id: table_id@,
                player_id: player_id@,
                display_name: display_name@,
                starting_chips: *starting_chips,
                initial_rights: initial_rights@,
            },
            OperationKind::LeaveTable { table_id, player_id } => KindModel::LeaveTable {
                table_id: table_id@,
                player_id: player_id@,
            },
            OperationKind::CreateRound { round_id, dealer_id } => KindModel::CreateRound {
                round_id: round_id@,
                dealer_id: dealer_id@,
            },
            OperationKind::OpenBetting { round_id } => KindModel::OpenBetting { round_id: round_id@ },
            OperationKind::PlaceBet {
                bet_id,
                player_id,
                round_id,
                amount,
                bet_kind,
                origin_round_phase,
            } => KindModel::PlaceBet {
                bet_id: bet_id@,
                player_id: player_id@,
                round_id: round_id@,
                amount: *amount,
                bet_kind: *bet_kind,
                origin_round_phase: *origin_round_phase,
            },
            OperationKind::CloseBetting { round_id } => KindModel::CloseBetting { round_id: round_id@ },
            OperationKind::ResolveRound { round_id, dice } => KindModel::ResolveRound {
                round_id: round_id@,
                dice: *dice,
            },
            OperationKind::ApplyPayout { payout_id, player_id, round_id, amount } => KindModel::ApplyPayout {
                payout_id: payout_id@,
                player_id: player_id@,
                round_id: round_id@,
                amount: *amount,
            },
            OperationKind::TransferSpendingRights { player_id, from_replica, to_replica, amount } =>
                KindModel::TransferSpendingRights {
                player_id: player_id@,
                from_replica: from_replica@,
                to_replica: to_replica@,
                amount: *amount,
            },
        }
    }
}

impl View for OperationKind {
    type V = KindModel;

    open spec fn view(&self) -> KindModel {
        self.deep_view()
    }
}

impl DeepView for Operation {
    type V = OpModel;

    open spec fn deep_view(&self) -> OpModel {
        OpModel {
            op_id: self.op_id@,
            replica_id: self.replica_id@,
            lamport_time: self.lamport_time,
            kind: self.kind.deep_view(),
        }
    }
}

impl View for Operation {
    type V = OpModel;

    open spec fn view(&self) -> OpModel {
        self.deep_view()
    }
}

impl Duplicate for OperationKind {
    open spec fn valid(&self) -> bool {
        match self {
            OperationKind::JoinTable { initial_rights, .. } => initial_rights.wf(),
            _ => true,
        }
    }

    fn duplicate(&self) -> (r: Self) {
        match self {
            OperationKind::CreateTable { table_id, name } => OperationKind::CreateTable {
                table_id: table_id.clone(),
                name: name.clone(),
            },
            OperationKind::JoinTable {
                table_id,
                player_id,
                display_name,
                starting_chips,
                initial_rights,
            } => OperationKind::JoinTable {
                table_id: table_id.clone(),
                player_id: player_id.clone(),
                display_name: display_name.clone(),
                starting_chips: *starting_chips,
                initial_rights: initial_rights.duplicate(),
            },
            OperationKind::LeaveTable { table_id, player_id } => OperationKind::LeaveTable {
                table_id: table_id.clone(),
                player_id: player_id.clone(),
            },
            OperationKind::CreateRound { round_id, dealer_id } => OperationKind::CreateRound {
                round_id: round_id.clone(),
                dealer_id: dealer_id.clone(),
            },
            OperationKind::OpenBetting { round_id } => OperationKind::OpenBetting {
                round_id: round_id.clone(),
            },
            OperationKind::PlaceBet {
                bet_id,
                player_id,
                round_id,
                amount,
                bet_kind,
                origin_round_phase,
            } => OperationKind::PlaceBet {
                bet_id: bet_id.clone(),
                player_id: player_id.clone(),
                round_id: round_id.clone(),
                amount: *amount,
                bet_kind: *bet_kind,
                origin_round_phase: *origin_round_phase,
            },
            OperationKind::CloseBetting { round_id } => OperationKind::CloseBetting {
                round_id: round_id.clone(),
            },
            OperationKind::ResolveRound { round_id, dice } => OperationKind::ResolveRound {
                round_id: round_id.clone(),
                dice: *dice,
            },
            OperationKind::ApplyPayout { payout_id, player_id, round_id, amount } =>
                OperationKind::ApplyPayout {
                payout_id: payout_id.clone(),
                player_id: player_id.clone(),
                round_id: round_id.clone(),
                amount: *amount,
            },
            OperationKind::TransferSpendingRights { player_id, from_replica, to_replica, amount } =>
                OperationKind::TransferSpendingRights {
                player_id: player_id.clone(),
                from_replica: from_replica.clone(),
                to_replica: to_replica.clone(),
                amount: *amount,
            },
        }
    }
}

impl Duplicate for Operation {
    open spec fn valid(&self) -> bool {
        self.kind.valid()
    }

    fn duplicate(&self) -> (r: Self) {
        Operation {
            op_id: self.op_id.clone(),
            replica_id: self.replica_id.clone(),
            lamport_time: self.lamport_time,
            kind: self.kind.duplicate(),
        }
    }
}

/// The text of a simple-format UUID: 32 lowercase hexadecimal digits.
pub open spec fn is_simple_uuid(s: Seq<char>) -> bool {
    s.len() == 32 && forall|i: int|
        0 <= i < 32 ==> ('0' <= #[trigger] s[i] <= '9' || 'a' <= s[i] <= 'f')
}

/// Calls `uuid::Uuid::new_v4` and formats the result with `simple()`: a random UUID,
/// which the crate writes as 32 lowercase hexadecimal digits, with the version digit
/// (the thirteenth) `4` and the variant digit (the seventeenth) one of `8`, `9`, `a`,
/// `b`. Nothing is claimed of the random digits.
#[verifier::external_body]
pub(crate) fn random_simple_uuid() -> (r: String)
    ensures
        is_simple_uuid(r@),
        r@[12] == '4',
        r@[16] == '8' || r@[16] == '9' || r@[16] == 'a' || r@[16] == 'b',
{
    uuid::Uuid::new_v4().simple().to_string()
}

/// The id of an operation: `replica-time-unique`.
pub open spec fn op_id_text(replica_id: Seq<char>, lamport_time: u64, unique: Seq<char>) -> Seq<char> {
    replica_id + seq!['-'] + decimal(lamport_time as nat) + seq!['-'] + unique
}

/// Operation ids as `Operation::new` makes them, with a random simple UUID as the
/// unique part.
pub open spec fn is_fresh_op_id(op_id: Seq<char>, replica_id: Seq<char>, lamport_time: u64) -> bool {
    exists|u: Seq<char>| is_simple_uuid(u) && op_id == #[trigger] op_id_text(replica_id, lamport_time, u)
}

/// `a` comes before `b` in replay order: by Lamport time, then replica id, then
/// operation id.
pub open spec fn op_lt(a: OpModel, b: OpModel) -> bool {
    a.lamport_time < b.lamport_time || (a.lamport_time == b.lamport_time && (text_lt(
        a.replica_id,
        b.replica_id,
    ) || (a.replica_id == b.replica_id && text_lt(a.op_id, b.op_id))))
}

pub proof fn lemma_op_order(a: OpModel, b: OpModel, c: OpModel)
    ensures
        !op_lt(a, a),
        op_lt(a, b) && op_lt(b, c) ==> op_lt(a, c),
        op_lt(a, b) ==> !op_lt(b, a),
        !op_lt(a, b) && !op_lt(b, a) ==> a.lamport_time == b.lamport_time && a.replica_id
            == b.replica_id && a.op_id == b.op_id,
{
    lemma_text_lt_irreflexive(a.replica_id);
    lemma_text_lt_irreflexive(a.op_id);
    lemma_text_lt_total(a.replica_id, b.replica_id);
    lemma_text_lt_total(a.op_id, b.op_id);
    if text_lt(a.replica_id, b.replica_id) && text_lt(b.replica_id, c.replica_id) {
        lemma_text_lt_transitive(a.replica_id, b.replica_id, c.replica_id);
    }
    if text_lt(a.op_id, b.op_id) && text_lt(b.op_id, c.op_id) {
        lemma_text_lt_transitive(a.op_id, b.op_id, c.op_id);
    }
    if text_lt(a.replica_id, b.replica_id) && text_lt(b.replica_id, a.replica_id) {
        lemma_text_lt_transitive(a.replica_id, b.replica_id, a.replica_id);
    }
    if text_lt(a.op_id, b.op_id) && text_lt(b.op_id, a.op_id) {
        lemma_text_lt_transitive(a.op_id, b.op_id, a.op_id);
    }
}

impl Operation {
    pub open spec fn wf(&self) -> bool {
        self.kind.valid()
    }

    /// Whether the operation is well formed: a join's split of rights is a
    /// well-formed map.
    pub fn is_well_formed(&self) -> (r: bool)
        ensures
            r == self.wf(),
    {
        match &self.kind {
            OperationKind::JoinTable { initial_rights, .. } => initial_rights.is_well_formed(),
            _ => true,
        }
    }

    /// A new operation whose id is the replica, the time and a random UUID.
    pub fn new(replica_id: &str, lamport_time: u64, kind: OperationKind) -> (r: Self)
        ensures
            r.replica_id@ == replica_id@,
            r.lamport_time == lamport_time,
            r.kind == kind,
            is_fresh_op_id(r.op_id@, replica_id@, lamport_time),
    {
        let unique = random_simple_uuid();
        let r = Self::with_unique_part(replica_id, lamport_time, unique.as_str(), kind);
        assert(r.op_id@ == op_id_text(replica_id@, lamport_time, unique@));
        r
    }

    /// The operation whose id is `replica_id-lamport_time-unique`.
    pub fn with_unique_part(replica_id: &str, lamport_time: u64, unique: &str, kind: OperationKind) -> (r: Self)
        ensures
            r.op_id@ == op_id_text(replica_id@, lamport_time, unique@),
            r.replica_id@ == replica_id@,
            r.lamport_time == lamport_time,
            r.kind == kind,
    {
        proof {
            reveal_strlit("-");
        }
        let mut op_id = String::from_str(replica_id);
        op_id.append("-");
        push_decimal(&mut op_id, lamport_time);
        op_id.append("-");
        op_id.append(unique);
        assert(op_id@ =~= op_id_text(replica_id@, lamport_time, unique@));
        Operation { op_id, replica_id: replica_id.to_owned(), lamport_time, kind }
    }

    /// An operation with a given id.
    pub fn fixed(op_id: &str, replica_id: &str, lamport_time: u64, kind: OperationKind) -> (r: Self)
        ensures
            r.op_id@ == op_id@,
            r.replica_id@ == replica_id@,
            r.lamport_time == lamport_time,
            r.kind == kind,
    {
        Operation { op_id: op_id.to_owned(), replica_id: replica_id.to_owned(), lamport_time, kind }
    }

    /// Whether `self` comes before `other` in replay order.
    pub fn precedes(&self, other: &Operation) -> (r: bool)
        ensures
            r == op_lt(self.deep_view(), other.deep_view()),
    {
        if self.lamport_time != other.lamport_time {
            return self.lamport_time < other.lamport_time;
        }
        match compare_text(self.replica_id.as_str(), other.replica_id.as_str()) {
            KeyOrder::Less => true,
            KeyOrder::Greater => false,
            KeyOrder::Equal => compare_text(self.op_id.as_str(), other.op_id.as_str()) == KeyOrder::Less,
        }
    }
}

} // verus!
