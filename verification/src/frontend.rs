//! The browser demo: two replicas of one table, the actions the page sends, and the
//! snapshot it shows after each.
use vstd::prelude::*;
use vstd::string::*;
use crate::client::client::{ingest_ok, msg_not_open, recorded_all, resolve_kinds, LocalClient};
use crate::collections::ordered;
use crate::crdt::bounded_counter::available_result;
use crate::crdt::or_set::orset_elements;
use crate::crdt::pn_counter::{pn_value, pn_value_defined};
use crate::domain::bet::{bet_kind_text, parse_bet_kind};
use crate::domain::state::StateModel;
use crate::domain::{Bet, BetKind, RoundPhase};
use crate::sync::operation::{is_simple_uuid, KindModel, OpModel};
use crate::simulation::{failure_balance, pn_double_spend_balance, pulled, split_table, split_table_made};
use crate::text::{compare_text, decimal, lemma_text_lt_irreflexive, push_decimal, Duplicate, KeyOrder, SameValue};

verus! {

/// An action sent by the page.
#[derive(Debug, Clone)]
pub struct ActionRequest {
    pub action: String,
    pub replica: Option<String>,
    pub amount: Option<u64>,
    pub bet_kind: Option<String>,
    pub dice: Option<u8>,
}

/// The round the page shows.
#[derive(Debug, Clone)]
pub struct RoundSnapshot {
    pub id: String,
    pub phase: RoundPhase,
    pub result: Option<u8>,
}

/// What the page shows of one replica.
#[derive(Debug, Clone)]
pub struct ClientSnapshot {
    pub replica_id: String,
    pub online: bool,
    pub balance: i64,
    pub rights_a: i64,
    pub rights_b: i64,
    pub operation_count: usize,
    pub rejected_count: usize,
    pub round: Option<RoundSnapshot>,
    pub bets: Vec<Bet>,
}

/// What the page shows after an action.
#[derive(Debug, Clone)]
pub struct FrontendSnapshot {
    pub clients: Vec<ClientSnapshot>,
    pub states_equal: bool,
    pub pn_failure_balance: Option<i64>,
    pub messages: Vec<String>,
}

/// The demo: replicas A and B of one table, the latest messages, and the balance
/// of the last counter failure shown.
#[derive(Debug)]
pub struct FrontendDemo {
    pub a: LocalClient,
    pub b: LocalClient,
    pub messages: Vec<String>,
    pub pn_failure_balance: Option<i64>,
}

/// How the page names a connection state.
pub open spec fn online_text(online: bool) -> Seq<char> {
    if online {
        "online"@
    } else {
        "offline"@
    }
}

/// The most messages the demo keeps.
pub open spec fn message_limit() -> nat {
    8
}

/// The texts of a list of messages.
pub open spec fn texts(messages: Seq<String>) -> Seq<Seq<char>> {
    messages.map_values(|m: String| m@)
}

/// The texts of an outcome.
pub open spec fn outcome_view(r: Result<String, String>) -> Result<Seq<char>, Seq<char>> {
    match r {
        Ok(m) => Ok(m@),
        Err(e) => Err(e@),
    }
}

/// The message that an action's outcome adds.
pub open spec fn outcome_text(result: Result<Seq<char>, Seq<char>>) -> Seq<char> {
    match result {
        Ok(m) => m,
        Err(e) => "rejected: "@ + e,
    }
}

/// `messages` with `m` added, keeping the latest ones only.
pub open spec fn with_message(messages: Seq<Seq<char>>, m: Seq<char>) -> Seq<Seq<char>> {
    let all = messages.push(m);
    if all.len() > message_limit() {
        all.skip(all.len() - message_limit())
    } else {
        all
    }
}

pub open spec fn reset_message() -> Seq<char> {
    "demo reset: Liam has 100 chips split as A:60 and B:40"@
}

/// `d` is the demo as it starts over: A has made the table, joined Liam with 100
/// chips split as A:60 and B:40 and opened round 1; B has taken in all of A's log;
/// both are online and one message says so.
pub open spec fn just_reset(d: FrontendDemo) -> bool {
    &&& split_table_made(d.a, d.b, "BetSync Web Demo"@)
    &&& texts(d.messages@) == seq![reset_message()]
    &&& d.pn_failure_balance is None
}

/// Both replicas can take in each other's log without overflow.
pub open spec fn can_merge(d: FrontendDemo) -> bool {
    ingest_ok(d.a.log@, d.b.log@) && ingest_ok(d.b.log@, d.a.log@)
}

/// `d2` is `d1` with each replica having taken in the other's log, where that is
/// free of overflow, and `d1` unchanged otherwise.
pub open spec fn merged(d1: FrontendDemo, d2: FrontendDemo) -> bool {
    &&& if can_merge(d1) {
        pulled(d1.a, d2.a, d1.b.log@) && pulled(d1.b, d2.b, d1.a.log@)
    } else {
        d2.a == d1.a && d2.b == d1.b
    }
    &&& d2.messages == d1.messages
    &&& d2.pn_failure_balance == d1.pn_failure_balance
}

/// `d2` is `d1` merged where both replicas are online, and `d1` otherwise.
pub open spec fn merged_if_connected(d1: FrontendDemo, d2: FrontendDemo) -> bool {
    if d1.a.connected() && d1.b.connected() {
        merged(d1, d2)
    } else {
        d2 == d1
    }
}

/// The demo with replica A replaced.
pub open spec fn with_a(d: FrontendDemo, a: LocalClient) -> FrontendDemo {
    FrontendDemo { a, ..d }
}

/// The demo with replica B replaced.
pub open spec fn with_b(d: FrontendDemo, b: LocalClient) -> FrontendDemo {
    FrontendDemo { b, ..d }
}

/// Toggling the connection of `replica`: A or B goes offline or online (merging
/// where both are then online), any other name is refused.
pub open spec fn toggled(
    d1: FrontendDemo,
    d2: FrontendDemo,
    replica: Option<Seq<char>>,
    result: Result<Seq<char>, Seq<char>>,
) -> bool {
    match replica {
        None => d2 == d1 && result == Err::<Seq<char>, Seq<char>>("missing replica"@),
        Some(r) => if r == "A"@ {
            let mid = with_a(d1, LocalClient { online: !d1.a.online, ..d1.a });
            &&& (if mid.a.online {
                merged_if_connected(mid, d2)
            } else {
                d2 == mid
            })
            &&& result == Ok::<Seq<char>, Seq<char>>("replica A is "@ + online_text(mid.a.online))
        } else if r == "B"@ {
            let mid = with_b(d1, LocalClient { online: !d1.b.online, ..d1.b });
            &&& (if mid.b.online {
                merged_if_connected(mid, d2)
            } else {
                d2 == mid
            })
            &&& result == Ok::<Seq<char>, Seq<char>>("replica B is "@ + online_text(mid.b.online))
        } else {
            d2 == d1 && result == Err::<Seq<char>, Seq<char>>("unknown replica "@ + r)
        },
    }
}

/// The message for a placed bet.
pub open spec fn bet_text(replica: Seq<char>, amount: u64, kind: BetKind, op_id: Seq<char>) -> Seq<char> {
    "replica "@ + replica + " placed "@ + decimal(amount as nat) + " on "@ + bet_kind_text(kind) + " ("@ + op_id
        + ")"@
}

/// Client `c1` places Liam's bet on round 1, becoming `c2`, where the demo `d1`
/// with `c1` replaced by `c2` then merges into `d2` where both are online.
pub open spec fn bet_by(
    c1: LocalClient,
    c2: LocalClient,
    d_after: FrontendDemo,
    d2: FrontendDemo,
    amount: u64,
    kind: BetKind,
    result: Result<Seq<char>, Seq<char>>,
) -> bool {
    exists|op: OpModel, u: Seq<char>|
        #![trigger recorded_all(c1, c2, seq![op]), is_simple_uuid(u)]
        {
            &&& recorded_all(c1, c2, seq![op])
            &&& c2.wf()
            &&& is_simple_uuid(u)
            &&& op.kind == LocalClient::bet_kind_model("bet-"@ + u, "liam"@, "round-1"@, amount, kind)
            &&& merged_if_connected(d_after, d2)
            &&& result == Ok::<Seq<char>, Seq<char>>(bet_text(c1.replica_id@, amount, kind, op.op_id))
        }
}

/// A bet from replica `c` of the demo (A where `is_a`, else B): refused where the
/// client refuses it or it would overflow; placed and merged otherwise.
pub open spec fn bet_from(
    d1: FrontendDemo,
    d2: FrontendDemo,
    is_a: bool,
    amount: u64,
    kind: BetKind,
    result: Result<Seq<char>, Seq<char>>,
) -> bool {
    let c = if is_a {
        d1.a
    } else {
        d1.b
    };
    if c.bet_overflows("liam"@, "round-1"@, amount) {
        d2 == d1 && result == Err::<Seq<char>, Seq<char>>("arithmetic overflow"@)
    } else if c.bet_refusal("liam"@, "round-1"@, amount) is Some {
        d2 == d1 && result == Err::<Seq<char>, Seq<char>>(c.bet_refusal("liam"@, "round-1"@, amount)->0)
    } else {
        exists|c2: LocalClient|
            bet_by(
                c,
                c2,
                if is_a {
                    with_a(d1, c2)
                } else {
                    with_b(d1, c2)
                },
                d2,
                amount,
                kind,
                result,
            )
    }
}

/// The `bet` action: Liam bets `amount` (10 unless given) of kind `bet_kind` (odd
/// unless given) on round 1 from the named replica (A unless given).
pub open spec fn bet_placed(
    d1: FrontendDemo,
    d2: FrontendDemo,
    replica: Option<Seq<char>>,
    amount: Option<u64>,
    bet_kind: Option<Seq<char>>,
    result: Result<Seq<char>, Seq<char>>,
) -> bool {
    let r = match replica {
        Some(r) => r,
        None => "A"@,
    };
    let amount = match amount {
        Some(a) => a,
        None => 10,
    };
    let kind_text = match bet_kind {
        Some(k) => k,
        None => "odd"@,
    };
    match parse_bet_kind(kind_text) {
        Err(e) => d2 == d1 && result == Err::<Seq<char>, Seq<char>>(e),
        Ok(kind) => if r == "A"@ {
            bet_from(d1, d2, true, amount, kind, result)
        } else if r == "B"@ {
            bet_from(d1, d2, false, amount, kind, result)
        } else {
            d2 == d1 && result == Err::<Seq<char>, Seq<char>>("unknown replica "@ + r)
        },
    }
}

/// Round 1 is open for betting on client `c`.
pub open spec fn round_open(c: LocalClient) -> bool {
    c.state@.round_views.contains_key("round-1"@) && c.state@.round_views["round-1"@].phase
        == RoundPhase::BettingOpen
}

/// The `close-round` action: replica A closes betting on round 1, refused where it
/// is not open there, or where A's clock is full.
pub open spec fn round_closed(d1: FrontendDemo, d2: FrontendDemo, result: Result<Seq<char>, Seq<char>>) -> bool {
    if !round_open(d1.a) {
        d2 == d1 && result == Err::<Seq<char>, Seq<char>>(msg_not_open("round-1"@))
    } else if d1.a.clock@ == u64::MAX {
        d2 == d1 && result == Err::<Seq<char>, Seq<char>>("arithmetic overflow"@)
    } else {
        exists|a2: LocalClient, op: OpModel|
            #![trigger recorded_all(d1.a, a2, seq![op])]
            {
                &&& recorded_all(d1.a, a2, seq![op])
                &&& a2.wf()
                &&& op.kind == (KindModel::CloseBetting { round_id: "round-1"@ })
                &&& merged_if_connected(with_a(d1, a2), d2)
                &&& result == Ok::<Seq<char>, Seq<char>>("replica A closed betting ("@ + op.op_id + ")"@)
            }
    }
}

/// The `resolve-round` action: replica A resolves round 1 with `dice`, refused where
/// A refuses it or where it would overflow.
pub open spec fn round_resolved(
    d1: FrontendDemo,
    d2: FrontendDemo,
    dice: u8,
    result: Result<Seq<char>, Seq<char>>,
) -> bool {
    match d1.a.resolve_refusal("round-1"@, dice) {
        Some(e) => d2 == d1 && result == Err::<Seq<char>, Seq<char>>(e),
        None => if !d1.a.resolve_room("round-1"@, dice) {
            d2 == d1 && result == Err::<Seq<char>, Seq<char>>("arithmetic overflow"@)
        } else {
            exists|a2: LocalClient, ops: Seq<OpModel>|
                #![trigger recorded_all(d1.a, a2, ops)]
                {
                    &&& recorded_all(d1.a, a2, ops)
                    &&& a2.wf()
                    &&& ops.map_values(|o: OpModel| o.kind) == resolve_kinds(
                        "round-1"@,
                        dice,
                        d1.a.winners("round-1"@, dice),
                    )
                    &&& merged_if_connected(with_a(d1, a2), d2)
                    &&& result == Ok::<Seq<char>, Seq<char>>(
                        "replica A resolved round with dice "@ + decimal(dice as nat) + "; emitted "@ + decimal(
                            ops.len(),
                        ) + " operations"@,
                    )
                }
        },
    }
}

/// The outcome of an action, before its message is added.
pub open spec fn performed(
    d1: FrontendDemo,
    action: ActionRequest,
    d2: FrontendDemo,
    result: Result<Seq<char>, Seq<char>>,
) -> bool {
    let name = action.action@;
    let replica = match action.replica {
        Some(r) => Some(r@),
        None => None,
    };
    let bet_kind = match action.bet_kind {
        Some(k) => Some(k@),
        None => None,
    };
    if name == "reset"@ {
        just_reset(d2) && result == Ok::<Seq<char>, Seq<char>>("reset demo"@)
    } else if name == "sync"@ {
        merged(d1, d2) && result == if can_merge(d1) {
            Ok::<Seq<char>, Seq<char>>("merged operation logs between A and B"@)
        } else {
            Err::<Seq<char>, Seq<char>>("arithmetic overflow"@)
        }
    } else if name == "toggle-online"@ {
        toggled(d1, d2, replica, result)
    } else if name == "bet"@ {
        bet_placed(d1, d2, replica, action.amount, bet_kind, result)
    } else if name == "close-round"@ {
        round_closed(d1, d2, result)
    } else if name == "resolve-round"@ {
        round_resolved(
            d1,
            d2,
            match action.dice {
                Some(d) => d,
                None => 5,
            },
            result,
        )
    } else if name == "pn-failure"@ {
        d2 == (FrontendDemo { pn_failure_balance: failure_balance(), ..d1 }) && result == Ok::<
            Seq<char>,
            Seq<char>,
        >("PN-counter failure calculated"@)
    } else {
        d2 == d1 && result == Err::<Seq<char>, Seq<char>>("unknown action "@ + name)
    }
}

/// Liam's chips as a replica shows them (zero where they cannot be read).
pub open spec fn shown_balance(s: StateModel) -> i64 {
    if s.balances.contains_key("liam"@) && pn_value_defined(s.balances["liam"@]) {
        pn_value(s.balances["liam"@]) as i64
    } else {
        0
    }
}

/// Liam's rights on `replica` as a replica shows them (zero where they cannot be read).
pub open spec fn shown_rights(s: StateModel, replica: Seq<char>) -> i64 {
    if s.spending_rights.contains_key("liam"@) && available_result(s.spending_rights["liam"@], replica) is Some {
        available_result(s.spending_rights["liam"@], replica)->0 as i64
    } else {
        0
    }
}

/// `s` shows client `c`.
pub open spec fn client_shows(c: LocalClient, s: ClientSnapshot) -> bool {
    &&& s.replica_id@ == c.replica_id@
    &&& s.online == c.connected()
    &&& s.balance == shown_balance(c.state@)
    &&& s.rights_a == shown_rights(c.state@, "A"@)
    &&& s.rights_b == shown_rights(c.state@, "B"@)
    &&& s.operation_count == c.log@.len()
    &&& s.rejected_count == c.state@.rejected_operations.dom().len()
    &&& match s.round {
        Some(r) => c.state@.round_views.contains_key("round-1"@) && r.id@ == c.state@.round_views["round-1"@].id
            && r.phase == c.state@.round_views["round-1"@].phase && r.result == c.state@.round_views["round-1"@].result,
        None => !c.state@.round_views.contains_key("round-1"@),
    }
    &&& s.bets@.map_values(|b: Bet| b.deep_view()) == ordered::<Bet>(orset_elements(c.state@.bets))
}

/// `s` shows demo `d`: both replicas, whether their states are equal, the last
/// failure balance, and the messages newest first.
pub open spec fn shows(d: FrontendDemo, s: FrontendSnapshot) -> bool {
    &&& s.clients@.len() == 2
    &&& client_shows(d.a, s.clients@[0])
    &&& client_shows(d.b, s.clients@[1])
    &&& s.states_equal == (d.a.state@ == d.b.state@)
    &&& s.pn_failure_balance == d.pn_failure_balance
    &&& texts(s.messages@) == texts(d.messages@).reverse()
}

/// Whether `a` and `b` hold the same text.
fn same_text(a: &str, b: &str) -> (r: bool)
    ensures
        r == (a@ == b@),
{
    proof {
        lemma_text_lt_irreflexive(a@);
    }
    compare_text(a, b) == KeyOrder::Equal
}

/// `replica R placed N on K (ID)`.
fn bet_message(replica: &str, amount: u64, kind: BetKind, op_id: &str) -> (r: String)
    ensures
        r@ == bet_text(replica@, amount, kind, op_id@),
{
    proof {
        reveal_strlit("replica ");
        reveal_strlit(" placed ");
        reveal_strlit(" on ");
        reveal_strlit(" (");
        reveal_strlit(")");
    }
    let mut message = String::from_str("replica ");
    message.append(replica);
    message.append(" placed ");
    push_decimal(&mut message, amount);
    message.append(" on ");
    message.append(kind.as_text().as_str());
    message.append(" (");
    message.append(op_id);
    message.append(")");
    assert(message@ =~= bet_text(replica@, amount, kind, op_id@));
    message
}

/// How the page names a connection state.
pub fn online_label(online: bool) -> (r: &'static str)
    ensures
        r@ == online_text(online),
{
    if online {
        "online"
    } else {
        "offline"
    }
}

impl FrontendDemo {
    pub open spec fn wf(&self) -> bool {
        &&& self.a.wf()
        &&& self.b.wf()
        &&& self.a.replica_id@ == "A"@
        &&& self.b.replica_id@ == "B"@
        &&& self.messages@.len() <= message_limit()
    }

    pub fn new() -> (r: Self)
        ensures
            r.wf(),
            just_reset(r),
    {
        let mut demo = FrontendDemo {
            a: LocalClient::new("A"),
            b: LocalClient::new("B"),
            messages: Vec::new(),
            pn_failure_balance: None,
        };
        demo.reset();
        demo
    }

    /// Starts the demo over.
    fn reset(&mut self)
        ensures
            final(self).wf(),
            just_reset(*final(self)),
    {
        proof {
            reveal_strlit("BetSync Web Demo");
        }
        let (a, b) = split_table("BetSync Web Demo");
        self.a = a;
        self.b = b;
        self.messages = Vec::new();
        self.pn_failure_balance = None;
        proof {
            reveal_strlit("demo reset: Liam has 100 chips split as A:60 and B:40");
        }
        self.messages.push(String::from_str("demo reset: Liam has 100 chips split as A:60 and B:40"));
        assert(texts(self.messages@) =~= seq![reset_message()]);
    }

    /// Performs `action` and adds its outcome to the messages; the snapshot after.
    pub fn apply(&mut self, action: ActionRequest) -> (r: FrontendSnapshot)
        requires
            old(self).wf(),
        ensures
            final(self).wf(),
            exists|d: FrontendDemo, result: Result<Seq<char>, Seq<char>>|
                #![trigger performed(*old(self), action, d, result)]
                {
                    &&& performed(*old(self), action, d, result)
                    &&& final(self).a == d.a
                    &&& final(self).b == d.b
                    &&& final(self).pn_failure_balance == d.pn_failure_balance
                    &&& texts(final(self).messages@) == with_message(texts(d.messages@), outcome_text(result))
                },
            shows(*final(self), r),
    {
        let result = self.perform(&action);
        let ghost d = *self;
        let ghost res = outcome_view(result);
        let message = match result {
            Ok(m) => m,
            Err(e) => {
                proof {
                    reveal_strlit("rejected: ");
                }
                let mut m = String::from_str("rejected: ");
                m.append(e.as_str());
                m
            },
        };
        assert(message@ == outcome_text(res));
        let ghost before = self.messages@;
        self.messages.push(message);
        assert(texts(self.messages@) =~= texts(before).push(message@));
        self.trim_messages();
        self.snapshot()
    }

    /// Performs `action`: what it says, and the message for it.
    fn perform(&mut self, action: &ActionRequest) -> (r: Result<String, String>)
        requires
            old(self).wf(),
        ensures
            final(self).wf(),
            performed(
                *old(self),
                *action,
                *final(self),
                outcome_view(r),
            ),
    {
        proof {
            reveal_strlit("reset");
            reveal_strlit("sync");
            reveal_strlit("toggle-online");
            reveal_strlit("bet");
            reveal_strlit("close-round");
            reveal_strlit("resolve-round");
            reveal_strlit("pn-failure");
        }
        let name = action.action.as_str();
        if same_text(name, "reset") {
            self.reset();
            proof {
                reveal_strlit("reset demo");
            }
            Ok(String::from_str("reset demo"))
        } else if same_text(name, "sync") {
            if self.sync_all() {
                proof {
                    reveal_strlit("merged operation logs between A and B");
                }
                Ok(String::from_str("merged operation logs between A and B"))
            } else {
                proof {
                    reveal_strlit("arithmetic overflow");
                }
                Err(String::from_str("arithmetic overflow"))
            }
        } else if same_text(name, "toggle-online") {
            let replica = match &action.replica {
                Some(r) => Some(r.as_str()),
                None => None,
            };
            self.toggle_online(replica)
        } else if same_text(name, "bet") {
            self.place_bet(action)
        } else if same_text(name, "close-round") {
            self.close_round()
        } else if same_text(name, "resolve-round") {
            let dice = match action.dice {
                Some(d) => d,
                None => 5,
            };
            self.resolve_round(dice)
        } else if same_text(name, "pn-failure") {
            self.show_pn_failure();
            proof {
                reveal_strlit("PN-counter failure calculated");
            }
            Ok(String::from_str("PN-counter failure calculated"))
        } else {
            proof {
                reveal_strlit("unknown action ");
            }
            let mut message = String::from_str("unknown action ");
            message.append(name);
            Err(message)
        }
    }

    /// Takes a replica offline or back online, merging where both are then online.
    fn toggle_online(&mut self, replica_id: Option<&str>) -> (r: Result<String, String>)
        requires
            old(self).wf(),
        ensures
            final(self).wf(),
            toggled(
                *old(self),
                *final(self),
                match replica_id {
                    Some(s) => Some(s@),
                    None => None,
                },
                outcome_view(r),
            ),
    {
        proof {
            reveal_strlit("A");
            reveal_strlit("B");
        }
        let replica_id = match replica_id {
            Some(r) => r,
            None => {
                proof {
                    reveal_strlit("missing replica");
                }
                return Err(String::from_str("missing replica"));
            },
        };
        if same_text(replica_id, "A") {
            let online = !self.a.is_online();
            self.a.set_online(online);
            if online {
                self.sync_if_connected();
            }
            proof {
                reveal_strlit("replica A is ");
            }
            let mut message = String::from_str("replica A is ");
            message.append(online_label(online));
            Ok(message)
        } else if same_text(replica_id, "B") {
            let online = !self.b.is_online();
            self.b.set_online(online);
            if online {
                self.sync_if_connected();
            }
            proof {
                reveal_strlit("replica B is ");
            }
            let mut message = String::from_str("replica B is ");
            message.append(online_label(online));
            Ok(message)
        } else {
            proof {
                reveal_strlit("unknown replica ");
            }
            let mut message = String::from_str("unknown replica ");
            message.append(replica_id);
            Err(message)
        }
    }

    /// Liam bets on round 1 from the named replica (A unless given): `amount` chips
    /// (10 unless given) on `bet_kind` (odd unless given).
    fn place_bet(&mut self, action: &ActionRequest) -> (r: Result<String, String>)
        requires
            old(self).wf(),
        ensures
            final(self).wf(),
            bet_placed(
                *old(self),
                *final(self),
                match action.replica {
                    Some(s) => Some(s@),
                    None => None,
                },
                action.amount,
                match action.bet_kind {
                    Some(k) => Some(k@),
                    None => None,
                },
                outcome_view(r),
            ),
    {
        proof {
            reveal_strlit("A");
            reveal_strlit("B");
            reveal_strlit("odd");
        }
        let replica_id = match &action.replica {
            Some(r) => r.as_str(),
            None => "A",
        };
        let amount = match action.amount {
            Some(a) => a,
            None => 10,
        };
        let kind_text = match &action.bet_kind {
            Some(k) => k.as_str(),
            None => "odd",
        };
        let kind = match BetKind::parse(kind_text) {
            Ok(k) => k,
            Err(e) => return Err(e),
        };
        let ghost d1 = *self;
        if same_text(replica_id, "A") {
            let operation = match self.a.place_bet_checked("liam", "round-1", amount, kind) {
                Ok(operation) => operation,
                Err(e) => return Err(e),
            };
            let ghost d_after = *self;
            self.sync_if_connected();
            let message = bet_message("A", amount, kind, operation.op_id.as_str());
            proof {
                assert(d_after == with_a(d1, d_after.a));
                let u = choose|u: Seq<char>|
                    is_simple_uuid(u) && operation.deep_view().kind == #[trigger] LocalClient::bet_kind_model(
                        "bet-"@ + u,
                        "liam"@,
                        "round-1"@,
                        amount,
                        kind,
                    );
                assert(is_simple_uuid(u));
                assert(bet_by(d1.a, d_after.a, d_after, *self, amount, kind, Ok::<Seq<char>, Seq<char>>(message@)));
            }
            Ok(message)
        } else if same_text(replica_id, "B") {
            let operation = match self.b.place_bet_checked("liam", "round-1", amount, kind) {
                Ok(operation) => operation,
                Err(e) => return Err(e),
            };
            let ghost d_after = *self;
            self.sync_if_connected();
            let message = bet_message("B", amount, kind, operation.op_id.as_str());
            proof {
                assert(d_after == with_b(d1, d_after.b));
                let u = choose|u: Seq<char>|
                    is_simple_uuid(u) && operation.deep_view().kind == #[trigger] LocalClient::bet_kind_model(
                        "bet-"@ + u,
                        "liam"@,
                        "round-1"@,
                        amount,
                        kind,
                    );
                assert(is_simple_uuid(u));
                assert(bet_by(d1.b, d_after.b, d_after, *self, amount, kind, Ok::<Seq<char>, Seq<char>>(message@)));
            }
            Ok(message)
        } else {
            proof {
                reveal_strlit("unknown replica ");
            }
            let mut message = String::from_str("unknown replica ");
            message.append(replica_id);
            Err(message)
        }
    }

    /// Replica A closes betting on round 1.
    fn close_round(&mut self) -> (r: Result<String, String>)
        requires
            old(self).wf(),
        ensures
            final(self).wf(),
            round_closed(
                *old(self),
                *final(self),
                outcome_view(r),
            ),
    {
        if self.a.state.round_phase("round-1") == Some(RoundPhase::BettingOpen) && !self.a.clock_allows(1) {
            proof {
                reveal_strlit("arithmetic overflow");
            }
            return Err(String::from_str("arithmetic overflow"));
        }
        let ghost d1 = *self;
        let operation = match self.a.close_betting("round-1") {
            Ok(operation) => operation,
            Err(e) => return Err(e),
        };
        let ghost d_after = *self;
        self.sync_if_connected();
        proof {
            reveal_strlit("replica A closed betting (");
            reveal_strlit(")");
        }
        let mut message = String::from_str("replica A closed betting (");
        message.append(operation.op_id.as_str());
        message.append(")");
        proof {
            assert(d_after == with_a(d1, d_after.a));
        }
        Ok(message)
    }

    /// Replica A resolves round 1 with `dice`.
    fn resolve_round(&mut self, dice: u8) -> (r: Result<String, String>)
        requires
            old(self).wf(),
        ensures
            final(self).wf(),
            round_resolved(
                *old(self),
                *final(self),
                dice,
                outcome_view(r),
            ),
    {
        proof {
            reveal_strlit("round-1");
        }
        let fits = self.a.resolve_fits("round-1", dice);
        if !fits && 1 <= dice && dice <= 6 && self.a.state.round_phase("round-1") == Some(RoundPhase::BettingClosed) {
            proof {
                reveal_strlit("arithmetic overflow");
            }
            return Err(String::from_str("arithmetic overflow"));
        }
        let ghost d1 = *self;
        let operations = match self.a.resolve_round("round-1", dice) {
            Ok(operations) => operations,
            Err(e) => return Err(e),
        };
        let ghost d_after = *self;
        self.sync_if_connected();
        proof {
            reveal_strlit("replica A resolved round with dice ");
            reveal_strlit("; emitted ");
            reveal_strlit(" operations");
        }
        let mut message = String::from_str("replica A resolved round with dice ");
        push_decimal(&mut message, dice as u64);
        message.append("; emitted ");
        push_decimal(&mut message, operations.len() as u64);
        message.append(" operations");
        proof {
            assert(d_after == with_a(d1, d_after.a));
        }
        Ok(message)
    }

    /// Computes the double-spend failure of a plain counter: 100 chips, and 80 taken
    /// by each of two replicas that cannot see each other.
    fn show_pn_failure(&mut self)
        requires
            old(self).wf(),
        ensures
            final(self).wf(),
            *final(self) == (FrontendDemo { pn_failure_balance: failure_balance(), ..*old(self) }),
    {
        self.pn_failure_balance = pn_double_spend_balance();
    }

    /// Merges the replicas where both are online.
    fn sync_if_connected(&mut self)
        requires
            old(self).wf(),
        ensures
            final(self).wf(),
            merged_if_connected(*old(self), *final(self)),
    {
        if self.a.is_online() && self.b.is_online() {
            self.sync_all();
        }
    }

    /// Each replica takes in the other's log, where that is free of overflow;
    /// whether it was.
    fn sync_all(&mut self) -> (r: bool)
        requires
            old(self).wf(),
        ensures
            final(self).wf(),
            r == can_merge(*old(self)),
            merged(*old(self), *final(self)),
    {
        reveal(pulled);
        let a_operations = crate::client::client::copy_operations(&self.a.log.operations);
        let b_operations = crate::client::client::copy_operations(&self.b.log.operations);
        if !self.a.can_ingest_all(&b_operations) || !self.b.can_ingest_all(&a_operations) {
            return false;
        }
        self.a.ingest_many(b_operations);
        self.b.ingest_many(a_operations);
        true
    }

    /// What the page shows now.
    pub fn snapshot(&self) -> (r: FrontendSnapshot)
        requires
            self.wf(),
        ensures
            shows(*self, r),
    {
        let mut messages: Vec<String> = Vec::new();
        let n = self.messages.len();
        for k in 0..n
            invariant
                n == self.messages@.len(),
                texts(messages@) == texts(self.messages@).reverse().take(k as int),
        {
            let ghost before = messages@;
            let copy = self.messages[n - 1 - k].clone();
            messages.push(copy);
            proof {
                let t = texts(self.messages@);
                assert(t.reverse()[k as int] == t[n - 1 - k]);
                assert(texts(messages@) =~= texts(before).push(copy@));
                assert(texts(messages@) =~= t.reverse().take(k + 1));
            }
        }
        assert(texts(self.messages@).reverse().take(n as int) =~= texts(self.messages@).reverse());
        let clients = vec![client_snapshot(&self.a), client_snapshot(&self.b)];
        FrontendSnapshot {
            clients,
            states_equal: self.a.state.same_value(&self.b.state),
            pn_failure_balance: self.pn_failure_balance,
            messages,
        }
    }

    /// Keeps the latest messages only.
    fn trim_messages(&mut self)
        requires
            old(self).messages@.len() <= message_limit() + 1,
        ensures
            final(self).a == old(self).a,
            final(self).b == old(self).b,
            final(self).pn_failure_balance == old(self).pn_failure_balance,
            final(self).messages@.len() <= message_limit(),
            texts(final(self).messages@) == if old(self).messages@.len() > message_limit() {
                texts(old(self).messages@).skip(old(self).messages@.len() - message_limit())
            } else {
                texts(old(self).messages@)
            },
    {
        let n = self.messages.len();
        if n <= 8 {
            return;
        }
        let excess = n - 8;
        let mut kept: Vec<String> = Vec::new();
        for k in excess..n
            invariant
                n == self.messages@.len(),
                excess == n - 8,
                kept@.len() == k - excess,
                texts(kept@) == texts(self.messages@).subrange(excess as int, k as int),
        {
            kept.push(self.messages[k].clone());
            assert(texts(kept@) =~= texts(self.messages@).subrange(excess as int, k + 1));
        }
        assert(texts(self.messages@).subrange(excess as int, n as int) =~= texts(self.messages@).skip(excess as int));
        self.messages = kept;
    }
}

/// What the page shows of client `c`.
fn client_snapshot(c: &LocalClient) -> (r: ClientSnapshot)
    requires
        c.wf(),
    ensures
        client_shows(*c, r),
{
    let round = match c.state.round_views.get(&String::from_str("round-1")) {
        Some(round) => Some(RoundSnapshot { id: round.id.clone(), phase: round.phase, result: round.result }),
        None => None,
    };
    let visible = c.state.visible_bets();
    proof {
        visible.lemma_elems_ordered();
    }
    let mut bets: Vec<Bet> = Vec::new();
    let n = visible.len();
    for i in 0..n
        invariant
            n == visible.elems().len(),
            visible.wf(),
            bets@.map_values(|b: Bet| b.deep_view()) == visible.elems().take(i as int),
    {
        let ghost before = bets@;
        let copy = visible.element_at(i).duplicate();
        bets.push(copy);
        assert(bets@.map_values(|b: Bet| b.deep_view()) =~= before.map_values(|b: Bet| b.deep_view()).push(
            copy.deep_view(),
        ));
        assert(bets@.map_values(|b: Bet| b.deep_view()) =~= visible.elems().take(i + 1));
    }
    assert(visible.elems().take(n as int) =~= visible.elems());
    proof {
        c.state.rejected_operations.lemma_wf_view();
        c.state.rejected_operations.keys().unique_seq_to_set();
    }
    ClientSnapshot {
        replica_id: c.replica_id.clone(),
        online: c.is_online(),
        balance: shown_balance_of(c),
        rights_a: shown_rights_of(c, "A"),
        rights_b: shown_rights_of(c, "B"),
        operation_count: c.log.operations.len(),
        rejected_count: c.state.rejected_operations.len(),
        round,
        bets,
    }
}

fn shown_balance_of(c: &LocalClient) -> (r: i64)
    requires
        c.wf(),
    ensures
        r == shown_balance(c.state@),
{
    match c.state.balances.get(&String::from_str("liam")) {
        Some(counter) => match counter.checked_value() {
            Some(v) => v,
            None => 0,
        },
        None => 0,
    }
}

fn shown_rights_of(c: &LocalClient, replica: &str) -> (r: i64)
    requires
        c.wf(),
    ensures
        r == shown_rights(c.state@, replica@),
{
    match c.state.spending_rights.get(&String::from_str("liam")) {
        Some(counter) => match counter.checked_available(replica) {
            Some(v) => v,
            None => 0,
        },
        None => 0,
    }
}

/// What a request to the demo's web server asks for.
#[derive(Debug, Clone, Copy, PartialEq, Eq, Structural)]
pub enum Route {
    Index,
    Styles,
    Script,
    State,
    Action,
    NotFound,
}

/// The route of a request: the page, its style sheet and script, the state, or an
/// action.
pub open spec fn route_of(method: Seq<char>, url: Seq<char>) -> Route {
    if method == "GET"@ && (url == "/"@ || url == "/index.html"@) {
        Route::Index
    } else if method == "GET"@ && url == "/styles.css"@ {
        Route::Styles
    } else if method == "GET"@ && url == "/app.js"@ {
        Route::Script
    } else if method == "GET"@ && url == "/api/state"@ {
        Route::State
    } else if method == "POST"@ && url == "/api/action"@ {
        Route::Action
    } else {
        Route::NotFound
    }
}

/// Routes a request by its method and URL.
pub fn route(method: &str, url: &str) -> (r: Route)
    ensures
        r == route_of(method@, url@),
{
    let get = same_text(method, "GET");
    if get && (same_text(url, "/") || same_text(url, "/index.html")) {
        Route::Index
    } else if get && same_text(url, "/styles.css") {
        Route::Styles
    } else if get && same_text(url, "/app.js") {
        Route::Script
    } else if get && same_text(url, "/api/state") {
        Route::State
    } else if same_text(method, "POST") && same_text(url, "/api/action") {
        Route::Action
    } else {
        Route::NotFound
    }
}

} // verus!
