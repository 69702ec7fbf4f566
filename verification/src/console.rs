//! The interactive client: reads a command line, acts on the local replica, and says
//! what to print, which operations to send and what the terminal session does next.
use vstd::prelude::*;
use vstd::string::*;
use crate::client::client::{msg_not_open, recorded_all, resolve_kinds, LocalClient};
use crate::collections::{map_total, SortedMap};
use crate::crdt::bounded_counter::{available_result, known_replicas, total_spent_of};
use crate::crdt::pn_counter::{pn_value, pn_value_defined};
use crate::domain::bet::{ascii_lowercase, chars_of, digit_of, digits_value, is_digit, lower_char, parse_bet_kind, parse_u8, parse_u8_at, strip_plus};
use crate::domain::state::{active_round, empty_state};
use crate::domain::{BetKind, RoundPhase};
use crate::sync::operation::{is_simple_uuid, KindModel, OpModel};
use crate::sync::operation_log::{models, op_ids};
use crate::sync::Operation;
use crate::text::{compare_text, decimal, lemma_text_lt_irreflexive, push_decimal, push_signed_decimal, signed_decimal, Duplicate, KeyOrder};

verus! {

/// What the terminal session does after a command.
#[derive(Debug, Clone)]
pub enum Action {
    Continue,
    Help,
    Quit,
    Disconnect,
    Reconnect,
    ShowState,
    ShowLog,
    SimulateDoubleSpend,
    SimulateOfflineMerge,
    Fail(String),
}

/// The answer to a command: lines to print, operations to send, lines to print
/// after sending, and what the session does next.
#[derive(Debug, Clone)]
pub struct Reply {
    pub lines: Vec<String>,
    pub publish: Vec<Operation>,
    pub after: Vec<String>,
    pub action: Action,
}

/// A terminal session on one replica: the client, and the player and round that
/// commands default to.
#[derive(Debug)]
pub struct Console {
    client: LocalClient,
    current_player: Option<String>,
    current_round: Option<String>,
    server_configured: bool,
}

/// The words of a line as `str::split_whitespace` splits it.
pub uninterp spec fn whitespace_words(line: Seq<char>) -> Seq<Seq<char>>;

/// Calls `str::split_whitespace` and copies the words out. Claimed of each word: it
/// is not empty and holds no space, tab, carriage return or line feed (all of them
/// Unicode `White_Space`). Which words come back is not spelled out, since that
/// rests on the whole Unicode `White_Space` list: the words are named by
/// `whitespace_words`, a function of the line alone.
#[verifier::external_body]
fn split_words(line: &str) -> (r: Vec<String>)
    ensures
        texts(r@) == whitespace_words(line@),
        forall|i: int|
            0 <= i < r@.len() ==> (#[trigger] r@[i])@.len() > 0 && !r@[i]@.contains(' ') && !r@[i]@.contains('\t')
                && !r@[i]@.contains('\n') && !r@[i]@.contains('\r'),
{
    line.split_whitespace().map(|word| word.to_string()).collect()
}

/// The texts of a list of strings.
pub open spec fn texts(v: Seq<String>) -> Seq<Seq<char>> {
    v.map_values(|s: String| s@)
}

/// The text of an optional string.
pub open spec fn text_of(o: Option<String>) -> Option<Seq<char>> {
    match o {
        Some(s) => Some(s@),
        None => None,
    }
}

/// The `i`-th word, where there is one.
pub open spec fn word_at(words: Seq<Seq<char>>, i: int) -> Option<Seq<char>> {
    if 0 <= i < words.len() {
        Some(words[i])
    } else {
        None
    }
}

/// `a`, or else `b`.
pub open spec fn or_else(a: Option<Seq<char>>, b: Option<Seq<char>>) -> Option<Seq<char>> {
    match a {
        Some(x) => Some(x),
        None => b,
    }
}

/// Reading a `u64` as `str::parse` does: an optional `+`, then at least one
/// decimal digit, with a value that fits.
pub open spec fn parse_u64(s: Seq<char>) -> Option<u64> {
    let d = strip_plus(s);
    if d.len() > 0 && (forall|i: int| 0 <= i < d.len() ==> is_digit(#[trigger] d[i])) && digits_value(d)
        <= u64::MAX {
        Some(digits_value(d) as u64)
    } else {
        None
    }
}

/// The position of the first `:` in `s`.
pub open spec fn first_colon(s: Seq<char>) -> Option<int>
    decreases s.len(),
{
    if s.len() == 0 {
        None
    } else if s[0] == ':' {
        Some(0)
    } else {
        match first_colon(s.drop_first()) {
            Some(i) => Some(i + 1),
            None => None,
        }
    }
}

/// A position moved on by `k`.
pub open spec fn shifted(p: Option<int>, k: int) -> Option<int> {
    match p {
        Some(i) => Some(i + k),
        None => None,
    }
}

/// A rights entry `REPLICA:AMOUNT` as `str::split_once(':')` splits it.
pub open spec fn split_entry(s: Seq<char>) -> Option<(Seq<char>, Seq<char>)> {
    match first_colon(s) {
        Some(i) => Some((s.take(i), s.skip(i + 1))),
        None => None,
    }
}

/// What reading the entries of `join-split` gives: the rights per replica (a later
/// entry for a replica replaces an earlier one), how many entries were malformed,
/// and whether an amount could not be read (which stops the reading).
pub struct RightsRead {
    pub rights: Map<Seq<char>, u64>,
    pub malformed: nat,
    pub bad_amount: bool,
}

pub open spec fn read_rights(entries: Seq<Seq<char>>) -> RightsRead
    decreases entries.len(),
{
    if entries.len() == 0 {
        RightsRead { rights: Map::empty(), malformed: 0, bad_amount: false }
    } else {
        let prev = read_rights(entries.drop_last());
        if prev.bad_amount {
            prev
        } else {
            match split_entry(entries.last()) {
                None => RightsRead { malformed: prev.malformed + 1, ..prev },
                Some(parts) => match parse_u64(parts.1) {
                    None => RightsRead { bad_amount: true, ..prev },
                    Some(n) => RightsRead { rights: prev.rights.insert(parts.0, n), ..prev },
                },
            }
        }
    }
}

/// `n` copies of `line`.
pub open spec fn repeated(line: Seq<char>, n: nat) -> Seq<Seq<char>> {
    Seq::new(n, |i: int| line)
}

pub open spec fn malformed_entry_text() -> Seq<char> {
    "rights entry must look like A:60"@
}

/// The reply prints `lines` and does nothing else.
pub open spec fn says(r: Reply, lines: Seq<Seq<char>>) -> bool {
    &&& texts(r.lines@) == lines
    &&& r.publish@.len() == 0
    &&& r.after@.len() == 0
    &&& r.action == Action::Continue
}

/// The reply prints `lines`, then ends the session with the error `message`.
pub open spec fn fails(r: Reply, lines: Seq<Seq<char>>, message: Seq<char>) -> bool {
    &&& texts(r.lines@) == lines
    &&& r.publish@.len() == 0
    &&& r.after@.len() == 0
    &&& r.action matches Action::Fail(m) && m@ == message
}

/// The reply prints `lines`, then sends `ops`.
pub open spec fn publishes(r: Reply, lines: Seq<Seq<char>>, ops: Seq<OpModel>) -> bool {
    &&& texts(r.lines@) == lines
    &&& models(r.publish@) == ops
    &&& r.after@.len() == 0
    &&& r.action == Action::Continue
}

/// The reply only does `action`.
pub open spec fn acts(r: Reply, action: Action) -> bool {
    &&& r.lines@.len() == 0
    &&& r.publish@.len() == 0
    &&& r.after@.len() == 0
    &&& r.action == action
}

pub open spec fn overflow_text() -> Seq<char> {
    "arithmetic overflow"@
}

/// `player balance: N`.
pub open spec fn balance_text(player: Seq<char>, n: i64) -> Seq<char> {
    player + " balance: "@ + signed_decimal(n as int)
}

/// `player@replica: N rights`.
pub open spec fn rights_text(player: Seq<char>, replica: Seq<char>, n: int) -> Seq<char> {
    player + "@"@ + replica + ": "@ + signed_decimal(n) + " rights"@
}

/// `total spent: N`.
pub open spec fn spent_text(n: int) -> Seq<char> {
    "total spent: "@ + decimal(n as nat)
}

/// `round-N`, the default id of a new round.
pub open spec fn default_round_id(next: int) -> Seq<char> {
    "round-"@ + decimal(next as nat)
}

impl Console {
    pub closed spec fn client(&self) -> LocalClient {
        self.client
    }

    pub closed spec fn player(&self) -> Option<Seq<char>> {
        text_of(self.current_player)
    }

    pub closed spec fn round(&self) -> Option<Seq<char>> {
        text_of(self.current_round)
    }

    pub closed spec fn has_server(&self) -> bool {
        self.server_configured
    }

    pub open spec fn wf(&self) -> bool {
        self.client().wf()
    }

    /// The round a command names, or else the current one, or else the active one.
    pub open spec fn round_for(&self, words: Seq<Seq<char>>, i: int) -> Option<Seq<char>> {
        or_else(word_at(words, i), or_else(self.round(), active_round(self.client().state@)))
    }

    /// Liam's, or anyone's, chips as `balance` reads them.
    pub open spec fn balance_of(&self, player: Seq<char>) -> Option<i64> {
        let s = self.client().state@;
        if !s.balances.contains_key(player) {
            Some(0)
        } else if pn_value_defined(s.balances[player]) {
            Some(pn_value(s.balances[player]) as i64)
        } else {
            None
        }
    }

    /// What `rights` prints for `player`: a line per known replica with the rights
    /// left there, in replica order, and the total spent; `None` where a figure
    /// cannot be computed.
    pub open spec fn rights_report(&self, player: Seq<char>) -> Option<Seq<Seq<char>>> {
        let s = self.client().state@;
        if !s.spending_rights.contains_key(player) {
            Some(seq![player + " has no spending-right counter"@])
        } else {
            let m = s.spending_rights[player];
            let replicas = crate::collections::ordered::<String>(known_replicas(m));
            if (forall|i: int| 0 <= i < replicas.len() ==> #[trigger] available_result(m, replicas[i]) is Some)
                && total_spent_of(m) <= u64::MAX {
                Some(
                    Seq::new(replicas.len(), |i: int| rights_text(player, replicas[i], available_result(m, replicas[i])->0))
                        + seq![spent_text(total_spent_of(m))],
                )
            } else {
                None
            }
        }
    }
}

/// Whether `a` and `b` hold the same text.
fn same_text(a: &str, b: &str) -> (r: bool)
    ensures
        r == (a@ == b@),
{
    proof {
        lemma_text_lt_irreflexive(a@);
    }
    compare_text(a, b) == KeyOrder::Equal
}

/// The `i`-th word, where there is one.
fn word(words: &Vec<String>, i: usize) -> (r: Option<String>)
    ensures
        text_of(r) == word_at(texts(words@), i as int),
{
    if i < words.len() {
        Some(words[i].clone())
    } else {
        None
    }
}

/// The `i`-th word, or else `default`.
fn word_or(words: &Vec<String>, i: usize, default: &str) -> (r: String)
    ensures
        r@ == or_else(word_at(texts(words@), i as int), Some(default@))->0,
{
    if i < words.len() {
        words[i].clone()
    } else {
        default.to_owned()
    }
}

fn text_vec(line: String) -> (r: Vec<String>)
    ensures
        texts(r@) == seq![line@],
{
    let r = vec![line];
    assert(texts(r@) =~= seq![line@]);
    r
}

/// No lines.
fn no_lines() -> (r: Vec<String>)
    ensures
        texts(r@) == Seq::<Seq<char>>::empty(),
{
    let r: Vec<String> = Vec::new();
    assert(texts(r@) =~= Seq::<Seq<char>>::empty());
    r
}

/// A reply that prints one line.
fn say(line: String) -> (r: Reply)
    ensures
        says(r, seq![line@]),
{
    Reply { lines: text_vec(line), publish: Vec::new(), after: Vec::new(), action: Action::Continue }
}

/// A reply that prints a fixed line.
fn say_text(line: &str) -> (r: Reply)
    ensures
        says(r, seq![line@]),
{
    say(line.to_owned())
}

/// A reply that only does `action`.
fn act(action: Action) -> (r: Reply)
    ensures
        acts(r, action),
{
    Reply { lines: Vec::new(), publish: Vec::new(), after: Vec::new(), action }
}

/// A reply that prints `lines` and ends the session with `message`.
fn fail(lines: Vec<String>, message: &str) -> (r: Reply)
    ensures
        fails(r, texts(lines@), message@),
{
    Reply { lines, publish: Vec::new(), after: Vec::new(), action: Action::Fail(message.to_owned()) }
}

/// A reply that prints `lines` and sends `ops`.
fn publish(lines: Vec<String>, ops: Vec<Operation>) -> (r: Reply)
    ensures
        publishes(r, texts(lines@), models(ops@)),
{
    Reply { lines, publish: ops, after: Vec::new(), action: Action::Continue }
}

/// `prefix` followed by `rest`.
fn joined(prefix: &str, rest: &str) -> (r: String)
    ensures
        r@ == prefix@ + rest@,
{
    let mut s = prefix.to_owned();
    s.append(rest);
    s
}

proof fn lemma_digits_prefix(d: Seq<char>, k: int)
    requires
        0 <= k <= d.len(),
        forall|i: int| 0 <= i < d.len() ==> is_digit(#[trigger] d[i]),
    ensures
        digits_value(d.take(k)) <= digits_value(d),
    decreases d.len() - k,
{
    if k < d.len() {
        lemma_digits_prefix(d, k + 1);
        assert(d.take(k + 1).drop_last() =~= d.take(k));
    } else {
        assert(d.take(k) =~= d);
    }
}

/// Reads a `u64` as `str::parse` does.
pub fn read_u64(s: &str) -> (r: Option<u64>)
    ensures
        r == parse_u64(s@),
{
    let v = chars_of(s);
    let n = v.len();
    let start: usize = if n > 0 && v[0] == '+' {
        1
    } else {
        0
    };
    let ghost d = strip_plus(s@);
    assert(d =~= v@.skip(start as int));
    if start == n {
        return None;
    }
    let mut acc: u64 = 0;
    for i in start..n
        invariant
            n == v@.len(),
            start <= n,
            d == v@.skip(start as int),
            d == strip_plus(s@),
            acc == digits_value(d.take(i - start)),
            forall|j: int| 0 <= j < i - start ==> is_digit(#[trigger] d[j]),
    {
        assert(d[i - start] == v@[i as int]);
        let digit = match digit_of(v[i]) {
            Some(x) => x,
            None => {
                assert(!is_digit(d[i - start]));
                return None;
            },
        };
        proof {
            assert(d.take(i - start + 1).drop_last() =~= d.take(i - start));
            assert(d.take(i - start + 1).last() == d[i - start]);
        }
        if acc > (u64::MAX - digit as u64) / 10 {
            proof {
                assert(digits_value(d.take(i - start + 1)) > u64::MAX) by (nonlinear_arith)
                    requires
                        acc > (u64::MAX - digit as u64) / 10,
                        digits_value(d.take(i - start + 1)) == acc * 10 + digit as nat,
                        digit <= 9,
                ;
                if forall|j: int| 0 <= j < d.len() ==> is_digit(#[trigger] d[j]) {
                    lemma_digits_prefix(d, i - start + 1);
                }
            }
            return None;
        }
        acc = acc * 10 + digit as u64;
    }
    assert(d.take(n - start) =~= d);
    Some(acc)
}

/// Reads a `u8` as `str::parse` does.
fn read_u8(s: &str) -> (r: Option<u8>)
    ensures
        r == parse_u8(s@),
{
    let v = chars_of(s);
    assert(v@.skip(0) =~= v@);
    parse_u8_at(&v, 0)
}

/// Splits a rights entry at its first `:`.
fn split_at_colon(s: &str) -> (r: Option<(String, String)>)
    ensures
        match r {
            Some(parts) => split_entry(s@) == Some((parts.0@, parts.1@)),
            None => split_entry(s@) is None,
        },
{
    let n = s.unicode_len();
    assert(s@.skip(0) =~= s@);
    for i in 0..n
        invariant
            n == s@.len(),
            forall|j: int| 0 <= j < i ==> s@[j] != ':',
            first_colon(s@) == shifted(first_colon(s@.skip(i as int)), i as int),
    {
        proof {
            assert(s@.skip(i as int).drop_first() =~= s@.skip(i + 1));
            assert(s@.skip(i as int)[0] == s@[i as int]);
        }
        if s.get_char(i) == ':' {
            let left = s.substring_char(0, i).to_owned();
            let right = s.substring_char(i + 1, n).to_owned();
            assert(left@ =~= s@.take(i as int));
            assert(right@ =~= s@.skip(i + 1));
            return Some((left, right));
        }
    }
    assert(s@.skip(n as int) =~= Seq::<char>::empty());
    None
}

/// The player, round and server setting are kept.
pub open spec fn same_context(c1: Console, c2: Console) -> bool {
    &&& c2.player() == c1.player()
    &&& c2.round() == c1.round()
    &&& c2.has_server() == c1.has_server()
}

/// The reply sends one operation, recorded by the client of `c1` to give that of
/// `c2`, of kind `kind`.
pub open spec fn records_one(c1: Console, c2: Console, r: Reply, lines: Seq<Seq<char>>, kind: KindModel) -> bool {
    &&& c2.wf()
    &&& publishes(r, lines, models(r.publish@))
    &&& models(r.publish@).len() == 1
    &&& recorded_all(c1.client(), c2.client(), models(r.publish@))
    &&& models(r.publish@)[0].kind == kind
}

impl Console {
    /// `create-table [name]`: records the table's name (`BetSync Table` unless given).
    pub open spec fn create_table_done(c1: Console, c2: Console, w: Seq<Seq<char>>, r: Reply) -> bool {
        let name = or_else(word_at(w, 1), Some("BetSync Table"@))->0;
        if c1.client().clock@ == u64::MAX {
            c2 == c1 && fails(r, seq![], overflow_text())
        } else {
            same_context(c1, c2) && records_one(
                c1,
                c2,
                r,
                seq![],
                KindModel::CreateTable { table_id: "main"@, name },
            )
        }
    }

    /// `join [display_name] [player_id]`: records the player joining with 100 chips,
    /// all of them rights of this replica, and makes the player current. The display
    /// name is `Player` unless given, the id the display name in lower case.
    pub open spec fn join_done(c1: Console, c2: Console, w: Seq<Seq<char>>, r: Reply) -> bool {
        let display = or_else(word_at(w, 1), Some("Player"@))->0;
        let player = or_else(word_at(w, 2), Some(display.map_values(|c: char| lower_char(c))))->0;
        if !c1.client().join_room(player, 100) {
            c2 == c1 && fails(r, seq![], overflow_text())
        } else {
            &&& c2.player() == Some(player)
            &&& c2.round() == c1.round()
            &&& c2.has_server() == c1.has_server()
            &&& records_one(
                c1,
                c2,
                r,
                seq![],
                KindModel::JoinTable {
                    table_id: "main"@,
                    player_id: player,
                    display_name: display,
                    starting_chips: 100,
                    initial_rights: map![c1.client().replica_id@ => 100u64],
                },
            )
        }
    }

    /// `join-split <player_id> <display_name> <replica:rights>...`: records the
    /// player joining with the sum of the rights as chips, split as given; a
    /// malformed entry is reported and skipped, an unreadable amount ends the session.
    pub open spec fn join_split_done(c1: Console, c2: Console, w: Seq<Seq<char>>, r: Reply) -> bool {
        if w.len() < 5 {
            c2 == c1 && says(r, seq!["usage: join-split <player_id> <display_name> <replica:rights>..."@])
        } else {
            let player = w[1];
            let display = w[2];
            let read = read_rights(w.skip(3));
            let warnings = repeated(malformed_entry_text(), read.malformed);
            let total = map_total::<String>(read.rights);
            if read.bad_amount {
                c2 == c1 && fails(r, warnings, "parse rights amount"@)
            } else if total > u64::MAX || !c1.client().join_room(player, total as u64) {
                c2 == c1 && fails(r, warnings, overflow_text())
            } else {
                &&& c2.player() == Some(player)
                &&& c2.round() == c1.round()
                &&& c2.has_server() == c1.has_server()
                &&& records_one(
                    c1,
                    c2,
                    r,
                    warnings,
                    KindModel::JoinTable {
                        table_id: "main"@,
                        player_id: player,
                        display_name: display,
                        starting_chips: total as u64,
                        initial_rights: read.rights,
                    },
                )
            }
        }
    }

    /// `start-round [round_id]`: records creating and opening the round (`round-N`
    /// for the next Lamport time unless given), dealt by the current player or else
    /// this replica, and makes it current.
    pub open spec fn start_round_done(c1: Console, c2: Console, w: Seq<Seq<char>>, r: Reply) -> bool {
        if c1.client().clock@ + 2 > u64::MAX {
            c2 == c1 && fails(r, seq![], overflow_text())
        } else {
            let round = or_else(word_at(w, 1), Some(default_round_id(c1.client().clock@ + 1)))->0;
            let dealer = or_else(c1.player(), Some(c1.client().replica_id@))->0;
            let ops = models(r.publish@);
            &&& c2.wf()
            &&& c2.player() == c1.player()
            &&& c2.round() == Some(round)
            &&& c2.has_server() == c1.has_server()
            &&& publishes(r, seq![], ops)
            &&& ops.len() == 2
            &&& recorded_all(c1.client(), c2.client(), ops)
            &&& ops[0].kind == (KindModel::CreateRound { round_id: round, dealer_id: dealer })
            &&& ops[1].kind == (KindModel::OpenBetting { round_id: round })
        }
    }

    /// `bet <kind> <amount> [player_id] [round_id]`: places the bet for the named or
    /// current player on the named, current or active round.
    pub open spec fn bet_done(c1: Console, c2: Console, w: Seq<Seq<char>>, r: Reply) -> bool {
        if w.len() < 3 {
            c2 == c1 && says(r, seq!["usage: bet <odd|even|high|low|exactN> <amount> [player_id] [round_id]"@])
        } else {
            match parse_bet_kind(w[1]) {
                Err(e) => c2 == c1 && fails(r, seq![], e),
                Ok(kind) => match parse_u64(w[2]) {
                    None => c2 == c1 && fails(r, seq![], "parse bet amount"@),
                    Some(amount) => match or_else(word_at(w, 3), c1.player()) {
                        None => c2 == c1 && says(r, seq!["join first or pass player_id"@]),
                        Some(player) => match c1.round_for(w, 4) {
                            None => c2 == c1 && says(r, seq!["start a round first or pass round_id"@]),
                            Some(round) => if c1.client().bet_overflows(player, round, amount) {
                                c2 == c1 && says(r, seq!["bet rejected: "@ + overflow_text()])
                            } else if c1.client().bet_refusal(player, round, amount) is Some {
                                c2 == c1 && says(
                                    r,
                                    seq!["bet rejected: "@ + c1.client().bet_refusal(player, round, amount)->0],
                                )
                            } else {
                                &&& same_context(c1, c2)
                                &&& c2.wf()
                                &&& publishes(r, seq![], models(r.publish@))
                                &&& models(r.publish@).len() == 1
                                &&& recorded_all(c1.client(), c2.client(), models(r.publish@))
                                &&& exists|u: Seq<char>|
                                    is_simple_uuid(u) && models(r.publish@)[0].kind
                                        == #[trigger] LocalClient::bet_kind_model(
                                        "bet-"@ + u,
                                        player,
                                        round,
                                        amount,
                                        kind,
                                    )
                            },
                        },
                    },
                },
            }
        }
    }

    /// `close-round [round_id]`: closes betting on the named, current or active round.
    pub open spec fn close_done(c1: Console, c2: Console, w: Seq<Seq<char>>, r: Reply) -> bool {
        match c1.round_for(w, 1) {
            None => c2 == c1 && says(r, seq!["usage: close-round [round_id]"@]),
            Some(round) => if !(c1.client().state@.round_views.contains_key(round)
                && c1.client().state@.round_views[round].phase == RoundPhase::BettingOpen) {
                c2 == c1 && says(r, seq!["close rejected: "@ + msg_not_open(round)])
            } else if c1.client().clock@ == u64::MAX {
                c2 == c1 && says(r, seq!["close rejected: "@ + overflow_text()])
            } else {
                same_context(c1, c2) && records_one(c1, c2, r, seq![], KindModel::CloseBetting { round_id: round })
            },
        }
    }

    /// `resolve <dice> [round_id]`: resolves the named, current or active round and
    /// pays the winners.
    pub open spec fn resolve_done(c1: Console, c2: Console, w: Seq<Seq<char>>, r: Reply) -> bool {
        if w.len() < 2 {
            c2 == c1 && says(r, seq!["usage: resolve <dice 1-6> [round_id]"@])
        } else {
            match parse_u8(w[1]) {
                None => c2 == c1 && fails(r, seq![], "parse dice result"@),
                Some(dice) => match c1.round_for(w, 2) {
                    None => c2 == c1 && says(r, seq!["usage: resolve <dice 1-6> [round_id]"@]),
                    Some(round) => match c1.client().resolve_refusal(round, dice) {
                        Some(e) => c2 == c1 && says(r, seq!["resolve rejected: "@ + e]),
                        None => if !c1.client().resolve_room(round, dice) {
                            c2 == c1 && says(r, seq!["resolve rejected: "@ + overflow_text()])
                        } else {
                            &&& same_context(c1, c2)
                            &&& c2.wf()
                            &&& publishes(r, seq![], models(r.publish@))
                            &&& recorded_all(c1.client(), c2.client(), models(r.publish@))
                            &&& models(r.publish@).map_values(|o: OpModel| o.kind) == resolve_kinds(
                                round,
                                dice,
                                c1.client().winners(round, dice),
                            )
                        },
                    },
                },
            }
        }
    }

    /// `transfer-rights <player_id> <to_replica> <amount>`: moves rights from this
    /// replica.
    pub open spec fn transfer_done(c1: Console, c2: Console, w: Seq<Seq<char>>, r: Reply) -> bool {
        if w.len() < 4 {
            c2 == c1 && says(r, seq!["usage: transfer-rights <player_id> <to_replica> <amount>"@])
        } else {
            match parse_u64(w[3]) {
                None => c2 == c1 && fails(r, seq![], "parse rights amount"@),
                Some(amount) => {
                    let client = c1.client();
                    if !client.transfer_room(w[1]) {
                        c2 == c1 && says(r, seq!["transfer rejected: "@ + overflow_text()])
                    } else if crate::client::client::rights_in(client.state@, w[1], client.replica_id@)
                        < amount as i64 {
                        c2 == c1 && says(
                            r,
                            seq![
                                "transfer rejected: "@ + crate::client::client::msg_insufficient(
                                    client.replica_id@,
                                    crate::client::client::rights_in(client.state@, w[1], client.replica_id@),
                                    amount,
                                ),
                            ],
                        )
                    } else {
                        same_context(c1, c2) && records_one(
                            c1,
                            c2,
                            r,
                            seq![],
                            KindModel::TransferSpendingRights {
                                player_id: w[1],
                                from_replica: client.replica_id@,
                                to_replica: w[2],
                                amount,
                            },
                        )
                    }
                },
            }
        }
    }

    /// `balance [player_id]`: the named or current player's chips.
    pub open spec fn balance_done(c1: Console, c2: Console, w: Seq<Seq<char>>, r: Reply) -> bool {
        c2 == c1 && match or_else(word_at(w, 1), c1.player()) {
            None => says(r, seq!["usage: balance [player_id]"@]),
            Some(player) => match c1.balance_of(player) {
                Some(n) => says(r, seq![balance_text(player, n)]),
                None => fails(r, seq![], overflow_text()),
            },
        }
    }

    /// `rights [player_id]`: the named or current player's rights per replica.
    pub open spec fn rights_done(c1: Console, c2: Console, w: Seq<Seq<char>>, r: Reply) -> bool {
        c2 == c1 && match or_else(word_at(w, 1), c1.player()) {
            None => says(r, seq!["usage: rights [player_id]"@]),
            Some(player) => match c1.rights_report(player) {
                Some(lines) => says(r, lines),
                None => fails(r, seq![], overflow_text()),
            },
        }
    }

    /// `resend <op_id>`: sends a logged operation again.
    pub open spec fn resend_done(c1: Console, c2: Console, w: Seq<Seq<char>>, r: Reply) -> bool {
        c2 == c1 && match word_at(w, 1) {
            None => says(r, seq!["usage: resend <op_id>"@]),
            Some(id) => if !op_ids(c1.client().log@).contains(id) {
                says(r, seq!["unknown operation "@ + id])
            } else {
                &&& r.lines@.len() == 0
                &&& models(r.publish@).len() == 1
                &&& c1.client().log@.contains(models(r.publish@)[0])
                &&& models(r.publish@)[0].op_id == id
                &&& texts(r.after@) == seq!["resent "@ + id]
                &&& r.action == Action::Continue
            },
        }
    }

    /// What a command line does, by its first word.
    pub open spec fn command_done(c1: Console, c2: Console, w: Seq<Seq<char>>, r: Reply) -> bool {
        if w.len() == 0 {
            c2 == c1 && acts(r, Action::Continue)
        } else {
            let cmd = w[0];
            if cmd == "help"@ {
                c2 == c1 && acts(r, Action::Help)
            } else if cmd == "quit"@ || cmd == "exit"@ {
                c2 == c1 && acts(r, Action::Quit)
            } else if cmd == "offline"@ {
                &&& c2.wf()
                &&& c2.client() == (LocalClient { online: false, ..c1.client() })
                &&& same_context(c1, c2)
                &&& texts(r.lines@) == seq!["offline mode enabled"@]
                &&& r.publish@.len() == 0
                &&& r.after@.len() == 0
                &&& r.action == Action::Disconnect
            } else if cmd == "online"@ {
                c2 == c1 && if c1.has_server() {
                    acts(r, Action::Reconnect)
                } else {
                    says(r, seq!["no --server was configured"@])
                }
            } else if cmd == "create-table"@ {
                Self::create_table_done(c1, c2, w, r)
            } else if cmd == "join"@ {
                Self::join_done(c1, c2, w, r)
            } else if cmd == "join-split"@ {
                Self::join_split_done(c1, c2, w, r)
            } else if cmd == "start-round"@ {
                Self::start_round_done(c1, c2, w, r)
            } else if cmd == "bet"@ {
                Self::bet_done(c1, c2, w, r)
            } else if cmd == "close-round"@ {
                Self::close_done(c1, c2, w, r)
            } else if cmd == "resolve"@ {
                Self::resolve_done(c1, c2, w, r)
            } else if cmd == "transfer-rights"@ {
                Self::transfer_done(c1, c2, w, r)
            } else if cmd == "balance"@ {
                Self::balance_done(c1, c2, w, r)
            } else if cmd == "rights"@ {
                Self::rights_done(c1, c2, w, r)
            } else if cmd == "state"@ || cmd == "show-state"@ {
                c2 == c1 && acts(r, Action::ShowState)
            } else if cmd == "log"@ || cmd == "show-log"@ {
                c2 == c1 && acts(r, Action::ShowLog)
            } else if cmd == "resend"@ {
                Self::resend_done(c1, c2, w, r)
            } else if cmd == "simulate-double-spend"@ {
                c2 == c1 && acts(r, Action::SimulateDoubleSpend)
            } else if cmd == "simulate-offline-merge"@ {
                c2 == c1 && acts(r, Action::SimulateOfflineMerge)
            } else {
                c2 == c1 && says(r, seq!["unknown command "@ + cmd + "; try help"@])
            }
        }
    }
}

impl Console {
    /// A session on replica `replica_id`; `server_configured` says whether a server
    /// address was given.
    pub fn new(replica_id: &str, server_configured: bool) -> (r: Console)
        ensures
            r.wf(),
            r.client().replica_id@ == replica_id@,
            r.client().log@ == Seq::<OpModel>::empty(),
            r.client().clock@ == 0,
            r.client().unsynced() == Seq::<OpModel>::empty(),
            r.client().state@ == empty_state(),
            r.client().connected(),
            r.player() is None,
            r.round() is None,
            r.has_server() == server_configured,
    {
        Console {
            client: LocalClient::new(replica_id),
            current_player: None,
            current_round: None,
            server_configured,
        }
    }

    /// The session's replica.
    pub fn replica(&self) -> (r: &LocalClient)
        ensures
            *r == self.client(),
    {
        &self.client
    }

    /// Marks the replica offline, as when no server can be reached.
    pub fn go_offline(&mut self)
        requires
            old(self).wf(),
        ensures
            final(self).wf(),
            final(self).client() == (LocalClient { online: false, ..old(self).client() }),
            same_context(*old(self), *final(self)),
    {
        self.client.set_online(false);
    }

    /// A new connection is up: the replica is online again, and the operations it
    /// queued while offline are handed over to be sent, with a line saying how many.
    pub fn reconnected(&mut self) -> (r: (Vec<Operation>, String))
        requires
            old(self).wf(),
        ensures
            final(self).wf(),
            same_context(*old(self), *final(self)),
            final(self).client().connected(),
            final(self).client().log == old(self).client().log,
            final(self).client().state == old(self).client().state,
            final(self).client().clock == old(self).client().clock,
            final(self).client().unsynced() == Seq::<OpModel>::empty(),
            models(r.0@) == old(self).client().unsynced(),
            r.1@ == "online; sent "@ + decimal(r.0@.len()) + " queued operations"@,
    {
        self.client.set_online(true);
        let queued = self.client.take_unsynced();
        proof {
            reveal_strlit("online; sent ");
            reveal_strlit(" queued operations");
        }
        let mut line = String::from_str("online; sent ");
        push_decimal(&mut line, queued.len() as u64);
        line.append(" queued operations");
        (queued, line)
    }

    /// Reconnecting failed: the replica stays offline, with a line saying why.
    pub fn reconnect_failed(&mut self, error: &str) -> (r: String)
        requires
            old(self).wf(),
        ensures
            final(self).wf(),
            final(self).client() == (LocalClient { online: false, ..old(self).client() }),
            same_context(*old(self), *final(self)),
            r@ == "could not reconnect: "@ + error@,
    {
        self.client.set_online(false);
        proof {
            reveal_strlit("could not reconnect: ");
        }
        joined("could not reconnect: ", error)
    }

    /// Sending `operation` failed: it is queued for the next connection (where it is
    /// well formed) and the replica goes offline.
    pub fn send_failed(&mut self, operation: Operation)
        requires
            old(self).wf(),
        ensures
            final(self).wf(),
            same_context(*old(self), *final(self)),
            !final(self).client().connected(),
            final(self).client().log == old(self).client().log,
            final(self).client().state == old(self).client().state,
            final(self).client().unsynced() == if operation.wf() {
                crate::sync::operation_log::log_insert_all(old(self).client().unsynced(), seq![operation.deep_view()]).0
            } else {
                old(self).client().unsynced()
            },
    {
        if operation.is_well_formed() {
            self.client.queue_unsynced(operation);
        }
        self.client.set_online(false);
    }

    /// Takes in an operation from the server, where it is well formed and taking it
    /// in is free of overflow; whether it was new to the log.
    pub fn receive(&mut self, operation: Operation) -> (taken: bool)
        requires
            old(self).wf(),
        ensures
            final(self).wf(),
            same_context(*old(self), *final(self)),
            if operation.wf() && (!op_ids(old(self).client().log@).contains(operation.deep_view().op_id)
                ==> crate::domain::state::rebuild_ok(old(self).client().log@.push(operation.deep_view()))) {
                &&& taken == !op_ids(old(self).client().log@).contains(operation.deep_view().op_id)
                &&& final(self).client().log@ == crate::sync::operation_log::log_insert_all(
                    old(self).client().log@,
                    seq![operation.deep_view()],
                ).0
                &&& final(self).client().clock@ == crate::client::client::latest_time(
                    old(self).client().clock@,
                    seq![operation.deep_view()],
                )
                &&& final(self).client().replica_id == old(self).client().replica_id
                &&& final(self).client().connected() == old(self).client().connected()
                &&& final(self).client().unsynced() == old(self).client().unsynced()
            } else {
                !taken && *final(self) == *old(self)
            },
    {
        if !operation.is_well_formed() || !self.client.can_ingest(&operation) {
            return false;
        }
        self.client.ingest(operation)
    }

    /// Reads a command line and acts on it; see `command_done`.
    pub fn execute(&mut self, line: &str) -> (r: Reply)
        requires
            old(self).wf(),
        ensures
            final(self).wf(),
            Self::command_done(*old(self), *final(self), whitespace_words(line@), r),
    {
        let words = split_words(line);
        self.execute_words(&words)
    }

    /// Acts on the words of a command line; see `command_done`.
    pub fn execute_words(&mut self, words: &Vec<String>) -> (r: Reply)
        requires
            old(self).wf(),
        ensures
            final(self).wf(),
            Self::command_done(*old(self), *final(self), texts(words@), r),
    {
        if words.len() == 0 {
            return act(Action::Continue);
        }
        proof {
            reveal_strlit("help");
            reveal_strlit("quit");
            reveal_strlit("exit");
            reveal_strlit("offline");
            reveal_strlit("online");
            reveal_strlit("create-table");
            reveal_strlit("join");
            reveal_strlit("join-split");
            reveal_strlit("start-round");
            reveal_strlit("bet");
            reveal_strlit("close-round");
            reveal_strlit("resolve");
            reveal_strlit("transfer-rights");
            reveal_strlit("balance");
            reveal_strlit("rights");
            reveal_strlit("state");
            reveal_strlit("show-state");
            reveal_strlit("log");
            reveal_strlit("show-log");
            reveal_strlit("resend");
            reveal_strlit("simulate-double-spend");
            reveal_strlit("simulate-offline-merge");
        }
        let cmd = words[0].as_str();
        assert(cmd@ == texts(words@)[0]);
        if same_text(cmd, "help") {
            act(Action::Help)
        } else if same_text(cmd, "quit") || same_text(cmd, "exit") {
            act(Action::Quit)
        } else if same_text(cmd, "offline") {
            self.client.set_online(false);
            proof {
                reveal_strlit("offline mode enabled");
            }
            Reply {
                lines: text_vec(String::from_str("offline mode enabled")),
                publish: Vec::new(),
                after: Vec::new(),
                action: Action::Disconnect,
            }
        } else if same_text(cmd, "online") {
            if self.server_configured {
                act(Action::Reconnect)
            } else {
                proof {
                    reveal_strlit("no --server was configured");
                }
                say_text("no --server was configured")
            }
        } else if same_text(cmd, "create-table") {
            self.create_table_command(words)
        } else if same_text(cmd, "join") {
            self.join_command(words)
        } else if same_text(cmd, "join-split") {
            self.join_split_command(words)
        } else if same_text(cmd, "start-round") {
            self.start_round_command(words)
        } else if same_text(cmd, "bet") {
            self.bet_command(words)
        } else if same_text(cmd, "close-round") {
            self.close_command(words)
        } else if same_text(cmd, "resolve") {
            self.resolve_command(words)
        } else if same_text(cmd, "transfer-rights") {
            self.transfer_command(words)
        } else if same_text(cmd, "balance") {
            self.balance_command(words)
        } else if same_text(cmd, "rights") {
            self.rights_command(words)
        } else if same_text(cmd, "state") || same_text(cmd, "show-state") {
            act(Action::ShowState)
        } else if same_text(cmd, "log") || same_text(cmd, "show-log") {
            act(Action::ShowLog)
        } else if same_text(cmd, "resend") {
            self.resend_command(words)
        } else if same_text(cmd, "simulate-double-spend") {
            act(Action::SimulateDoubleSpend)
        } else if same_text(cmd, "simulate-offline-merge") {
            act(Action::SimulateOfflineMerge)
        } else {
            proof {
                reveal_strlit("unknown command ");
                reveal_strlit("; try help");
            }
            let mut line = String::from_str("unknown command ");
            line.append(cmd);
            line.append("; try help");
            say(line)
        }
    }

    fn overflow() -> (r: Reply)
        ensures
            fails(r, seq![], overflow_text()),
    {
        proof {
            reveal_strlit("arithmetic overflow");
        }
                fail(no_lines(), "arithmetic overflow")
    }

    fn create_table_command(&mut self, words: &Vec<String>) -> (r: Reply)
        requires
            old(self).wf(),
        ensures
            final(self).wf(),
            Self::create_table_done(*old(self), *final(self), texts(words@), r),
    {
        proof {
            reveal_strlit("BetSync Table");
        }
        let name = word_or(words, 1, "BetSync Table");
        if !self.client.clock_allows(1) {
            return Self::overflow();
        }
        let op = self.client.create_table(name.as_str());
                let ops = vec![op];
        assert(models(ops@) =~= seq![op.deep_view()]);
        publish(no_lines(), ops)
    }

    fn join_command(&mut self, words: &Vec<String>) -> (r: Reply)
        requires
            old(self).wf(),
        ensures
            final(self).wf(),
            Self::join_done(*old(self), *final(self), texts(words@), r),
    {
        proof {
            reveal_strlit("Player");
        }
        let display = word_or(words, 1, "Player");
        let player = match word(words, 2) {
            Some(p) => p,
            None => ascii_lowercase(display.as_str()),
        };
        if !self.client.join_fits(player.as_str(), 100) {
            return Self::overflow();
        }
        let op = self.client.join_table(player.as_str(), display.as_str(), 100);
        self.current_player = Some(player);
                let ops = vec![op];
        assert(models(ops@) =~= seq![op.deep_view()]);
        publish(no_lines(), ops)
    }

    fn join_split_command(&mut self, words: &Vec<String>) -> (r: Reply)
        requires
            old(self).wf(),
        ensures
            final(self).wf(),
            Self::join_split_done(*old(self), *final(self), texts(words@), r),
    {
        proof {
            reveal_strlit("usage: join-split <player_id> <display_name> <replica:rights>...");
            reveal_strlit("rights entry must look like A:60");
            reveal_strlit("parse rights amount");
        }
        if words.len() < 5 {
            return say_text("usage: join-split <player_id> <display_name> <replica:rights>...");
        }
        let ghost w = texts(words@);
        let ghost entries = w.skip(3);
        let player = words[1].clone();
        let display = words[2].clone();
        let mut rights: SortedMap<String, u64> = SortedMap::new();
        let mut warnings: Vec<String> = Vec::new();
        let n = words.len();
        assert(entries.take(0) =~= Seq::<Seq<char>>::empty());
        assert(texts(warnings@) =~= repeated(malformed_entry_text(), 0));
        for i in 3..n
            invariant
                n == words@.len(),
                n >= 5,
                w == texts(words@),
                entries == w.skip(3),
                self.wf(),
                *self == *old(self),
                rights.wf(),
                !read_rights(entries.take(i - 3)).bad_amount,
                rights@ == read_rights(entries.take(i - 3)).rights,
                texts(warnings@) == repeated(malformed_entry_text(), read_rights(entries.take(i - 3)).malformed),
        {
            proof {
                assert(entries.take(i - 3 + 1).drop_last() =~= entries.take(i - 3));
                assert(entries.take(i - 3 + 1).last() == w[i as int]);
            }
            match split_at_colon(words[i].as_str()) {
                None => {
                    let ghost before = warnings@;
                    let line = String::from_str("rights entry must look like A:60");
                    warnings.push(line);
                    assert(texts(warnings@) =~= texts(before).push(line@));
                    assert(texts(warnings@) =~= repeated(
                        malformed_entry_text(),
                        read_rights(entries.take(i - 3 + 1)).malformed,
                    ));
                },
                Some(parts) => {
                    match read_u64(parts.1.as_str()) {
                        None => {
                            assert(read_rights(entries.take(i - 3 + 1)).bad_amount);
                            proof {
                                let k = i - 3 + 1;
                                assert(read_rights(entries.take(k)).malformed == read_rights(
                                    entries.take(k - 1),
                                ).malformed);
                                lemma_bad_amount_stays(entries, k);
                                assert(read_rights(w.skip(3)).malformed == read_rights(entries.take(k - 1)).malformed);
                                assert(read_rights(w.skip(3)).bad_amount);
                            }
                            return fail(warnings, "parse rights amount");
                        },
                        Some(amount) => {
                            rights.insert(parts.0, amount);
                        },
                    }
                },
            }
        }
        proof {
            assert(entries.take(n - 3) =~= entries);
        }
        let total = match rights.checked_total() {
            Some(t) => t,
            None => {
                proof {
                    reveal_strlit("arithmetic overflow");
                }
                return fail(warnings, "arithmetic overflow");
            },
        };
        if !self.client.join_fits(player.as_str(), total) {
            proof {
                reveal_strlit("arithmetic overflow");
            }
            return fail(warnings, "arithmetic overflow");
        }
        let op = self.client.join_table_with_rights(player.as_str(), display.as_str(), total, rights);
        self.current_player = Some(player);
        let ops = vec![op];
        assert(models(ops@) =~= seq![op.deep_view()]);
        publish(warnings, ops)
    }

    fn start_round_command(&mut self, words: &Vec<String>) -> (r: Reply)
        requires
            old(self).wf(),
        ensures
            final(self).wf(),
            Self::start_round_done(*old(self), *final(self), texts(words@), r),
    {
        if !self.client.clock_allows(2) {
            return Self::overflow();
        }
        let round_id = match word(words, 1) {
            Some(id) => id,
            None => {
                proof {
                    reveal_strlit("round-");
                }
                let mut id = String::from_str("round-");
                push_decimal(&mut id, self.client.clock.now() + 1);
                id
            },
        };
        let dealer = match &self.current_player {
            Some(p) => p.clone(),
            None => self.client.replica_id.clone(),
        };
        let ops = self.client.start_round(round_id.as_str(), dealer.as_str());
        self.current_round = Some(round_id);
                publish(no_lines(), ops)
    }

    /// The round a command names at word `i`, or else the current one, or else the
    /// active one.
    fn round_arg(&self, words: &Vec<String>, i: usize) -> (r: Option<String>)
        requires
            self.wf(),
        ensures
            text_of(r) == self.round_for(texts(words@), i as int),
    {
        match word(words, i) {
            Some(id) => Some(id),
            None => match &self.current_round {
                Some(id) => Some(id.clone()),
                None => self.client.state.active_round_id(),
            },
        }
    }

    fn bet_command(&mut self, words: &Vec<String>) -> (r: Reply)
        requires
            old(self).wf(),
        ensures
            final(self).wf(),
            Self::bet_done(*old(self), *final(self), texts(words@), r),
    {
        proof {
            reveal_strlit("usage: bet <odd|even|high|low|exactN> <amount> [player_id] [round_id]");
            reveal_strlit("parse bet amount");
            reveal_strlit("join first or pass player_id");
            reveal_strlit("start a round first or pass round_id");
            reveal_strlit("bet rejected: ");
        }
        if words.len() < 3 {
            return say_text("usage: bet <odd|even|high|low|exactN> <amount> [player_id] [round_id]");
        }
        let kind = match BetKind::parse(words[1].as_str()) {
            Ok(k) => k,
            Err(e) => {
                                return fail(no_lines(), e.as_str());
            },
        };
        let amount = match read_u64(words[2].as_str()) {
            Some(a) => a,
            None => {
                                return fail(no_lines(), "parse bet amount");
            },
        };
        let player = match word(words, 3) {
            Some(p) => p,
            None => match &self.current_player {
                Some(p) => p.clone(),
                None => return say_text("join first or pass player_id"),
            },
        };
        let round_id = match self.round_arg(words, 4) {
            Some(id) => id,
            None => return say_text("start a round first or pass round_id"),
        };
        match self.client.place_bet_checked(player.as_str(), round_id.as_str(), amount, kind) {
            Ok(op) => {
                let ops = vec![op];
                assert(models(ops@) =~= seq![op.deep_view()]);
                                publish(no_lines(), ops)
            },
            Err(e) => say(joined("bet rejected: ", e.as_str())),
        }
    }

    fn close_command(&mut self, words: &Vec<String>) -> (r: Reply)
        requires
            old(self).wf(),
        ensures
            final(self).wf(),
            Self::close_done(*old(self), *final(self), texts(words@), r),
    {
        proof {
            reveal_strlit("usage: close-round [round_id]");
            reveal_strlit("close rejected: ");
            reveal_strlit("arithmetic overflow");
        }
        let round_id = match self.round_arg(words, 1) {
            Some(id) => id,
            None => return say_text("usage: close-round [round_id]"),
        };
        if self.client.state.round_phase(round_id.as_str()) == Some(RoundPhase::BettingOpen)
            && !self.client.clock_allows(1) {
            return say(joined("close rejected: ", "arithmetic overflow"));
        }
        match self.client.close_betting(round_id.as_str()) {
            Ok(op) => {
                let ops = vec![op];
                assert(models(ops@) =~= seq![op.deep_view()]);
                                publish(no_lines(), ops)
            },
            Err(e) => say(joined("close rejected: ", e.as_str())),
        }
    }

    fn resolve_command(&mut self, words: &Vec<String>) -> (r: Reply)
        requires
            old(self).wf(),
        ensures
            final(self).wf(),
            Self::resolve_done(*old(self), *final(self), texts(words@), r),
    {
        proof {
            reveal_strlit("usage: resolve <dice 1-6> [round_id]");
            reveal_strlit("parse dice result");
            reveal_strlit("resolve rejected: ");
            reveal_strlit("arithmetic overflow");
        }
        if words.len() < 2 {
            return say_text("usage: resolve <dice 1-6> [round_id]");
        }
        let dice = match read_u8(words[1].as_str()) {
            Some(d) => d,
            None => {
                                return fail(no_lines(), "parse dice result");
            },
        };
        let round_id = match self.round_arg(words, 2) {
            Some(id) => id,
            None => return say_text("usage: resolve <dice 1-6> [round_id]"),
        };
        let fits = self.client.resolve_fits(round_id.as_str(), dice);
        if !fits && 1 <= dice && dice <= 6 && self.client.state.round_phase(round_id.as_str()) == Some(
            RoundPhase::BettingClosed,
        ) {
            return say(joined("resolve rejected: ", "arithmetic overflow"));
        }
        match self.client.resolve_round(round_id.as_str(), dice) {
            Ok(ops) => {
                                publish(no_lines(), ops)
            },
            Err(e) => say(joined("resolve rejected: ", e.as_str())),
        }
    }

    fn transfer_command(&mut self, words: &Vec<String>) -> (r: Reply)
        requires
            old(self).wf(),
        ensures
            final(self).wf(),
            Self::transfer_done(*old(self), *final(self), texts(words@), r),
    {
        proof {
            reveal_strlit("usage: transfer-rights <player_id> <to_replica> <amount>");
            reveal_strlit("parse rights amount");
            reveal_strlit("transfer rejected: ");
            reveal_strlit("arithmetic overflow");
        }
        if words.len() < 4 {
            return say_text("usage: transfer-rights <player_id> <to_replica> <amount>");
        }
        let amount = match read_u64(words[3].as_str()) {
            Some(a) => a,
            None => {
                                return fail(no_lines(), "parse rights amount");
            },
        };
        if !self.client.transfer_fits(words[1].as_str(), words[2].as_str(), amount) {
            return say(joined("transfer rejected: ", "arithmetic overflow"));
        }
        match self.client.transfer_spending_rights(words[1].as_str(), words[2].as_str(), amount) {
            Ok(op) => {
                let ops = vec![op];
                assert(models(ops@) =~= seq![op.deep_view()]);
                                publish(no_lines(), ops)
            },
            Err(e) => say(joined("transfer rejected: ", e.as_str())),
        }
    }

    /// The player a command names at word `i`, or else the current one.
    fn player_arg(&self, words: &Vec<String>, i: usize) -> (r: Option<String>)
        ensures
            text_of(r) == or_else(word_at(texts(words@), i as int), self.player()),
    {
        match word(words, i) {
            Some(p) => Some(p),
            None => match &self.current_player {
                Some(p) => Some(p.clone()),
                None => None,
            },
        }
    }

    fn balance_command(&mut self, words: &Vec<String>) -> (r: Reply)
        requires
            old(self).wf(),
        ensures
            final(self).wf(),
            Self::balance_done(*old(self), *final(self), texts(words@), r),
    {
        proof {
            reveal_strlit("usage: balance [player_id]");
            reveal_strlit(" balance: ");
        }
        let player = match self.player_arg(words, 1) {
            Some(p) => p,
            None => return say_text("usage: balance [player_id]"),
        };
        let balance = match self.client.state.balances.get(&player) {
            Some(counter) => counter.checked_value(),
            None => Some(0),
        };
        match balance {
            Some(n) => {
                let mut line = player.clone();
                line.append(" balance: ");
                push_signed_decimal(&mut line, n);
                say(line)
            },
            None => Self::overflow(),
        }
    }

    fn rights_command(&mut self, words: &Vec<String>) -> (r: Reply)
        requires
            old(self).wf(),
        ensures
            final(self).wf(),
            Self::rights_done(*old(self), *final(self), texts(words@), r),
    {
        proof {
            reveal_strlit("usage: rights [player_id]");
        }
        let player = match self.player_arg(words, 1) {
            Some(p) => p,
            None => return say_text("usage: rights [player_id]"),
        };
        match self.rights_lines(&player) {
            Some(lines) => Reply { lines, publish: Vec::new(), after: Vec::new(), action: Action::Continue },
            None => Self::overflow(),
        }
    }

    /// What `rights` prints for `player`; see `rights_report`.
    fn rights_lines(&self, player: &String) -> (r: Option<Vec<String>>)
        requires
            self.wf(),
        ensures
            match r {
                Some(lines) => self.rights_report(player@) == Some(texts(lines@)),
                None => self.rights_report(player@) is None,
            },
    {
        proof {
            reveal_strlit(" has no spending-right counter");
            reveal_strlit("@");
            reveal_strlit(": ");
            reveal_strlit(" rights");
            reveal_strlit("total spent: ");
        }
        let counter = match self.client.state.spending_rights.get(player) {
            Some(c) => c,
            None => {
                let line = joined(player.as_str(), " has no spending-right counter");
                return Some(text_vec(line));
            },
        };
        let ghost m = counter@;
        let replicas = counter.known_replicas();
        proof {
            replicas.lemma_elems_ordered();
        }
        let ghost order = replicas.elems();
        let n = replicas.len();
        let mut lines: Vec<String> = Vec::new();
        for i in 0..n
            invariant
                n == order.len(),
                order == replicas.elems(),
                order == crate::collections::ordered::<String>(known_replicas(m)),
                replicas.wf(),
                counter.wf(),
                m == counter@,
                self.client().state@.spending_rights.contains_key(player@),
                self.client().state@.spending_rights[player@] == m,
                forall|j: int| 0 <= j < i ==> #[trigger] available_result(m, order[j]) is Some,
                texts(lines@) == Seq::new(i as nat, |j: int| rights_text(player@, order[j], available_result(m, order[j])->0)),
        {
            let replica = replicas.element_at(i);
            let available = match counter.checked_available(replica.as_str()) {
                Some(a) => a,
                None => {
                    assert(!(available_result(m, order[i as int]) is Some));
                    return None;
                },
            };
            let mut line = player.clone();
            line.append("@");
            line.append(replica.as_str());
            line.append(": ");
            push_signed_decimal(&mut line, available);
            line.append(" rights");
            let ghost before = lines@;
            lines.push(line);
            assert(texts(lines@) =~= texts(before).push(line@));
            assert(texts(lines@) =~= Seq::new(
                (i + 1) as nat,
                |j: int| rights_text(player@, order[j], available_result(m, order[j])->0),
            ));
        }
        let spent = match counter.checked_total_spent() {
            Some(t) => t,
            None => return None,
        };
        let mut last = String::from_str("total spent: ");
        push_decimal(&mut last, spent);
        let ghost before = lines@;
        lines.push(last);
        assert(texts(lines@) =~= texts(before) + seq![spent_text(total_spent_of(m))]);
        Some(lines)
    }

    fn resend_command(&mut self, words: &Vec<String>) -> (r: Reply)
        requires
            old(self).wf(),
        ensures
            final(self).wf(),
            Self::resend_done(*old(self), *final(self), texts(words@), r),
    {
        proof {
            reveal_strlit("usage: resend <op_id>");
            reveal_strlit("unknown operation ");
            reveal_strlit("resent ");
        }
        let id = match word(words, 1) {
            Some(id) => id,
            None => return say_text("usage: resend <op_id>"),
        };
        match self.client.operation_by_id(id.as_str()) {
            None => say(joined("unknown operation ", id.as_str())),
            Some(op) => {
                let after = text_vec(joined("resent ", op.op_id.as_str()));
                let ops = vec![op];
                assert(models(ops@) =~= seq![op.deep_view()]);
                Reply { lines: Vec::new(), publish: ops, after, action: Action::Continue }
            },
        }
    }
}

/// Once an amount cannot be read, reading more entries changes nothing.
proof fn lemma_bad_amount_stays(entries: Seq<Seq<char>>, k: int)
    requires
        0 <= k <= entries.len(),
        read_rights(entries.take(k)).bad_amount,
    ensures
        read_rights(entries).bad_amount,
        read_rights(entries) == read_rights(entries.take(k)),
    decreases entries.len() - k,
{
    if k < entries.len() {
        assert(entries.take(k + 1).drop_last() =~= entries.take(k));
        lemma_bad_amount_stays(entries, k + 1);
    } else {
        assert(entries.take(k) =~= entries);
    }
}

/// A server address with the default port `8080` where it names none.
pub open spec fn server_address(server: Seq<char>) -> Seq<char> {
    if server.contains(':') {
        server
    } else {
        server + ":8080"@
    }
}

/// Adds the default port to a server address that has none.
pub fn normalize_server_addr(server: &str) -> (r: String)
    ensures
        r@ == server_address(server@),
{
    let n = server.unicode_len();
    for i in 0..n
        invariant
            n == server@.len(),
            forall|j: int| 0 <= j < i ==> server@[j] != ':',
    {
        if server.get_char(i) == ':' {
            assert(server@.contains(':'));
            return server.to_owned();
        }
    }
    proof {
        reveal_strlit(":8080");
    }
    joined(server, ":8080")
}

} // verus!
