//! Bounded counter of spending rights: each replica holds rights of its own and may
//! spend or transfer only what it holds, so replicas that cannot talk to each other
//! cannot spend the same rights twice.
use vstd::prelude::*;
use crate::collections::{
    lemma_map_join_laws, lemma_ordered_props, lemma_push_to_set, lemma_sorted_insert, map_join, ordered, strictly_sorted, Join, SortedMap,
    SortedSet,
};
use crate::crdt::pn_counter::count_of;
use crate::text::{SameValue, 
    compare_text, lemma_text_lt_irreflexive, lemma_text_lt_total, lemma_text_lt_transitive,
    order_from, text_lt, Duplicate, KeyOrder, OrderedKey,
};

verus! {

#[derive(Debug, Clone, PartialEq, Eq, PartialOrd, Ord)]
pub struct SpendEntry {
    pub replica_id: String,
    pub amount: u64,
}

#[derive(Debug, Clone, PartialEq, Eq, PartialOrd, Ord)]
pub struct GrantEntry {
    pub replica_id: String,
    pub amount: u64,
}

#[derive(Debug, Clone, PartialEq, Eq, PartialOrd, Ord)]
pub struct TransferEntry {
    pub from_replica: String,
    pub to_replica: String,
    pub amount: u64,
}

/// The model of a spend or a grant: the replica it is booked to and the amount.
pub struct EntryModel {
    pub replica_id: Seq<char>,
    pub amount: u64,
}

/// The model of a transfer of rights between two replicas.
pub struct TransferModel {
    pub from_replica: Seq<char>,
    pub to_replica: Seq<char>,
    pub amount: u64,
}

/// The order of `Ord` on spends and grants: by replica id, then by amount.
pub open spec fn entry_lt(a: EntryModel, b: EntryModel) -> bool {
    text_lt(a.replica_id, b.replica_id) || (a.replica_id == b.replica_id && a.amount < b.amount)
}

/// The order of `Ord` on transfers: by source, then destination, then amount.
pub open spec fn transfer_lt(a: TransferModel, b: TransferModel) -> bool {
    text_lt(a.from_replica, b.from_replica) || (a.from_replica == b.from_replica && (text_lt(
        a.to_replica,
        b.to_replica,
    ) || (a.to_replica == b.to_replica && a.amount < b.amount)))
}

proof fn lemma_entry_order(a: EntryModel, b: EntryModel, c: EntryModel)
    ensures
        !entry_lt(a, a),
        entry_lt(a, b) && entry_lt(b, c) ==> entry_lt(a, c),
        a == b || entry_lt(a, b) || entry_lt(b, a),
{
    lemma_text_lt_irreflexive(a.replica_id);
    lemma_text_lt_total(a.replica_id, b.replica_id);
    if entry_lt(a, b) && entry_lt(b, c) {
        if text_lt(a.replica_id, b.replica_id) && text_lt(b.replica_id, c.replica_id) {
            lemma_text_lt_transitive(a.replica_id, b.replica_id, c.replica_id);
        }
    }
}

proof fn lemma_transfer_order(a: TransferModel, b: TransferModel, c: TransferModel)
    ensures
        !transfer_lt(a, a),
        transfer_lt(a, b) && transfer_lt(b, c) ==> transfer_lt(a, c),
        a == b || transfer_lt(a, b) || transfer_lt(b, a),
{
    lemma_text_lt_irreflexive(a.from_replica);
    lemma_text_lt_irreflexive(a.to_replica);
    lemma_text_lt_total(a.from_replica, b.from_replica);
    lemma_text_lt_total(a.to_replica, b.to_replica);
    if transfer_lt(a, b) && transfer_lt(b, c) {
        if text_lt(a.from_replica, b.from_replica) && text_lt(b.from_replica, c.from_replica) {
            lemma_text_lt_transitive(a.from_replica, b.from_replica, c.from_replica);
        }
        if text_lt(a.to_replica, b.to_replica) && text_lt(b.to_replica, c.to_replica) {
            lemma_text_lt_transitive(a.to_replica, b.to_replica, c.to_replica);
        }
    }
}

fn compare_u64(a: u64, b: u64) -> (r: KeyOrder)
    ensures
        r == order_from(a < b, a == b),
{
    if a < b {
        KeyOrder::Less
    } else if a == b {
        KeyOrder::Equal
    } else {
        KeyOrder::Greater
    }
}

fn same_text(a: &str, b: &str) -> (r: bool)
    ensures
        r == (a@ == b@),
{
    proof {
        lemma_text_lt_irreflexive(a@);
    }
    compare_text(a, b) == KeyOrder::Equal
}

impl DeepView for SpendEntry {
    type V = EntryModel;

    open spec fn deep_view(&self) -> EntryModel {
        EntryModel { replica_id: self.replica_id@, amount: self.amount }
    }
}

impl DeepView for GrantEntry {
    type V = EntryModel;

    open spec fn deep_view(&self) -> EntryModel {
        EntryModel { replica_id: self.replica_id@, amount: self.amount }
    }
}

impl DeepView for TransferEntry {
    type V = TransferModel;

    open spec fn deep_view(&self) -> TransferModel {
        TransferModel {
            from_replica: self.from_replica@,
            to_replica: self.to_replica@,
            amount: self.amount,
        }
    }
}

impl Duplicate for SpendEntry {
    open spec fn valid(&self) -> bool {
        true
    }

    fn duplicate(&self) -> (r: Self) {
        SpendEntry { replica_id: self.replica_id.clone(), amount: self.amount }
    }
}

impl Duplicate for GrantEntry {
    open spec fn valid(&self) -> bool {
        true
    }

    fn duplicate(&self) -> (r: Self) {
        GrantEntry { replica_id: self.replica_id.clone(), amount: self.amount }
    }
}

impl Duplicate for TransferEntry {
    open spec fn valid(&self) -> bool {
        true
    }

    fn duplicate(&self) -> (r: Self) {
        TransferEntry {
            from_replica: self.from_replica.clone(),
            to_replica: self.to_replica.clone(),
            amount: self.amount,
        }
    }
}

impl OrderedKey for SpendEntry {
    proof fn lemma_always_valid(&self) {
    }

    open spec fn key_lt(a: EntryModel, b: EntryModel) -> bool {
        entry_lt(a, b)
    }

    proof fn lemma_key_order(a: EntryModel, b: EntryModel, c: EntryModel) {
        lemma_entry_order(a, b, c);
    }

    fn compare_key(&self, other: &Self) -> (r: KeyOrder) {
        proof {
            lemma_entry_order(self.deep_view(), other.deep_view(), other.deep_view());
        }
        match compare_text(self.replica_id.as_str(), other.replica_id.as_str()) {
            KeyOrder::Equal => compare_u64(self.amount, other.amount),
            KeyOrder::Less => KeyOrder::Less,
            KeyOrder::Greater => {
                proof {
                    lemma_text_lt_total(self.replica_id@, other.replica_id@);
                }
                KeyOrder::Greater
            },
        }
    }
}

impl OrderedKey for GrantEntry {
    proof fn lemma_always_valid(&self) {
    }

    open spec fn key_lt(a: EntryModel, b: EntryModel) -> bool {
        entry_lt(a, b)
    }

    proof fn lemma_key_order(a: EntryModel, b: EntryModel, c: EntryModel) {
        lemma_entry_order(a, b, c);
    }

    fn compare_key(&self, other: &Self) -> (r: KeyOrder) {
        proof {
            lemma_entry_order(self.deep_view(), other.deep_view(), other.deep_view());
        }
        match compare_text(self.replica_id.as_str(), other.replica_id.as_str()) {
            KeyOrder::Equal => compare_u64(self.amount, other.amount),
            KeyOrder::Less => KeyOrder::Less,
            KeyOrder::Greater => {
                proof {
                    lemma_text_lt_total(self.replica_id@, other.replica_id@);
                }
                KeyOrder::Greater
            },
        }
    }
}

impl OrderedKey for TransferEntry {
    proof fn lemma_always_valid(&self) {
    }

    open spec fn key_lt(a: TransferModel, b: TransferModel) -> bool {
        transfer_lt(a, b)
    }

    proof fn lemma_key_order(a: TransferModel, b: TransferModel, c: TransferModel) {
        lemma_transfer_order(a, b, c);
    }

    fn compare_key(&self, other: &Self) -> (r: KeyOrder) {
        proof {
            lemma_transfer_order(self.deep_view(), other.deep_view(), other.deep_view());
            lemma_text_lt_total(self.from_replica@, other.from_replica@);
            lemma_text_lt_total(self.to_replica@, other.to_replica@);
        }
        match compare_text(self.from_replica.as_str(), other.from_replica.as_str()) {
            KeyOrder::Equal => match compare_text(self.to_replica.as_str(), other.to_replica.as_str()) {
                KeyOrder::Equal => compare_u64(self.amount, other.amount),
                KeyOrder::Less => KeyOrder::Less,
                KeyOrder::Greater => KeyOrder::Greater,
            },
            KeyOrder::Less => KeyOrder::Less,
            KeyOrder::Greater => KeyOrder::Greater,
        }
    }
}

/// The larger of two entries in `Ord` order, keeping the first on a tie: what a
/// merge keeps when both sides hold an entry under the same operation id.
pub open spec fn entry_max(a: EntryModel, b: EntryModel) -> EntryModel {
    if entry_lt(a, b) {
        b
    } else {
        a
    }
}

pub open spec fn transfer_max(a: TransferModel, b: TransferModel) -> TransferModel {
    if transfer_lt(a, b) {
        b
    } else {
        a
    }
}

impl Join for SpendEntry {
    open spec fn join_spec(a: EntryModel, b: EntryModel) -> EntryModel {
        entry_max(a, b)
    }

    proof fn lemma_join_laws(a: EntryModel, b: EntryModel, c: EntryModel) {
        lemma_entry_order(a, b, c);
        lemma_entry_order(b, c, a);
        lemma_entry_order(c, a, b);
        lemma_entry_order(a, c, b);
        lemma_entry_order(b, a, c);
        lemma_entry_order(c, b, a);
        lemma_entry_order(a, b, a);
        lemma_entry_order(b, a, b);
        lemma_entry_order(b, c, b);
        lemma_entry_order(c, b, c);
        lemma_entry_order(a, c, a);
        lemma_entry_order(c, a, c);
    }

    fn join(&self, other: &Self) -> (r: Self) {
        if self.compare_key(other) == KeyOrder::Less {
            other.duplicate()
        } else {
            self.duplicate()
        }
    }
}

impl Join for GrantEntry {
    open spec fn join_spec(a: EntryModel, b: EntryModel) -> EntryModel {
        entry_max(a, b)
    }

    proof fn lemma_join_laws(a: EntryModel, b: EntryModel, c: EntryModel) {
        lemma_entry_order(a, b, c);
        lemma_entry_order(b, c, a);
        lemma_entry_order(c, a, b);
        lemma_entry_order(a, c, b);
        lemma_entry_order(b, a, c);
        lemma_entry_order(c, b, a);
        lemma_entry_order(a, b, a);
        lemma_entry_order(b, a, b);
        lemma_entry_order(b, c, b);
        lemma_entry_order(c, b, c);
        lemma_entry_order(a, c, a);
        lemma_entry_order(c, a, c);
    }

    fn join(&self, other: &Self) -> (r: Self) {
        if self.compare_key(other) == KeyOrder::Less {
            other.duplicate()
        } else {
            self.duplicate()
        }
    }
}

impl Join for TransferEntry {
    open spec fn join_spec(a: TransferModel, b: TransferModel) -> TransferModel {
        transfer_max(a, b)
    }

    proof fn lemma_join_laws(a: TransferModel, b: TransferModel, c: TransferModel) {
        lemma_transfer_order(a, b, c);
        lemma_transfer_order(b, c, a);
        lemma_transfer_order(c, a, b);
        lemma_transfer_order(a, c, b);
        lemma_transfer_order(b, a, c);
        lemma_transfer_order(c, b, a);
        lemma_transfer_order(a, b, a);
        lemma_transfer_order(b, a, b);
        lemma_transfer_order(b, c, b);
        lemma_transfer_order(c, b, c);
        lemma_transfer_order(a, c, a);
        lemma_transfer_order(c, a, c);
    }

    fn join(&self, other: &Self) -> (r: Self) {
        if self.compare_key(other) == KeyOrder::Less {
            other.duplicate()
        } else {
            self.duplicate()
        }
    }
}

/// What an entry adds to a replica's rights, as the `i64` the counter sums.
pub trait Tally: Duplicate {
    spec fn tally(v: <Self as DeepView>::V, replica: Seq<char>, incoming: bool) -> i64;

    fn tally_of(&self, replica: &str, incoming: bool) -> (t: i64)
        ensures
            t == Self::tally(self.deep_view(), replica@, incoming),
    ;
}

impl Tally for GrantEntry {
    open spec fn tally(v: EntryModel, replica: Seq<char>, incoming: bool) -> i64 {
        if v.replica_id == replica {
            v.amount as i64
        } else {
            0
        }
    }

    fn tally_of(&self, replica: &str, incoming: bool) -> (t: i64) {
        if same_text(self.replica_id.as_str(), replica) {
            self.amount as i64
        } else {
            0
        }
    }
}

impl Tally for SpendEntry {
    open spec fn tally(v: EntryModel, replica: Seq<char>, incoming: bool) -> i64 {
        if v.replica_id == replica {
            v.amount as i64
        } else {
            0
        }
    }

    fn tally_of(&self, replica: &str, incoming: bool) -> (t: i64) {
        if same_text(self.replica_id.as_str(), replica) {
            self.amount as i64
        } else {
            0
        }
    }
}

impl Tally for TransferEntry {
    /// Incoming: the amount where `replica` receives it. Outgoing: where it sends it.
    open spec fn tally(v: TransferModel, replica: Seq<char>, incoming: bool) -> i64 {
        if incoming {
            if v.to_replica == replica {
                v.amount as i64
            } else {
                0
            }
        } else {
            if v.from_replica == replica {
                v.amount as i64
            } else {
                0
            }
        }
    }

    fn tally_of(&self, replica: &str, incoming: bool) -> (t: i64) {
        let matches = if incoming {
            same_text(self.to_replica.as_str(), replica)
        } else {
            same_text(self.from_replica.as_str(), replica)
        };
        if matches {
            self.amount as i64
        } else {
            0
        }
    }
}

pub open spec fn fits_i64(x: int) -> bool {
    i64::MIN <= x <= i64::MAX
}

/// A running `i64` sum of `terms`, or `None` where some partial sum leaves `i64`.
pub open spec fn checked_total(terms: Seq<int>) -> Option<int>
    decreases terms.len(),
{
    if terms.len() == 0 {
        Some(0)
    } else {
        match checked_total(terms.drop_last()) {
            Some(s) => if fits_i64(s + terms.last()) {
                Some(s + terms.last())
            } else {
                None
            },
            None => None,
        }
    }
}

proof fn lemma_checked_total_none(terms: Seq<int>, i: int)
    requires
        0 <= i <= terms.len(),
        checked_total(terms.take(i)) is None,
    ensures
        checked_total(terms) is None,
    decreases terms.len() - i,
{
    if i < terms.len() {
        assert(terms.take(i + 1).drop_last() =~= terms.take(i));
        lemma_checked_total_none(terms, i + 1);
    } else {
        assert(terms.take(i) =~= terms);
    }
}

/// The plain sum of a sequence.
pub open spec fn sum_of(terms: Seq<int>) -> int
    decreases terms.len(),
{
    if terms.len() == 0 {
        0
    } else {
        sum_of(terms.drop_last()) + terms.last()
    }
}

/// A running sum that stays in `i64` is the plain sum.
proof fn lemma_checked_total_is_sum(terms: Seq<int>)
    ensures
        checked_total(terms) matches Some(x) ==> x == sum_of(terms),
    decreases terms.len(),
{
    if terms.len() > 0 {
        lemma_checked_total_is_sum(terms.drop_last());
    }
}

proof fn lemma_sum_concat(a: Seq<int>, b: Seq<int>)
    ensures
        sum_of(a + b) == sum_of(a) + sum_of(b),
    decreases b.len(),
{
    if b.len() == 0 {
        assert(a + b =~= a);
    } else {
        lemma_sum_concat(a, b.drop_last());
        assert((a + b).drop_last() =~= a + b.drop_last());
        assert((a + b).last() == b.last());
    }
}

/// Adding an entry under a new key adds its term to the plain sum of the terms.
proof fn lemma_tally_insert<V: Tally>(
    m: Map<Seq<char>, <V as DeepView>::V>,
    k: Seq<char>,
    v: <V as DeepView>::V,
    replica: Seq<char>,
    incoming: bool,
    p: Seq<Seq<char>>,
    q: Seq<Seq<char>>,
)
    requires
        !m.contains_key(k),
        p == ordered::<String>(m.dom()),
        q == ordered::<String>(m.insert(k, v).dom()),
        strictly_sorted::<String>(p),
        strictly_sorted::<String>(q),
        p.to_set() == m.dom(),
        q.to_set() == m.insert(k, v).dom(),
    ensures
        sum_of(tally_terms::<V>(m.insert(k, v), replica, incoming)) == sum_of(tally_terms::<V>(m, replica, incoming))
            + V::tally(v, replica, incoming),
{
    let m2 = m.insert(k, v);
    assert(m2.dom() =~= m.dom().insert(k));
    assert(!p.contains(k)) by {
        if p.contains(k) {
            assert(p.to_set().contains(k));
        }
    }
    let i = lemma_sorted_insert::<String>(p, q, k);
    let t = tally_terms::<V>(m, replica, incoming);
    let t2 = tally_terms::<V>(m2, replica, incoming);
    let tk = V::tally(v, replica, incoming) as int;
    assert(t2 =~= t.take(i) + seq![tk] + t.skip(i)) by {
        assert forall|j: int| 0 <= j < t2.len() implies t2[j] == (t.take(i) + seq![tk] + t.skip(i))[j] by {
            if j < i {
                assert(q[j] == p[j]);
                assert(p.to_set().contains(p[j]));
            } else if j > i {
                assert(q[j] == p[j - 1]);
                assert(p.to_set().contains(p[j - 1]));
            }
        }
    }
    lemma_sum_concat(t.take(i) + seq![tk], t.skip(i));
    lemma_sum_concat(t.take(i), seq![tk]);
    lemma_sum_concat(t.take(i), t.skip(i));
    assert(t.take(i) + t.skip(i) =~= t);
    assert(seq![tk].drop_last() =~= Seq::<int>::empty());
    assert(sum_of(Seq::<int>::empty()) == 0);
    assert(sum_of(seq![tk]) == tk);
    assert(sum_of(t2) == sum_of(t) + tk);
}

/// The terms a map of entries contributes to `replica`, in key order.
pub open spec fn tally_terms<V: Tally>(
    m: Map<Seq<char>, <V as DeepView>::V>,
    replica: Seq<char>,
    incoming: bool,
) -> Seq<int> {
    Seq::new(
        ordered::<String>(m.dom()).len(),
        |i: int| V::tally(m[ordered::<String>(m.dom())[i]], replica, incoming) as int,
    )
}

pub open spec fn as_int(x: Option<i64>) -> Option<int> {
    match x {
        Some(v) => Some(v as int),
        None => None,
    }
}

/// Sums what the entries of `m` contribute to `replica`, or `None` on overflow.
fn checked_tally<V: Tally>(m: &SortedMap<String, V>, replica: &str, incoming: bool) -> (r: Option<i64>)
    requires
        m.wf(),
    ensures
        as_int(r) == checked_total(tally_terms::<V>(m@, replica@, incoming)),
{
    proof {
        m.lemma_keys_ordered();
    }
    let ghost terms = tally_terms::<V>(m@, replica@, incoming);
    let n = m.len();
    let mut acc: i64 = 0;
    for i in 0..n
        invariant
            n == m.keys().len(),
            m.wf(),
            m.keys() == ordered::<String>(m@.dom()),
            terms == tally_terms::<V>(m@, replica@, incoming),
            checked_total(terms.take(i as int)) == Some(acc as int),
    {
        let t = m.value_at(i).tally_of(replica, incoming);
        assert(terms.take(i + 1).drop_last() =~= terms.take(i as int));
        assert(terms.take(i + 1).last() == t as int);
        let sum: i128 = (acc as i128) + (t as i128);
        if sum < (i64::MIN as i128) || sum > (i64::MAX as i128) {
            proof {
                lemma_checked_total_none(terms, i + 1);
            }
            return None;
        }
        acc = sum as i64;
    }
    assert(terms.take(n as int) =~= terms);
    Some(acc)
}

#[derive(Debug, Clone, PartialEq, Eq)]
pub struct BoundedCounter {
    pub initial_rights: SortedMap<String, u64>,
    pub grants: SortedMap<String, GrantEntry>,
    pub spends: SortedMap<String, SpendEntry>,
    pub transfers: SortedMap<String, TransferEntry>,
}

/// The model of a bounded counter: each replica's initial rights, and the grants,
/// spends and transfers, each under the id of the operation that made it.
#[verifier::ext_equal]
pub struct BoundedModel {
    pub initial_rights: Map<Seq<char>, u64>,
    pub grants: Map<Seq<char>, EntryModel>,
    pub spends: Map<Seq<char>, EntryModel>,
    pub transfers: Map<Seq<char>, TransferModel>,
}

pub open spec fn bc_empty() -> BoundedModel {
    BoundedModel {
        initial_rights: Map::empty(),
        grants: Map::empty(),
        spends: Map::empty(),
        transfers: Map::empty(),
    }
}

/// The rights `replica` has left: initial rights (as `i64`) plus grants plus incoming
/// transfers, minus outgoing transfers and spends; `None` where computing it in
/// `i64` overflows.
pub open spec fn available_result(m: BoundedModel, replica: Seq<char>) -> Option<int> {
    let initial = if m.initial_rights.contains_key(replica) {
        m.initial_rights[replica] as i64 as int
    } else {
        0
    };
    let g = checked_total(tally_terms::<GrantEntry>(m.grants, replica, true));
    let i = checked_total(tally_terms::<TransferEntry>(m.transfers, replica, true));
    let o = checked_total(tally_terms::<TransferEntry>(m.transfers, replica, false));
    let s = checked_total(tally_terms::<SpendEntry>(m.spends, replica, true));
    if g is Some && i is Some && o is Some && s is Some {
        let x1 = initial + g->0;
        let x2 = x1 + i->0;
        let x3 = x2 - o->0;
        let x4 = x3 - s->0;
        if fits_i64(x1) && fits_i64(x2) && fits_i64(x3) && fits_i64(x4) {
            Some(x4)
        } else {
            None
        }
    } else {
        None
    }
}

/// Raising a replica's initial rights to at least `amount`.
pub open spec fn bc_set_initial(m: BoundedModel, replica: Seq<char>, amount: u64) -> BoundedModel {
    BoundedModel {
        initial_rights: m.initial_rights.insert(
            replica,
            if count_of(m.initial_rights, replica) >= amount {
                count_of(m.initial_rights, replica)
            } else {
                amount
            },
        ),
        ..m
    }
}

/// Recording a grant of `amount` rights to `replica` under `op_id`.
pub open spec fn bc_grant(m: BoundedModel, op_id: Seq<char>, replica: Seq<char>, amount: u64) -> BoundedModel {
    BoundedModel { grants: m.grants.insert(op_id, EntryModel { replica_id: replica, amount }), ..m }
}

/// A spend can be decided without overflow: it is already recorded, or the
/// replica's rights can be computed.
pub open spec fn bc_spend_defined(m: BoundedModel, op_id: Seq<char>, replica: Seq<char>) -> bool {
    m.spends.contains_key(op_id) || available_result(m, replica) is Some
}

/// Spending: an already recorded spend is accepted again unchanged; otherwise the
/// spend is recorded and accepted exactly when the replica's rights cover it.
pub open spec fn bc_spend(m: BoundedModel, op_id: Seq<char>, replica: Seq<char>, amount: u64) -> (
    BoundedModel,
    bool,
) {
    if m.spends.contains_key(op_id) {
        (m, true)
    } else if available_result(m, replica)->0 < amount as i64 {
        (m, false)
    } else {
        (
            BoundedModel {
                spends: m.spends.insert(op_id, EntryModel { replica_id: replica, amount }),
                ..m
            },
            true,
        )
    }
}

pub open spec fn bc_transfer_defined(m: BoundedModel, op_id: Seq<char>, from: Seq<char>) -> bool {
    m.transfers.contains_key(op_id) || available_result(m, from) is Some
}

/// Transferring rights: an already recorded transfer is accepted again unchanged;
/// otherwise it is recorded and accepted exactly when the source's rights cover it.
pub open spec fn bc_transfer(
    m: BoundedModel,
    op_id: Seq<char>,
    from: Seq<char>,
    to: Seq<char>,
    amount: u64,
) -> (BoundedModel, bool) {
    if m.transfers.contains_key(op_id) {
        (m, true)
    } else if available_result(m, from)->0 < amount as i64 {
        (m, false)
    } else {
        (
            BoundedModel {
                transfers: m.transfers.insert(
                    op_id,
                    TransferModel { from_replica: from, to_replica: to, amount },
                ),
                ..m
            },
            true,
        )
    }
}

/// Every replica the counter knows of: those with initial rights, those granted
/// rights, and both ends of every transfer.
pub open spec fn known_replicas(m: BoundedModel) -> Set<Seq<char>> {
    m.initial_rights.dom().union(
        Set::new(|r: Seq<char>| exists|k: Seq<char>| #[trigger] m.grants.contains_key(k) && m.grants[k].replica_id == r),
    ).union(
        Set::new(
            |r: Seq<char>|
                exists|k: Seq<char>|
                    #[trigger] m.transfers.contains_key(k) && (m.transfers[k].from_replica == r
                        || m.transfers[k].to_replica == r),
        ),
    )
}

/// The running `i64` sum of the rights of `replicas`, or `None` on overflow.
pub open spec fn remaining_over(m: BoundedModel, replicas: Seq<Seq<char>>) -> Option<int>
    decreases replicas.len(),
{
    if replicas.len() == 0 {
        Some(0)
    } else {
        let prev = remaining_over(m, replicas.drop_last());
        let a = available_result(m, replicas.last());
        if prev is Some && a is Some && fits_i64(prev->0 + a->0) {
            Some(prev->0 + a->0)
        } else {
            None
        }
    }
}

/// The rights left over all known replicas, summed in replica order.
pub open spec fn total_remaining_result(m: BoundedModel) -> Option<int> {
    remaining_over(m, ordered::<String>(known_replicas(m)))
}

/// The sum of the amounts of a map of spends, in key order.
pub open spec fn spent_over(keys: Seq<Seq<char>>, spends: Map<Seq<char>, EntryModel>) -> int
    decreases keys.len(),
{
    if keys.len() == 0 {
        0
    } else {
        spent_over(keys.drop_last(), spends) + spends[keys.last()].amount
    }
}

pub open spec fn total_spent_of(m: BoundedModel) -> int {
    spent_over(ordered::<String>(m.spends.dom()), m.spends)
}

/// The merge of two counters: larger initial rights per replica, and the union of
/// grants, spends and transfers (the larger entry where both hold one id).
pub open spec fn bc_merge(a: BoundedModel, b: BoundedModel) -> BoundedModel {
    BoundedModel {
        initial_rights: map_join::<String, u64>(a.initial_rights, b.initial_rights),
        grants: map_join::<String, GrantEntry>(a.grants, b.grants),
        spends: map_join::<String, SpendEntry>(a.spends, b.spends),
        transfers: map_join::<String, TransferEntry>(a.transfers, b.transfers),
    }
}

impl DeepView for BoundedCounter {
    type V = BoundedModel;

    open spec fn deep_view(&self) -> BoundedModel {
        BoundedModel {
            initial_rights: self.initial_rights@,
            grants: self.grants@,
            spends: self.spends@,
            transfers: self.transfers@,
        }
    }
}

impl View for BoundedCounter {
    type V = BoundedModel;

    open spec fn view(&self) -> BoundedModel {
        self.deep_view()
    }
}

impl Default for BoundedCounter {
    fn default() -> (r: Self)
        ensures
            r.wf(),
            r@ == bc_empty(),
    {
        let r = BoundedCounter {
            initial_rights: SortedMap::new(),
            grants: SortedMap::new(),
            spends: SortedMap::new(),
            transfers: SortedMap::new(),
        };
        assert(r@ =~= bc_empty());
        r
    }
}

impl BoundedCounter {
    pub open spec fn wf(&self) -> bool {
        &&& self.initial_rights.wf()
        &&& self.grants.wf()
        &&& self.spends.wf()
        &&& self.transfers.wf()
    }

    /// Raises `replica_id`'s initial rights to at least `amount`.
    pub fn set_initial_rights(&mut self, replica_id: &str, amount: u64)
        requires
            old(self).wf(),
        ensures
            final(self).wf(),
            final(self)@ == bc_set_initial(old(self)@, replica_id@, amount),
    {
        let key = replica_id.to_owned();
        let current = match self.initial_rights.get(&key) {
            Some(v) => *v,
            None => 0,
        };
        let raised = if current >= amount { current } else { amount };
        self.initial_rights.insert(key, raised);
    }

    pub fn grant(&mut self, op_id: &str, replica_id: &str, amount: u64)
        requires
            old(self).wf(),
        ensures
            final(self).wf(),
            final(self)@ == bc_grant(old(self)@, op_id@, replica_id@, amount),
    {
        self.grants.insert(op_id.to_owned(), GrantEntry { replica_id: replica_id.to_owned(), amount });
    }

    /// Spends `amount` of `replica_id`'s rights under `op_id`; see `bc_spend`.
    pub fn spend(&mut self, op_id: &str, replica_id: &str, amount: u64) -> (accepted: bool)
        requires
            old(self).wf(),
            bc_spend_defined(old(self)@, op_id@, replica_id@),
        ensures
            final(self).wf(),
            (final(self)@, accepted) == bc_spend(old(self)@, op_id@, replica_id@, amount),
            accepted && !old(self)@.spends.contains_key(op_id@) && amount <= i64::MAX ==> available_result(
                old(self)@,
                replica_id@,
            )->0 >= amount && (available_result(final(self)@, replica_id@) matches Some(left) ==> left
                == available_result(old(self)@, replica_id@)->0 - amount),
    {
        let key = op_id.to_owned();
        if self.spends.contains_key(&key) {
            return true;
        }
        if self.available(replica_id) < amount as i64 {
            return false;
        }
        let ghost before = self@;
        proof {
            self.spends.lemma_keys_ordered();
            self.spends.lemma_wf_view();
        }
        let entry = SpendEntry { replica_id: replica_id.to_owned(), amount };
        let ghost e = entry.deep_view();
        self.spends.insert(key, entry);
        proof {
            self.spends.lemma_keys_ordered();
            self.spends.lemma_wf_view();
            let p = ordered::<String>(before.spends.dom());
            let q = ordered::<String>(self@.spends.dom());
            lemma_tally_insert::<SpendEntry>(before.spends, op_id@, e, replica_id@, true, p, q);
            lemma_checked_total_is_sum(tally_terms::<SpendEntry>(before.spends, replica_id@, true));
            lemma_checked_total_is_sum(tally_terms::<SpendEntry>(self@.spends, replica_id@, true));
        }
        true
    }

    /// Moves `amount` of rights from `from_replica` to `to_replica` under `op_id`; see
    /// `bc_transfer`.
    pub fn transfer(&mut self, op_id: &str, from_replica: &str, to_replica: &str, amount: u64) -> (accepted:
        bool)
        requires
            old(self).wf(),
            bc_transfer_defined(old(self)@, op_id@, from_replica@),
        ensures
            final(self).wf(),
            (final(self)@, accepted) == bc_transfer(
                old(self)@,
                op_id@,
                from_replica@,
                to_replica@,
                amount,
            ),
    {
        let key = op_id.to_owned();
        if self.transfers.contains_key(&key) {
            return true;
        }
        if self.available(from_replica) < amount as i64 {
            return false;
        }
        self.transfers.insert(
            key,
            TransferEntry {
                from_replica: from_replica.to_owned(),
                to_replica: to_replica.to_owned(),
                amount,
            },
        );
        true
    }

    /// `replica_id`'s rights, or `None` where computing them overflows `i64`.
    pub fn checked_available(&self, replica_id: &str) -> (r: Option<i64>)
        requires
            self.wf(),
        ensures
            as_int(r) == available_result(self@, replica_id@),
    {
        let initial: i64 = match self.initial_rights.get(&replica_id.to_owned()) {
            Some(v) => *v as i64,
            None => 0,
        };
        let g = checked_tally(&self.grants, replica_id, true);
        let i = checked_tally(&self.transfers, replica_id, true);
        let o = checked_tally(&self.transfers, replica_id, false);
        let s = checked_tally(&self.spends, replica_id, true);
        match (g, i, o, s) {
            (Some(g), Some(i), Some(o), Some(s)) => {
                let x1 = (initial as i128) + (g as i128);
                let x2 = x1 + (i as i128);
                let x3 = x2 - (o as i128);
                let x4 = x3 - (s as i128);
                if x1 < (i64::MIN as i128) || x1 > (i64::MAX as i128) || x2 < (i64::MIN as i128) || x2 > (
                i64::MAX as i128) || x3 < (i64::MIN as i128) || x3 > (i64::MAX as i128) || x4 < (
                i64::MIN as i128) || x4 > (i64::MAX as i128) {
                    None
                } else {
                    Some(x4 as i64)
                }
            },
            _ => None,
        }
    }

    /// `replica_id`'s rights: see `available_result`.
    pub fn available(&self, replica_id: &str) -> (r: i64)
        requires
            self.wf(),
            available_result(self@, replica_id@) is Some,
        ensures
            r == available_result(self@, replica_id@)->0,
    {
        match self.checked_available(replica_id) {
            Some(v) => v,
            None => 0,
        }
    }

    /// The replicas the counter knows of, in increasing order.
    pub fn known_replicas(&self) -> (r: SortedSet<String>)
        requires
            self.wf(),
        ensures
            r.wf(),
            r@ == known_replicas(self@),
    {
        let mut set: SortedSet<String> = SortedSet::new();
        proof {
            self.initial_rights.lemma_wf_view();
            self.grants.lemma_wf_view();
            self.transfers.lemma_wf_view();
        }
        let ghost m = self@;
        let n = self.initial_rights.len();
        for i in 0..n
            invariant
                n == self.initial_rights.keys().len(),
                self.wf(),
                set.wf(),
                set@ == self.initial_rights.keys().take(i as int).to_set(),
        {
            set.insert(self.initial_rights.key_at(i).clone());
            proof {
                assert(self.initial_rights.keys().take(i + 1) =~= self.initial_rights.keys().take(i as int).push(
                    self.initial_rights.keys()[i as int],
                ));
                lemma_push_to_set(self.initial_rights.keys().take(i as int), self.initial_rights.keys()[i as int]);
            }
        }
        assert(self.initial_rights.keys().take(n as int) =~= self.initial_rights.keys());
        let ghost base = set@;
        assert(base == m.initial_rights.dom());
        let n = self.grants.len();
        for i in 0..n
            invariant
                n == self.grants.keys().len(),
                self.wf(),
                m == self@,
                set.wf(),
                set@ == base.union(
                    Set::new(
                        |r: Seq<char>|
                            exists|j: int| 0 <= j < i && #[trigger] m.grants[self.grants.keys()[j]].replica_id == r,
                    ),
                ),
        {
            let entry = self.grants.value_at(i);
            set.insert(entry.replica_id.clone());
            proof {
                assert(set@ =~= base.union(
                    Set::new(
                        |r: Seq<char>|
                            exists|j: int| 0 <= j < i + 1 && #[trigger] m.grants[self.grants.keys()[j]].replica_id == r,
                    ),
                )) by {
                    assert(m.grants[self.grants.keys()[i as int]].replica_id == entry.replica_id@);
                }
            }
        }
        let ghost granted = Set::new(
            |r: Seq<char>| exists|k: Seq<char>| #[trigger] m.grants.contains_key(k) && m.grants[k].replica_id == r,
        );
        assert(set@ =~= base.union(granted)) by {
            assert forall|r: Seq<char>| granted.contains(r) implies set@.contains(r) by {
                let k = choose|k: Seq<char>| #[trigger] m.grants.contains_key(k) && m.grants[k].replica_id == r;
                assert(self.grants.keys().to_set().contains(k));
                let j = choose|j: int| 0 <= j < self.grants.keys().len() && self.grants.keys()[j] == k;
                assert(m.grants[self.grants.keys()[j]].replica_id == r);
            }
            assert forall|r: Seq<char>| set@.contains(r) && !base.contains(r) implies granted.contains(r) by {
                let j = choose|j: int| 0 <= j < n && #[trigger] m.grants[self.grants.keys()[j]].replica_id == r;
                assert(m.grants.contains_key(self.grants.keys()[j]));
            }
        }
        let ghost base2 = set@;
        let n = self.transfers.len();
        for i in 0..n
            invariant
                n == self.transfers.keys().len(),
                self.wf(),
                m == self@,
                set.wf(),
                set@ == base2.union(
                    Set::new(
                        |r: Seq<char>|
                            exists|j: int|
                                0 <= j < i && (#[trigger] m.transfers[self.transfers.keys()[j]].from_replica == r
                                    || m.transfers[self.transfers.keys()[j]].to_replica == r),
                    ),
                ),
        {
            let entry = self.transfers.value_at(i);
            set.insert(entry.from_replica.clone());
            set.insert(entry.to_replica.clone());
            proof {
                assert(set@ =~= base2.union(
                    Set::new(
                        |r: Seq<char>|
                            exists|j: int|
                                0 <= j < i + 1 && (#[trigger] m.transfers[self.transfers.keys()[j]].from_replica == r
                                    || m.transfers[self.transfers.keys()[j]].to_replica == r),
                    ),
                )) by {
                    assert(m.transfers[self.transfers.keys()[i as int]].from_replica == entry.from_replica@);
                    assert(m.transfers[self.transfers.keys()[i as int]].to_replica == entry.to_replica@);
                }
            }
        }
        let ghost moved = Set::new(
            |r: Seq<char>|
                exists|k: Seq<char>|
                    #[trigger] m.transfers.contains_key(k) && (m.transfers[k].from_replica == r
                        || m.transfers[k].to_replica == r),
        );
        assert(set@ =~= base2.union(moved)) by {
            assert forall|r: Seq<char>| moved.contains(r) implies set@.contains(r) by {
                let k = choose|k: Seq<char>|
                    #[trigger] m.transfers.contains_key(k) && (m.transfers[k].from_replica == r
                        || m.transfers[k].to_replica == r);
                assert(self.transfers.keys().to_set().contains(k));
                let j = choose|j: int| 0 <= j < self.transfers.keys().len() && self.transfers.keys()[j] == k;
                assert(m.transfers[self.transfers.keys()[j]].from_replica == r
                    || m.transfers[self.transfers.keys()[j]].to_replica == r);
            }
            assert forall|r: Seq<char>| set@.contains(r) && !base2.contains(r) implies moved.contains(r) by {
                let j = choose|j: int|
                    0 <= j < n && (#[trigger] m.transfers[self.transfers.keys()[j]].from_replica == r
                        || m.transfers[self.transfers.keys()[j]].to_replica == r);
                assert(m.transfers.contains_key(self.transfers.keys()[j]));
            }
        }
        assert(set@ =~= known_replicas(m));
        set
    }

    /// The rights left over all known replicas, or `None` where the sum overflows.
    pub fn checked_total_remaining(&self) -> (r: Option<i64>)
        requires
            self.wf(),
        ensures
            as_int(r) == total_remaining_result(self@),
    {
        let replicas = self.known_replicas();
        proof {
            replicas.lemma_elems_ordered();
        }
        let ghost rs = replicas.elems();
        let n = replicas.len();
        let mut acc: i64 = 0;
        for i in 0..n
            invariant
                n == rs.len(),
                rs == replicas.elems(),
                rs == ordered::<String>(known_replicas(self@)),
                self.wf(),
                remaining_over(self@, rs.take(i as int)) == Some(acc as int),
        {
            let replica = replicas.element_at(i);
            assert(rs.take(i + 1).drop_last() =~= rs.take(i as int));
            match self.checked_available(replica.as_str()) {
                None => {
                    proof {
                        lemma_remaining_none(self@, rs, i + 1);
                    }
                    return None;
                },
                Some(a) => {
                    let sum: i128 = (acc as i128) + (a as i128);
                    if sum < (i64::MIN as i128) || sum > (i64::MAX as i128) {
                        proof {
                            lemma_remaining_none(self@, rs, i + 1);
                        }
                        return None;
                    }
                    acc = sum as i64;
                },
            }
        }
        assert(rs.take(n as int) =~= rs);
        Some(acc)
    }

    /// The rights left over all known replicas; see `total_remaining_result`.
    pub fn total_remaining(&self) -> (r: i64)
        requires
            self.wf(),
            total_remaining_result(self@) is Some,
        ensures
            r == total_remaining_result(self@)->0,
    {
        match self.checked_total_remaining() {
            Some(v) => v,
            None => 0,
        }
    }

    /// The sum of all spent amounts.
    pub fn total_spent(&self) -> (r: u64)
        requires
            self.wf(),
            total_spent_of(self@) <= u64::MAX,
        ensures
            r == total_spent_of(self@),
    {
        proof {
            self.spends.lemma_keys_ordered();
        }
        let ghost keys = self.spends.keys();
        let n = self.spends.len();
        let mut acc: u64 = 0;
        for i in 0..n
            invariant
                n == keys.len(),
                keys == self.spends.keys(),
                self.wf(),
                keys == ordered::<String>(self@.spends.dom()),
                total_spent_of(self@) <= u64::MAX,
                acc == spent_over(keys.take(i as int), self@.spends),
        {
            let amount = self.spends.value_at(i).amount;
            proof {
                assert(keys.take(i + 1).drop_last() =~= keys.take(i as int));
                lemma_spent_prefix(keys, self@.spends, i + 1);
            }
            acc = acc + amount;
        }
        assert(keys.take(n as int) =~= keys);
        acc
    }

    /// The total spent, or `None` where it does not fit in `u64`.
    pub fn checked_total_spent(&self) -> (r: Option<u64>)
        requires
            self.wf(),
        ensures
            r is Some == (total_spent_of(self@) <= u64::MAX),
            r is Some ==> r->0 == total_spent_of(self@),
    {
        proof {
            self.spends.lemma_keys_ordered();
        }
        let ghost keys = self.spends.keys();
        let n = self.spends.len();
        let mut acc: u64 = 0;
        for i in 0..n
            invariant
                n == keys.len(),
                keys == self.spends.keys(),
                self.wf(),
                keys == ordered::<String>(self@.spends.dom()),
                acc == spent_over(keys.take(i as int), self@.spends),
        {
            let amount = self.spends.value_at(i).amount;
            proof {
                assert(keys.take(i + 1).drop_last() =~= keys.take(i as int));
                lemma_spent_prefix(keys, self@.spends, i + 1);
            }
            if acc > u64::MAX - amount {
                return None;
            }
            acc = acc + amount;
        }
        assert(keys.take(n as int) =~= keys);
        Some(acc)
    }

    pub fn merge(&self, other: &Self) -> (r: Self)
        requires
            self.wf(),
            other.wf(),
        ensures
            r.wf(),
            r@ == bc_merge(self@, other@),
    {
        let mut merged = self.duplicate();
        merged.initial_rights.join_from(&other.initial_rights);
        merged.grants.join_from(&other.grants);
        merged.spends.join_from(&other.spends);
        merged.transfers.join_from(&other.transfers);
        merged
    }

    pub fn merge_mut(&mut self, other: &Self)
        requires
            old(self).wf(),
            other.wf(),
        ensures
            final(self).wf(),
            final(self)@ == bc_merge(old(self)@, other@),
    {
        *self = self.merge(other);
    }
}

proof fn lemma_remaining_none(m: BoundedModel, rs: Seq<Seq<char>>, i: int)
    requires
        0 <= i <= rs.len(),
        remaining_over(m, rs.take(i)) is None,
    ensures
        remaining_over(m, rs) is None,
    decreases rs.len() - i,
{
    if i < rs.len() {
        assert(rs.take(i + 1).drop_last() =~= rs.take(i));
        lemma_remaining_none(m, rs, i + 1);
    } else {
        assert(rs.take(i) =~= rs);
    }
}

proof fn lemma_spent_prefix(keys: Seq<Seq<char>>, spends: Map<Seq<char>, EntryModel>, i: int)
    requires
        0 <= i <= keys.len(),
    ensures
        0 <= spent_over(keys.take(i), spends) <= spent_over(keys, spends),
    decreases keys.len() - i,
{
    if i < keys.len() {
        lemma_spent_prefix(keys, spends, i + 1);
        assert(keys.take(i + 1).drop_last() =~= keys.take(i));
    } else {
        assert(keys.take(i) =~= keys);
    }
    lemma_spent_nonneg(keys.take(i), spends);
}

proof fn lemma_spent_nonneg(keys: Seq<Seq<char>>, spends: Map<Seq<char>, EntryModel>)
    ensures
        0 <= spent_over(keys, spends),
    decreases keys.len(),
{
    if keys.len() > 0 {
        lemma_spent_nonneg(keys.drop_last(), spends);
    }
}

impl SameValue for SpendEntry {
    fn same_value(&self, other: &Self) -> (r: bool) {
        proof {
            Self::lemma_key_order(self.deep_view(), self.deep_view(), self.deep_view());
        }
        self.compare_key(other) == KeyOrder::Equal
    }
}

impl SameValue for GrantEntry {
    fn same_value(&self, other: &Self) -> (r: bool) {
        proof {
            Self::lemma_key_order(self.deep_view(), self.deep_view(), self.deep_view());
        }
        self.compare_key(other) == KeyOrder::Equal
    }
}

impl SameValue for TransferEntry {
    fn same_value(&self, other: &Self) -> (r: bool) {
        proof {
            Self::lemma_key_order(self.deep_view(), self.deep_view(), self.deep_view());
        }
        self.compare_key(other) == KeyOrder::Equal
    }
}

impl SameValue for BoundedCounter {
    fn same_value(&self, other: &Self) -> (r: bool) {
        self.initial_rights.same_value(&other.initial_rights) && self.grants.same_value(&other.grants)
            && self.spends.same_value(&other.spends) && self.transfers.same_value(&other.transfers)
    }
}

impl Duplicate for BoundedCounter {
    open spec fn valid(&self) -> bool {
        self.wf()
    }

    fn duplicate(&self) -> (r: Self) {
        BoundedCounter {
            initial_rights: self.initial_rights.duplicate(),
            grants: self.grants.duplicate(),
            spends: self.spends.duplicate(),
            transfers: self.transfers.duplicate(),
        }
    }
}

/// Bounded-counter merge is commutative, associative and idempotent.
pub proof fn lemma_bc_merge_laws(a: BoundedModel, b: BoundedModel, c: BoundedModel)
    ensures
        bc_merge(a, b) == bc_merge(b, a),
        bc_merge(bc_merge(a, b), c) == bc_merge(a, bc_merge(b, c)),
        bc_merge(a, a) == a,
{
    lemma_map_join_laws::<String, u64>(a.initial_rights, b.initial_rights, c.initial_rights);
    lemma_map_join_laws::<String, GrantEntry>(a.grants, b.grants, c.grants);
    lemma_map_join_laws::<String, SpendEntry>(a.spends, b.spends, c.spends);
    lemma_map_join_laws::<String, TransferEntry>(a.transfers, b.transfers, c.transfers);
    assert(bc_merge(a, a) =~= a);
}

/// Spending never takes a replica's rights below zero: a new spend is accepted only
/// where the replica's rights cover it, and, where the rights left can be computed,
/// they are the rights before less the amount. Amounts above `i64::MAX` are left
/// out: the rights are compared with the amount taken as `i64`.
pub proof fn lemma_spend_within_rights(m: BoundedModel, op_id: Seq<char>, replica: Seq<char>, amount: u64)
    requires
        m.spends.dom().finite(),
        !m.spends.contains_key(op_id),
        available_result(m, replica) is Some,
        amount <= i64::MAX,
        bc_spend(m, op_id, replica, amount).1,
    ensures
        available_result(m, replica)->0 >= amount,
        available_result(bc_spend(m, op_id, replica, amount).0, replica) matches Some(left) ==> left
            == available_result(m, replica)->0 - amount,
{
    let e = EntryModel { replica_id: replica, amount };
    let m2 = bc_spend(m, op_id, replica, amount).0;
    assert(m2.spends == m.spends.insert(op_id, e));
    lemma_ordered_props::<String>(m.spends.dom());
    assert(m.spends.insert(op_id, e).dom() =~= m.spends.dom().insert(op_id));
    lemma_ordered_props::<String>(m.spends.insert(op_id, e).dom());
    lemma_tally_insert::<SpendEntry>(
        m.spends,
        op_id,
        e,
        replica,
        true,
        ordered::<String>(m.spends.dom()),
        ordered::<String>(m2.spends.dom()),
    );
    lemma_checked_total_is_sum(tally_terms::<SpendEntry>(m.spends, replica, true));
    lemma_checked_total_is_sum(tally_terms::<SpendEntry>(m2.spends, replica, true));
}

/// A running sum of at most 2^16 terms, each between 0 and 2^32, stays in `i64`.
proof fn lemma_checked_total_small(terms: Seq<int>)
    requires
        terms.len() <= 0x10000,
        forall|i: int| 0 <= i < terms.len() ==> 0 <= #[trigger] terms[i] <= 0x1_0000_0000,
    ensures
        checked_total(terms) == Some(sum_of(terms)),
        0 <= sum_of(terms) <= terms.len() * 0x1_0000_0000,
    decreases terms.len(),
{
    if terms.len() > 0 {
        let rest = terms.drop_last();
        assert forall|i: int| 0 <= i < rest.len() implies 0 <= #[trigger] rest[i] <= 0x1_0000_0000 by {
            assert(rest[i] == terms[i]);
        }
        lemma_checked_total_small(rest);
        assert(0 <= terms[terms.len() - 1] <= 0x1_0000_0000);
    }
}

/// A map of entries without keys contributes no terms.
pub proof fn lemma_tally_empty<V: Tally>(replica: Seq<char>, incoming: bool)
    ensures
        tally_terms::<V>(Map::<Seq<char>, <V as DeepView>::V>::empty(), replica, incoming) == Seq::<int>::empty(),
{
    let d = Map::<Seq<char>, <V as DeepView>::V>::empty().dom();
    lemma_ordered_props::<String>(d);
    let q = ordered::<String>(d);
    if q.len() > 0 {
        assert(q.to_set().contains(q[0]));
        assert(d.contains(q[0]));
    }
    assert(tally_terms::<V>(Map::<Seq<char>, <V as DeepView>::V>::empty(), replica, incoming) =~= Seq::<int>::empty());
}

/// A small map of spends, each of a small amount, sums without overflow what it
/// books to `replica`.
pub proof fn lemma_spend_tally_small(m: Map<Seq<char>, EntryModel>, replica: Seq<char>)
    requires
        m.dom().finite(),
        m.dom().len() <= 0x10000,
        forall|k: Seq<char>| #[trigger] m.contains_key(k) ==> m[k].amount <= 0x1_0000_0000,
    ensures
        checked_total(tally_terms::<SpendEntry>(m, replica, true)) == Some(
            sum_of(tally_terms::<SpendEntry>(m, replica, true)),
        ),
{
    lemma_ordered_props::<String>(m.dom());
    let q = ordered::<String>(m.dom());
    let t = tally_terms::<SpendEntry>(m, replica, true);
    assert(q.no_duplicates()) by {
        assert forall|i: int, j: int| 0 <= i < q.len() && 0 <= j < q.len() && i != j implies q[i] != q[j] by {
            if i < j {
                assert(String::key_lt(q[i], q[j]));
            } else {
                assert(String::key_lt(q[j], q[i]));
            }
            lemma_text_lt_irreflexive(q[i]);
        }
    }
    q.unique_seq_to_set();
    assert forall|i: int| 0 <= i < t.len() implies 0 <= #[trigger] t[i] <= 0x1_0000_0000 by {
        assert(q.to_set().contains(q[i]));
        assert(m.contains_key(q[i]));
    }
    lemma_checked_total_small(t);
}

/// An entry under a new key adds its term to what a map of entries books to `replica`.
pub proof fn lemma_tally_sum_insert<V: Tally>(
    m: Map<Seq<char>, <V as DeepView>::V>,
    k: Seq<char>,
    e: <V as DeepView>::V,
    replica: Seq<char>,
    incoming: bool,
)
    requires
        m.dom().finite(),
        !m.contains_key(k),
    ensures
        tally_sum::<V>(m.insert(k, e), replica, incoming) == tally_sum::<V>(m, replica, incoming) + V::tally(
            e,
            replica,
            incoming,
        ),
{
    lemma_ordered_props::<String>(m.dom());
    assert(m.insert(k, e).dom() =~= m.dom().insert(k));
    lemma_ordered_props::<String>(m.insert(k, e).dom());
    lemma_tally_insert::<V>(
        m,
        k,
        e,
        replica,
        incoming,
        ordered::<String>(m.dom()),
        ordered::<String>(m.insert(k, e).dom()),
    );
}

/// What a map of entries books to `replica`, summed exactly.
pub open spec fn tally_sum<V: Tally>(m: Map<Seq<char>, <V as DeepView>::V>, replica: Seq<char>, incoming: bool) -> int {
    sum_of(tally_terms::<V>(m, replica, incoming))
}

/// A replica's initial rights, taken as `i64` as `available` takes them.
pub open spec fn initial_of(m: BoundedModel, replica: Seq<char>) -> int {
    if m.initial_rights.contains_key(replica) {
        m.initial_rights[replica] as i64 as int
    } else {
        0
    }
}

/// The rights `replica` has left, computed exactly: initial rights plus grants plus
/// incoming transfers, less outgoing transfers and spends.
pub open spec fn rights_value(m: BoundedModel, replica: Seq<char>) -> int {
    initial_of(m, replica) + tally_sum::<GrantEntry>(m.grants, replica, true) + tally_sum::<TransferEntry>(
        m.transfers,
        replica,
        true,
    ) - tally_sum::<TransferEntry>(m.transfers, replica, false) - tally_sum::<SpendEntry>(m.spends, replica, true)
}

/// A counter in which no replica's rights are negative: its entry maps are finite,
/// its initial rights fit in `i64`, and every replica has rights of at least zero.
pub open spec fn counter_ok(m: BoundedModel) -> bool {
    &&& m.grants.dom().finite()
    &&& m.spends.dom().finite()
    &&& m.transfers.dom().finite()
    &&& forall|r: Seq<char>| #[trigger] m.initial_rights.contains_key(r) ==> m.initial_rights[r] <= i64::MAX
    &&& forall|r: Seq<char>| #[trigger] rights_value(m, r) >= 0
}

/// Where the rights left can be computed in `i64`, they are the exact rights.
pub proof fn lemma_available_is_value(m: BoundedModel, replica: Seq<char>)
    ensures
        available_result(m, replica) matches Some(v) ==> v == rights_value(m, replica),
{
    lemma_checked_total_is_sum(tally_terms::<GrantEntry>(m.grants, replica, true));
    lemma_checked_total_is_sum(tally_terms::<TransferEntry>(m.transfers, replica, true));
    lemma_checked_total_is_sum(tally_terms::<TransferEntry>(m.transfers, replica, false));
    lemma_checked_total_is_sum(tally_terms::<SpendEntry>(m.spends, replica, true));
}

/// The empty counter has no negative rights.
pub proof fn lemma_empty_counter_ok()
    ensures
        counter_ok(bc_empty()),
        forall|r: Seq<char>| #[trigger] rights_value(bc_empty(), r) == 0,
{
    assert forall|r: Seq<char>| #[trigger] rights_value(bc_empty(), r) == 0 by {
        lemma_tally_empty::<GrantEntry>(r, true);
        lemma_tally_empty::<TransferEntry>(r, true);
        lemma_tally_empty::<TransferEntry>(r, false);
        lemma_tally_empty::<SpendEntry>(r, true);
        assert(sum_of(Seq::<int>::empty()) == 0);
    }
}

/// A spend that can be decided leaves no replica with negative rights.
pub proof fn lemma_spend_keeps_ok(m: BoundedModel, op_id: Seq<char>, replica: Seq<char>, amount: u64)
    requires
        counter_ok(m),
        bc_spend_defined(m, op_id, replica),
    ensures
        counter_ok(bc_spend(m, op_id, replica, amount).0),
{
    let m2 = bc_spend(m, op_id, replica, amount).0;
    if !m.spends.contains_key(op_id) && bc_spend(m, op_id, replica, amount).1 {
        let e = EntryModel { replica_id: replica, amount };
        lemma_available_is_value(m, replica);
        assert(m2.spends == m.spends.insert(op_id, e));
        assert forall|r: Seq<char>| #[trigger] rights_value(m2, r) >= 0 by {
            lemma_tally_sum_insert::<SpendEntry>(m.spends, op_id, e, r, true);
            assert(rights_value(m, r) >= 0);
        }
    }
}

/// A transfer of at most `i64::MAX` that can be decided leaves no replica with
/// negative rights.
pub proof fn lemma_transfer_keeps_ok(m: BoundedModel, op_id: Seq<char>, from: Seq<char>, to: Seq<char>, amount: u64)
    requires
        counter_ok(m),
        bc_transfer_defined(m, op_id, from),
        amount <= i64::MAX,
    ensures
        counter_ok(bc_transfer(m, op_id, from, to, amount).0),
{
    let m2 = bc_transfer(m, op_id, from, to, amount).0;
    if !m.transfers.contains_key(op_id) && bc_transfer(m, op_id, from, to, amount).1 {
        let t = TransferModel { from_replica: from, to_replica: to, amount };
        lemma_available_is_value(m, from);
        assert(m2.transfers == m.transfers.insert(op_id, t));
        assert forall|r: Seq<char>| #[trigger] rights_value(m2, r) >= 0 by {
            lemma_tally_sum_insert::<TransferEntry>(m.transfers, op_id, t, r, true);
            lemma_tally_sum_insert::<TransferEntry>(m.transfers, op_id, t, r, false);
            assert(rights_value(m, r) >= 0);
        }
    }
}

/// A grant of at most `i64::MAX` under a new id leaves no replica with negative rights.
pub proof fn lemma_grant_keeps_ok(m: BoundedModel, op_id: Seq<char>, replica: Seq<char>, amount: u64)
    requires
        counter_ok(m),
        !m.grants.contains_key(op_id),
        amount <= i64::MAX,
    ensures
        counter_ok(bc_grant(m, op_id, replica, amount)),
{
    let m2 = bc_grant(m, op_id, replica, amount);
    let e = EntryModel { replica_id: replica, amount };
    assert forall|r: Seq<char>| #[trigger] rights_value(m2, r) >= 0 by {
        lemma_tally_sum_insert::<GrantEntry>(m.grants, op_id, e, r, true);
        assert(rights_value(m, r) >= 0);
    }
}

/// Raising a replica's initial rights to an amount that fits in `i64` leaves no
/// replica with negative rights.
pub proof fn lemma_set_initial_keeps_ok(m: BoundedModel, replica: Seq<char>, amount: u64)
    requires
        counter_ok(m),
        amount <= i64::MAX,
    ensures
        counter_ok(bc_set_initial(m, replica, amount)),
{
    let m2 = bc_set_initial(m, replica, amount);
    assert forall|r: Seq<char>| #[trigger] rights_value(m2, r) >= 0 by {
        assert(rights_value(m, r) >= 0);
        assert(initial_of(m2, r) >= initial_of(m, r));
    }
}

/// Joining initial rights that fit in `i64` into a counter leaves no replica with
/// negative rights.
pub proof fn lemma_join_initial_keeps_ok(m: BoundedModel, rights: Map<Seq<char>, u64>)
    requires
        counter_ok(m),
        forall|r: Seq<char>| #[trigger] rights.contains_key(r) ==> rights[r] <= i64::MAX,
    ensures
        counter_ok(BoundedModel { initial_rights: map_join::<String, u64>(m.initial_rights, rights), ..m }),
{
    let m2 = BoundedModel { initial_rights: map_join::<String, u64>(m.initial_rights, rights), ..m };
    assert forall|r: Seq<char>| #[trigger] rights_value(m2, r) >= 0 by {
        assert(rights_value(m, r) >= 0);
        assert(initial_of(m2, r) >= initial_of(m, r));
    }
}

/// Joining into `x` a map `y` that agrees with it on shared keys adds to what `x`
/// books to `replica` only the terms of the keys that `y` alone holds.
proof fn lemma_join_tally<V: Tally + Join>(
    x: Map<Seq<char>, <V as DeepView>::V>,
    y: Map<Seq<char>, <V as DeepView>::V>,
    replica: Seq<char>,
    incoming: bool,
)
    requires
        x.dom().finite(),
        y.dom().finite(),
        forall|k: Seq<char>| #[trigger] x.contains_key(k) && y.contains_key(k) ==> x[k] == y[k],
    ensures
        (forall|k: Seq<char>|
            #[trigger] y.contains_key(k) && !x.contains_key(k) ==> V::tally(y[k], replica, incoming) >= 0)
            ==> tally_sum::<V>(map_join::<String, V>(x, y), replica, incoming) >= tally_sum::<V>(x, replica, incoming),
        (forall|k: Seq<char>|
            #[trigger] y.contains_key(k) && !x.contains_key(k) ==> V::tally(y[k], replica, incoming) == 0)
            ==> tally_sum::<V>(map_join::<String, V>(x, y), replica, incoming) == tally_sum::<V>(x, replica, incoming),
    decreases y.dom().len(),
{
    if y.dom().len() == 0 {
        assert(y.dom() =~= Set::<Seq<char>>::empty()) by {
            if exists|k: Seq<char>| y.dom().contains(k) {
                let k = choose|k: Seq<char>| y.dom().contains(k);
                assert(y.dom().remove(k).len() < y.dom().len());
            }
        }
        assert(map_join::<String, V>(x, y) =~= x);
    } else {
        let k = y.dom().choose();
        let y2 = y.remove(k);
        assert(y2.dom() =~= y.dom().remove(k));
        lemma_join_tally::<V>(x, y2, replica, incoming);
        let j2 = map_join::<String, V>(x, y2);
        assert(j2.dom() =~= x.dom().union(y2.dom()));
        if x.contains_key(k) {
            V::lemma_join_laws(x[k], x[k], x[k]);
            assert(map_join::<String, V>(x, y) =~= j2);
        } else {
            assert(!j2.contains_key(k));
            assert(map_join::<String, V>(x, y) =~= j2.insert(k, y[k]));
            lemma_tally_sum_insert::<V>(j2, k, y[k], replica, incoming);
        }
    }
}

/// Merging in another replica's counter never lowers the rights of `replica`: where
/// every spend booked to `replica` and every transfer out of it that the other
/// counter holds is also held here under the same id, and shared ids hold the same
/// entries, the rights of `replica` after the merge are at least those before.
/// Amounts that the other counter alone brings to `replica` (initial rights, grants,
/// incoming transfers) are those that fit in `i64`.
pub proof fn lemma_merge_keeps_rights(x: BoundedModel, y: BoundedModel, replica: Seq<char>)
    requires
        x.grants.dom().finite(),
        x.spends.dom().finite(),
        x.transfers.dom().finite(),
        y.grants.dom().finite(),
        y.spends.dom().finite(),
        y.transfers.dom().finite(),
        forall|k: Seq<char>|
            #[trigger] y.spends.contains_key(k) && y.spends[k].replica_id == replica ==> x.spends.contains_key(k),
        forall|k: Seq<char>|
            #[trigger] y.transfers.contains_key(k) && y.transfers[k].from_replica == replica
                ==> x.transfers.contains_key(k),
        forall|k: Seq<char>| #[trigger] x.grants.contains_key(k) && y.grants.contains_key(k) ==> x.grants[k] == y.grants[k],
        forall|k: Seq<char>| #[trigger] x.spends.contains_key(k) && y.spends.contains_key(k) ==> x.spends[k] == y.spends[k],
        forall|k: Seq<char>|
            #[trigger] x.transfers.contains_key(k) && y.transfers.contains_key(k) ==> x.transfers[k] == y.transfers[k],
        y.initial_rights.contains_key(replica) ==> y.initial_rights[replica] <= i64::MAX,
        forall|k: Seq<char>|
            #[trigger] y.grants.contains_key(k) && y.grants[k].replica_id == replica ==> y.grants[k].amount <= i64::MAX,
        forall|k: Seq<char>|
            #[trigger] y.transfers.contains_key(k) && y.transfers[k].to_replica == replica ==> y.transfers[k].amount
                <= i64::MAX,
    ensures
        rights_value(bc_merge(x, y), replica) >= rights_value(x, replica),
        (available_result(bc_merge(x, y), replica) is Some && available_result(x, replica) is Some) ==> available_result(
            bc_merge(x, y),
            replica,
        )->0 >= available_result(x, replica)->0,
{
    let m = bc_merge(x, y);
    lemma_join_tally::<GrantEntry>(x.grants, y.grants, replica, true);
    lemma_join_tally::<SpendEntry>(x.spends, y.spends, replica, true);
    lemma_join_tally::<TransferEntry>(x.transfers, y.transfers, replica, true);
    lemma_join_tally::<TransferEntry>(x.transfers, y.transfers, replica, false);
    assert(initial_of(m, replica) >= initial_of(x, replica));
    lemma_available_is_value(m, replica);
    lemma_available_is_value(x, replica);
}

/// A new spend is accepted exactly when the spending replica's rights cover it; an
/// accepted spend lowers that replica's rights by the amount and leaves every
/// other replica's rights as they were. Amounts above `i64::MAX` are left out.
pub proof fn lemma_spend_moves_rights(
    m: BoundedModel,
    op_id: Seq<char>,
    replica: Seq<char>,
    amount: u64,
    other: Seq<char>,
)
    requires
        m.spends.dom().finite(),
        !m.spends.contains_key(op_id),
        available_result(m, replica) is Some,
        amount <= i64::MAX,
        other != replica,
    ensures
        bc_spend(m, op_id, replica, amount).1 == (rights_value(m, replica) >= amount),
        bc_spend(m, op_id, replica, amount).1 ==> rights_value(bc_spend(m, op_id, replica, amount).0, replica)
            == rights_value(m, replica) - amount,
        !bc_spend(m, op_id, replica, amount).1 ==> bc_spend(m, op_id, replica, amount).0 == m,
        rights_value(bc_spend(m, op_id, replica, amount).0, other) == rights_value(m, other),
{
    let e = EntryModel { replica_id: replica, amount };
    lemma_available_is_value(m, replica);
    lemma_tally_sum_insert::<SpendEntry>(m.spends, op_id, e, replica, true);
    lemma_tally_sum_insert::<SpendEntry>(m.spends, op_id, e, other, true);
}

/// A new transfer is accepted exactly when the source's rights cover it; an accepted
/// transfer moves the amount from the source to the destination and leaves every
/// other replica's rights as they were. Amounts above `i64::MAX` are left out.
pub proof fn lemma_transfer_moves_rights(
    m: BoundedModel,
    op_id: Seq<char>,
    from: Seq<char>,
    to: Seq<char>,
    amount: u64,
    other: Seq<char>,
)
    requires
        m.transfers.dom().finite(),
        !m.transfers.contains_key(op_id),
        available_result(m, from) is Some,
        amount <= i64::MAX,
        from != to,
        other != from,
        other != to,
    ensures
        bc_transfer(m, op_id, from, to, amount).1 == (rights_value(m, from) >= amount),
        bc_transfer(m, op_id, from, to, amount).1 ==> {
            &&& rights_value(bc_transfer(m, op_id, from, to, amount).0, from) == rights_value(m, from) - amount
            &&& rights_value(bc_transfer(m, op_id, from, to, amount).0, to) == rights_value(m, to) + amount
        },
        !bc_transfer(m, op_id, from, to, amount).1 ==> bc_transfer(m, op_id, from, to, amount).0 == m,
        rights_value(bc_transfer(m, op_id, from, to, amount).0, other) == rights_value(m, other),
{
    let t = TransferModel { from_replica: from, to_replica: to, amount };
    lemma_available_is_value(m, from);
    lemma_tally_sum_insert::<TransferEntry>(m.transfers, op_id, t, from, true);
    lemma_tally_sum_insert::<TransferEntry>(m.transfers, op_id, t, from, false);
    lemma_tally_sum_insert::<TransferEntry>(m.transfers, op_id, t, to, true);
    lemma_tally_sum_insert::<TransferEntry>(m.transfers, op_id, t, to, false);
    lemma_tally_sum_insert::<TransferEntry>(m.transfers, op_id, t, other, true);
    lemma_tally_sum_insert::<TransferEntry>(m.transfers, op_id, t, other, false);
}

/// A grant under a new id raises the granted replica's rights by the amount and
/// leaves every other replica's rights as they were. Amounts above `i64::MAX` are
/// left out.
pub proof fn lemma_grant_adds_rights(m: BoundedModel, op_id: Seq<char>, replica: Seq<char>, amount: u64, other: Seq<char>)
    requires
        m.grants.dom().finite(),
        !m.grants.contains_key(op_id),
        amount <= i64::MAX,
        other != replica,
    ensures
        rights_value(bc_grant(m, op_id, replica, amount), replica) == rights_value(m, replica) + amount,
        rights_value(bc_grant(m, op_id, replica, amount), other) == rights_value(m, other),
{
    let e = EntryModel { replica_id: replica, amount };
    lemma_tally_sum_insert::<GrantEntry>(m.grants, op_id, e, replica, true);
    lemma_tally_sum_insert::<GrantEntry>(m.grants, op_id, e, other, true);
}

} // verus!
