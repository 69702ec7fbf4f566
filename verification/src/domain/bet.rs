//! Dice bets: the kinds of bet, when each wins and how it pays, how a bet kind is
//! written and read as text, and a placed bet.
use vstd::prelude::*;
use vstd::string::*;
use crate::text::{
    compare_text, decimal, lemma_text_lt_irreflexive, lemma_text_lt_total, lemma_text_lt_transitive,
    order_from, push_decimal, text_lt, Duplicate, KeyOrder, OrderedKey,
};

verus! {

#[derive(Debug, Clone, Copy, PartialEq, Eq, Structural, PartialOrd, Ord)]
pub enum BetKind {
    Odd,
    Even,
    High,
    Low,
    Exact(u8),
}

/// A bet of `kind` wins on `dice`.
pub open spec fn bet_wins(kind: BetKind, dice: u8) -> bool {
    match kind {
        BetKind::Odd => dice % 2 == 1,
        BetKind::Even => dice % 2 == 0,
        BetKind::High => 4 <= dice <= 6,
        BetKind::Low => 1 <= dice <= 3,
        BetKind::Exact(expected) => expected == dice,
    }
}

/// What a winning bet of `kind` pays per chip staked.
pub open spec fn bet_multiplier(kind: BetKind) -> u64 {
    match kind {
        BetKind::Exact(_) => 6,
        _ => 2,
    }
}

pub open spec fn kind_rank(kind: BetKind) -> int {
    match kind {
        BetKind::Odd => 0,
        BetKind::Even => 1,
        BetKind::High => 2,
        BetKind::Low => 3,
        BetKind::Exact(_) => 4,
    }
}

/// The order of `Ord` on bet kinds: by variant, then by the exact number.
pub open spec fn kind_lt(a: BetKind, b: BetKind) -> bool {
    kind_rank(a) < kind_rank(b) || (a is Exact && b is Exact && a->0 < b->0)
}

/// How a bet kind is written: `odd`, `even`, `high`, `low`, `exact:N`.
pub open spec fn bet_kind_text(kind: BetKind) -> Seq<char> {
    match kind {
        BetKind::Odd => seq!['o', 'd', 'd'],
        BetKind::Even => seq!['e', 'v', 'e', 'n'],
        BetKind::High => seq!['h', 'i', 'g', 'h'],
        BetKind::Low => seq!['l', 'o', 'w'],
        BetKind::Exact(n) => seq!['e', 'x', 'a', 'c', 't', ':'] + decimal(n as nat),
    }
}

/// ASCII lower case of one character; other characters are kept.
pub open spec fn lower_char(c: char) -> char {
    if ('A' as int) <= (c as int) <= ('Z' as int) {
        ((c as int) + 32) as char
    } else {
        c
    }
}

pub open spec fn has_prefix(s: Seq<char>, p: Seq<char>) -> bool {
    p.len() <= s.len() && s.take(p.len() as int) == p
}

/// `s` with every leading repetition of `p` removed.
pub open spec fn strip_prefixes(s: Seq<char>, p: Seq<char>) -> Seq<char>
    decreases s.len(),
{
    if p.len() > 0 && has_prefix(s, p) {
        strip_prefixes(s.skip(p.len() as int), p)
    } else {
        s
    }
}

/// The value of a decimal digit character.
pub open spec fn digit_value(c: char) -> Option<u8> {
    if c == '0' { Some(0u8) }
    else if c == '1' { Some(1u8) }
    else if c == '2' { Some(2u8) }
    else if c == '3' { Some(3u8) }
    else if c == '4' { Some(4u8) }
    else if c == '5' { Some(5u8) }
    else if c == '6' { Some(6u8) }
    else if c == '7' { Some(7u8) }
    else if c == '8' { Some(8u8) }
    else if c == '9' { Some(9u8) }
    else { None }
}

pub open spec fn is_digit(c: char) -> bool {
    digit_value(c) is Some
}

pub(crate) fn digit_of(c: char) -> (r: Option<u8>)
    ensures
        r == digit_value(c),
{
    if c == '0' { Some(0u8) }
    else if c == '1' { Some(1u8) }
    else if c == '2' { Some(2u8) }
    else if c == '3' { Some(3u8) }
    else if c == '4' { Some(4u8) }
    else if c == '5' { Some(5u8) }
    else if c == '6' { Some(6u8) }
    else if c == '7' { Some(7u8) }
    else if c == '8' { Some(8u8) }
    else if c == '9' { Some(9u8) }
    else { None }
}

pub open spec fn digits_value(s: Seq<char>) -> nat
    decreases s.len(),
{
    if s.len() == 0 {
        0
    } else {
        digits_value(s.drop_last()) * 10 + (digit_value(s.last())->0 as nat)
    }
}

/// `s` without one leading `+`.
pub open spec fn strip_plus(s: Seq<char>) -> Seq<char> {
    if s.len() > 0 && s[0] == '+' {
        s.drop_first()
    } else {
        s
    }
}

/// A non-empty run of decimal digits with a value of at most 255.
pub open spec fn parse_digits(d: Seq<char>) -> Option<u8> {
    if d.len() > 0 && (forall|i: int| 0 <= i < d.len() ==> is_digit(#[trigger] d[i])) && digits_value(d)
        <= 255 {
        Some(digits_value(d) as u8)
    } else {
        None
    }
}

/// Reading a `u8` as `str::parse` does: an optional `+`, then at least one decimal
/// digit, with a value of at most 255.
pub open spec fn parse_u8(s: Seq<char>) -> Option<u8> {
    parse_digits(strip_plus(s))
}

pub open spec fn exact_colon() -> Seq<char> {
    seq!['e', 'x', 'a', 'c', 't', ':']
}

pub open spec fn exact_word() -> Seq<char> {
    seq!['e', 'x', 'a', 'c', 't']
}

/// Reading a bet kind, ignoring ASCII case: `odd`, `even`, `high`, `low`, `exact:N`
/// or `exactN` for N from 1 to 6; anything else is refused with a message.
pub open spec fn parse_bet_kind(s: Seq<char>) -> Result<BetKind, Seq<char>> {
    let l = s.map_values(|c: char| lower_char(c));
    if l == seq!['o', 'd', 'd'] {
        Ok(BetKind::Odd)
    } else if l == seq!['e', 'v', 'e', 'n'] {
        Ok(BetKind::Even)
    } else if l == seq!['h', 'i', 'g', 'h'] {
        Ok(BetKind::High)
    } else if l == seq!['l', 'o', 'w'] {
        Ok(BetKind::Low)
    } else if has_prefix(l, exact_colon()) {
        match parse_u8(strip_prefixes(l, exact_colon())) {
            Some(n) => if 1 <= n <= 6 {
                Ok(BetKind::Exact(n))
            } else {
                Err("exact bet must be exact:1 through exact:6"@)
            },
            None => Err("exact bet must be exact:1 through exact:6"@),
        }
    } else if has_prefix(l, exact_word()) {
        match parse_u8(strip_prefixes(l, exact_word())) {
            Some(n) => if 1 <= n <= 6 {
                Ok(BetKind::Exact(n))
            } else {
                Err("exact bet must be exact1 through exact6"@)
            },
            None => Err("exact bet must be exact1 through exact6"@),
        }
    } else {
        Err("bet kind must be odd, even, high, low, exact:N, or exactN"@)
    }
}

/// Calls `str::to_ascii_lowercase`: the documentation maps `A`-`Z` to `a`-`z` and
/// keeps every other character.
#[verifier::external_body]
pub(crate) fn ascii_lowercase(s: &str) -> (r: String)
    ensures
        r@ == s@.map_values(|c: char| lower_char(c)),
{
    s.to_ascii_lowercase()
}

/// The characters of `s`.
pub(crate) fn chars_of(s: &str) -> (v: Vec<char>)
    ensures
        v@ == s@,
{
    let n = s.unicode_len();
    let mut v: Vec<char> = Vec::new();
    for i in 0..n
        invariant
            n == s@.len(),
            v@ == s@.take(i as int),
    {
        v.push(s.get_char(i));
        assert(v@ =~= s@.take(i + 1));
    }
    assert(s@.take(n as int) =~= s@);
    v
}

/// Whether `v[start..]` begins with `p`.
fn starts_with_at(v: &Vec<char>, start: usize, p: &Vec<char>) -> (r: bool)
    requires
        start <= v@.len(),
    ensures
        r == has_prefix(v@.skip(start as int), p@),
{
    let vlen = v.len();
    if vlen - start < p.len() {
        return false;
    }
    let n = p.len();
    for i in 0..n
        invariant
            n == p@.len(),
            vlen == v@.len(),
            start + n <= v@.len(),
            forall|j: int| 0 <= j < i ==> v@[start + j] == p@[j],
    {
        assert(start + i < v@.len());
        let idx = start + i;
        if v[idx] != p[i] {
            assert(v@.skip(start as int).take(n as int)[i as int] != p@[i as int]);
            return false;
        }
    }
    assert(v@.skip(start as int).take(n as int) =~= p@);
    true
}

fn literal_chars(s: &str) -> (v: Vec<char>)
    ensures
        v@ == s@,
{
    chars_of(s)
}

/// Reads a `u8` from `v[start..]`; see `parse_u8`.
pub(crate) fn parse_u8_at(v: &Vec<char>, start: usize) -> (r: Option<u8>)
    requires
        start <= v@.len(),
    ensures
        r == parse_u8(v@.skip(start as int)),
{
    let ghost s = v@.skip(start as int);
    let mut i = start;
    if i < v.len() && v[i] == '+' {
        i = i + 1;
    }
    let ghost d = v@.skip(i as int);
    assert(d =~= strip_plus(s));
    if i == v.len() {
        return None;
    }
    let mut acc: u64 = 0;
    let n = v.len();
    let mut k = i;
    while k < n
        invariant
            i <= k <= n,
            n == v@.len(),
            d == v@.skip(i as int),
            s == v@.skip(start as int),
            d == strip_plus(s),
            i < n,
            acc <= 255,
            acc == digits_value(d.take(k - i)),
            forall|j: int| 0 <= j < k - i ==> is_digit(#[trigger] d[j]),
        decreases n - k,
    {
        let c = v[k];
        assert(d.take(k - i + 1).drop_last() =~= d.take(k - i));
        let digit = match digit_of(c) {
            Some(x) => x as u64,
            None => {
                assert(!is_digit(d[k - i]));
                assert(!(forall|j: int| 0 <= j < d.len() ==> is_digit(#[trigger] d[j])));
                assert(parse_digits(d) is None);
                return None;
            },
        };
        assert(is_digit(d[k - i]));
        assert(d.take(k - i + 1).last() == d[k - i]);
        acc = acc * 10 + digit;
        assert(acc == digits_value(d.take(k - i + 1)));
        if acc > 255 {
            proof {
                lemma_digits_prefix(d, k - i + 1);
                if forall|j: int| 0 <= j < d.len() ==> is_digit(#[trigger] d[j]) {
                    assert(digits_value(d) > 255);
                }
                assert(parse_digits(d) is None);
            }
            return None;
        }
        k = k + 1;
    }
    assert(d.take(n - i) =~= d);
    Some(acc as u8)
}

proof fn lemma_digits_prefix(d: Seq<char>, j: int)
    requires
        0 <= j <= d.len(),
        forall|i: int| 0 <= i < j ==> is_digit(#[trigger] d[i]),
    ensures
        (forall|i: int| 0 <= i < d.len() ==> is_digit(#[trigger] d[i])) ==> digits_value(d.take(j))
            <= digits_value(d),
    decreases d.len() - j,
{
    if j < d.len() {
        if forall|i: int| 0 <= i < d.len() ==> is_digit(#[trigger] d[i]) {
            lemma_digits_prefix(d, j + 1);
            assert(d.take(j + 1).drop_last() =~= d.take(j));
        }
    } else {
        assert(d.take(j) =~= d);
    }
}

/// Removes every leading repetition of `p` from `v`, returning where the rest starts.
fn strip_prefixes_at(v: &Vec<char>, p: &Vec<char>) -> (start: usize)
    requires
        p@.len() > 0,
    ensures
        start <= v@.len(),
        v@.skip(start as int) == strip_prefixes(v@, p@),
{
    let mut start: usize = 0;
    assert(v@.skip(0) =~= v@);
    while start <= v.len() && starts_with_at(v, start, p)
        invariant
            start <= v@.len(),
            strip_prefixes(v@.skip(start as int), p@) == strip_prefixes(v@, p@),
            p@.len() > 0,
        decreases v@.len() - start,
    {
        assert(v@.skip(start as int).skip(p@.len() as int) =~= v@.skip(start + p@.len()));
        start = start + p.len();
    }
    start
}

impl BetKind {
    pub fn wins(&self, dice: u8) -> (r: bool)
        ensures
            r == bet_wins(*self, dice),
    {
        match self {
            BetKind::Odd => dice % 2 == 1,
            BetKind::Even => dice % 2 == 0,
            BetKind::High => 4 <= dice && dice <= 6,
            BetKind::Low => 1 <= dice && dice <= 3,
            BetKind::Exact(expected) => *expected == dice,
        }
    }

    pub fn multiplier(&self) -> (r: u64)
        ensures
            r == bet_multiplier(*self),
    {
        match self {
            BetKind::Exact(_) => 6,
            BetKind::Odd | BetKind::Even | BetKind::High | BetKind::Low => 2,
        }
    }

    /// The text of the kind: `odd`, `even`, `high`, `low` or `exact:N`.
    pub fn as_text(&self) -> (r: String)
        ensures
            r@ == bet_kind_text(*self),
    {
        proof {
            reveal_strlit("odd");
            reveal_strlit("even");
            reveal_strlit("high");
            reveal_strlit("low");
            reveal_strlit("exact:");
        }
        match self {
            BetKind::Odd => String::from_str("odd"),
            BetKind::Even => String::from_str("even"),
            BetKind::High => String::from_str("high"),
            BetKind::Low => String::from_str("low"),
            BetKind::Exact(n) => {
                let mut s = String::from_str("exact:");
                push_decimal(&mut s, *n as u64);
                s
            },
        }
    }

    /// Reads a bet kind; see `parse_bet_kind`.
    pub fn parse(value: &str) -> (r: Result<BetKind, String>)
        ensures
            match r {
                Ok(k) => parse_bet_kind(value@) == Ok::<BetKind, Seq<char>>(k),
                Err(e) => parse_bet_kind(value@) == Err::<BetKind, Seq<char>>(e@),
            },
    {
        let lowered = ascii_lowercase(value);
        let v = chars_of(lowered.as_str());
        let ghost l = value@.map_values(|c: char| lower_char(c));
        assert(v@ == l);
        proof {
            reveal_strlit("odd");
            reveal_strlit("even");
            reveal_strlit("high");
            reveal_strlit("low");
            reveal_strlit("exact:");
            reveal_strlit("exact");
        }
        if compare_text(lowered.as_str(), "odd") == KeyOrder::Equal {
            assert("odd"@ =~= seq!['o', 'd', 'd']);
            return Ok(BetKind::Odd);
        }
        if compare_text(lowered.as_str(), "even") == KeyOrder::Equal {
            assert("even"@ =~= seq!['e', 'v', 'e', 'n']);
            return Ok(BetKind::Even);
        }
        if compare_text(lowered.as_str(), "high") == KeyOrder::Equal {
            assert("high"@ =~= seq!['h', 'i', 'g', 'h']);
            return Ok(BetKind::High);
        }
        if compare_text(lowered.as_str(), "low") == KeyOrder::Equal {
            assert("low"@ =~= seq!['l', 'o', 'w']);
            return Ok(BetKind::Low);
        }
        proof {
            lemma_text_lt_irreflexive(l);
            assert("odd"@ =~= seq!['o', 'd', 'd']);
            assert("even"@ =~= seq!['e', 'v', 'e', 'n']);
            assert("high"@ =~= seq!['h', 'i', 'g', 'h']);
            assert("low"@ =~= seq!['l', 'o', 'w']);
        }
        let colon = literal_chars("exact:");
        let word = literal_chars("exact");
        assert(colon@ =~= exact_colon());
        assert(word@ =~= exact_word());
        assert(v@.skip(0) =~= v@);
        if starts_with_at(&v, 0, &colon) {
            let start = strip_prefixes_at(&v, &colon);
            match parse_u8_at(&v, start) {
                Some(n) => {
                    if 1 <= n && n <= 6 {
                        return Ok(BetKind::Exact(n));
                    }
                    return Err(String::from_str("exact bet must be exact:1 through exact:6"));
                },
                None => {
                    return Err(String::from_str("exact bet must be exact:1 through exact:6"));
                },
            }
        }
        if starts_with_at(&v, 0, &word) {
            let start = strip_prefixes_at(&v, &word);
            match parse_u8_at(&v, start) {
                Some(n) => {
                    if 1 <= n && n <= 6 {
                        return Ok(BetKind::Exact(n));
                    }
                    return Err(String::from_str("exact bet must be exact1 through exact6"));
                },
                None => {
                    return Err(String::from_str("exact bet must be exact1 through exact6"));
                },
            }
        }
        Err(String::from_str("bet kind must be odd, even, high, low, exact:N, or exactN"))
    }
}

impl core::str::FromStr for BetKind {
    type Err = String;

    fn from_str(value: &str) -> (r: Result<BetKind, String>)
        ensures
            match r {
                Ok(k) => parse_bet_kind(value@) == Ok::<BetKind, Seq<char>>(k),
                Err(e) => parse_bet_kind(value@) == Err::<BetKind, Seq<char>>(e@),
            },
    {
        BetKind::parse(value)
    }
}

#[derive(Debug, Clone, PartialEq, Eq, PartialOrd, Ord)]
pub struct Bet {
    pub id: String,
    pub player_id: String,
    pub round_id: String,
    pub amount: u64,
    pub kind: BetKind,
    pub origin_replica: String,
    pub origin_lamport: u64,
}

/// The model of a bet.
pub struct BetModel {
    pub id: Seq<char>,
    pub player_id: Seq<char>,
    pub round_id: Seq<char>,
    pub amount: u64,
    pub kind: BetKind,
    pub origin_replica: Seq<char>,
    pub origin_lamport: u64,
}

impl DeepView for Bet {
    type V = BetModel;

    open spec fn deep_view(&self) -> BetModel {
        BetModel {
            id: self.id@,
            player_id: self.player_id@,
            round_id: self.round_id@,
            amount: self.amount,
            kind: self.kind,
            origin_replica: self.origin_replica@,
            origin_lamport: self.origin_lamport,
        }
    }
}

impl View for Bet {
    type V = BetModel;

    open spec fn view(&self) -> BetModel {
        self.deep_view()
    }
}

/// The order of `Ord` on bets: field by field in declaration order.
pub open spec fn bet_lt(a: BetModel, b: BetModel) -> bool {
    if a.id != b.id {
        text_lt(a.id, b.id)
    } else if a.player_id != b.player_id {
        text_lt(a.player_id, b.player_id)
    } else if a.round_id != b.round_id {
        text_lt(a.round_id, b.round_id)
    } else if a.amount != b.amount {
        a.amount < b.amount
    } else if a.kind != b.kind {
        kind_lt(a.kind, b.kind)
    } else if a.origin_replica != b.origin_replica {
        text_lt(a.origin_replica, b.origin_replica)
    } else {
        a.origin_lamport < b.origin_lamport
    }
}

proof fn lemma_text_order(a: Seq<char>, b: Seq<char>, c: Seq<char>)
    ensures
        !text_lt(a, a),
        text_lt(a, b) && text_lt(b, c) ==> text_lt(a, c),
        a == b || text_lt(a, b) || text_lt(b, a),
        text_lt(a, b) ==> !text_lt(b, a),
{
    lemma_text_lt_irreflexive(a);
    if text_lt(a, b) && text_lt(b, c) {
        lemma_text_lt_transitive(a, b, c);
    }
    if text_lt(a, b) && text_lt(b, a) {
        lemma_text_lt_transitive(a, b, a);
    }
    lemma_text_lt_total(a, b);
}

proof fn lemma_bet_order(a: BetModel, b: BetModel, c: BetModel)
    ensures
        !bet_lt(a, a),
        bet_lt(a, b) && bet_lt(b, c) ==> bet_lt(a, c),
        a == b || bet_lt(a, b) || bet_lt(b, a),
{
    lemma_text_order(a.id, b.id, c.id);
    lemma_text_order(b.id, c.id, a.id);
    lemma_text_order(a.player_id, b.player_id, c.player_id);
    lemma_text_order(b.player_id, c.player_id, a.player_id);
    lemma_text_order(a.round_id, b.round_id, c.round_id);
    lemma_text_order(b.round_id, c.round_id, a.round_id);
    lemma_text_order(a.origin_replica, b.origin_replica, c.origin_replica);
    lemma_text_order(b.origin_replica, c.origin_replica, a.origin_replica);
    lemma_text_order(a.id, c.id, b.id);
    lemma_text_order(a.player_id, c.player_id, b.player_id);
    lemma_text_order(a.round_id, c.round_id, b.round_id);
    lemma_text_order(a.origin_replica, c.origin_replica, b.origin_replica);
}

fn compare_kind(a: BetKind, b: BetKind) -> (r: KeyOrder)
    ensures
        r == order_from(kind_lt(a, b), a == b),
{
    let ra: u8 = match a {
        BetKind::Odd => 0,
        BetKind::Even => 1,
        BetKind::High => 2,
        BetKind::Low => 3,
        BetKind::Exact(_) => 4,
    };
    let rb: u8 = match b {
        BetKind::Odd => 0,
        BetKind::Even => 1,
        BetKind::High => 2,
        BetKind::Low => 3,
        BetKind::Exact(_) => 4,
    };
    if ra < rb {
        KeyOrder::Less
    } else if ra > rb {
        KeyOrder::Greater
    } else {
        match (a, b) {
            (BetKind::Exact(x), BetKind::Exact(y)) => {
                if x < y {
                    KeyOrder::Less
                } else if x == y {
                    KeyOrder::Equal
                } else {
                    KeyOrder::Greater
                }
            },
            _ => KeyOrder::Equal,
        }
    }
}

impl Duplicate for Bet {
    open spec fn valid(&self) -> bool {
        true
    }

    fn duplicate(&self) -> (r: Self) {
        Bet {
            id: self.id.clone(),
            player_id: self.player_id.clone(),
            round_id: self.round_id.clone(),
            amount: self.amount,
            kind: self.kind,
            origin_replica: self.origin_replica.clone(),
            origin_lamport: self.origin_lamport,
        }
    }
}

impl OrderedKey for Bet {
    proof fn lemma_always_valid(&self) {
    }

    open spec fn key_lt(a: BetModel, b: BetModel) -> bool {
        bet_lt(a, b)
    }

    proof fn lemma_key_order(a: BetModel, b: BetModel, c: BetModel) {
        lemma_bet_order(a, b, c);
    }

    fn compare_key(&self, other: &Self) -> (r: KeyOrder) {
        proof {
            lemma_bet_order(self.deep_view(), other.deep_view(), other.deep_view());
            lemma_text_order(self.id@, other.id@, other.id@);
            lemma_text_order(self.player_id@, other.player_id@, other.player_id@);
            lemma_text_order(self.round_id@, other.round_id@, other.round_id@);
            lemma_text_order(self.origin_replica@, other.origin_replica@, other.origin_replica@);
        }
        let c = compare_text(self.id.as_str(), other.id.as_str());
        if c != KeyOrder::Equal {
            return c;
        }
        let c = compare_text(self.player_id.as_str(), other.player_id.as_str());
        if c != KeyOrder::Equal {
            return c;
        }
        let c = compare_text(self.round_id.as_str(), other.round_id.as_str());
        if c != KeyOrder::Equal {
            return c;
        }
        if self.amount != other.amount {
            return if self.amount < other.amount {
                KeyOrder::Less
            } else {
                KeyOrder::Greater
            };
        }
        let c = compare_kind(self.kind, other.kind);
        if c != KeyOrder::Equal {
            return c;
        }
        let c = compare_text(self.origin_replica.as_str(), other.origin_replica.as_str());
        if c != KeyOrder::Equal {
            return c;
        }
        if self.origin_lamport < other.origin_lamport {
            KeyOrder::Less
        } else if self.origin_lamport == other.origin_lamport {
            KeyOrder::Equal
        } else {
            KeyOrder::Greater
        }
    }
}

/// Lower-casing twice is lower-casing once.
proof fn lemma_lower_char_idempotent(c: char)
    ensures
        lower_char(lower_char(c)) == lower_char(c),
{
    if ('A' as int) <= (c as int) <= ('Z' as int) {
        assert((((c as int) + 32) as char) as int == (c as int) + 32);
    }
}

/// Reading a bet kind ignores ASCII case: a text reads as its lower-case form does.
pub proof fn lemma_parse_ignores_case(s: Seq<char>)
    ensures
        parse_bet_kind(s.map_values(|c: char| lower_char(c))) == parse_bet_kind(s),
{
    let l = s.map_values(|c: char| lower_char(c));
    assert forall|i: int| 0 <= i < l.len() implies lower_char(#[trigger] l[i]) == l[i] by {
        lemma_lower_char_idempotent(s[i]);
    }
    assert(l.map_values(|c: char| lower_char(c)) =~= l);
}

/// A text that is already lower case reads unchanged by lower-casing.
proof fn lemma_lower_of_lower_text(t: Seq<char>)
    requires
        forall|i: int| 0 <= i < t.len() ==> !(('A' as int) <= (#[trigger] t[i] as int) <= ('Z' as int)),
    ensures
        t.map_values(|c: char| lower_char(c)) == t,
{
    assert(t.map_values(|c: char| lower_char(c)) =~= t);
}

/// Reading the text of a bet kind gives the kind back, for every kind a bet can
/// have (an exact bet names 1 through 6).
pub proof fn lemma_bet_kind_text_round_trip(k: BetKind)
    requires
        k matches BetKind::Exact(n) ==> 1 <= n <= 6,
    ensures
        parse_bet_kind(bet_kind_text(k)) == Ok::<BetKind, Seq<char>>(k),
{
    let t = bet_kind_text(k);
    match k {
        BetKind::Exact(n) => {
            let d = crate::text::digit_char(n as nat);
            assert(decimal(n as nat) == seq![d]);
            assert(t =~= seq!['e', 'x', 'a', 'c', 't', ':', d]);
            lemma_lower_of_lower_text(t);
            assert(has_prefix(t, exact_colon())) by {
                assert(t.take(6) =~= exact_colon());
            }
            assert(t.skip(6) =~= seq![d]);
            assert(!has_prefix(seq![d], exact_colon()));
            assert(strip_prefixes(seq![d], exact_colon()) == seq![d]);
            assert(strip_prefixes(t, exact_colon()) == strip_prefixes(t.skip(6), exact_colon()));
            assert(strip_prefixes(t, exact_colon()) == seq![d]);
            assert(strip_plus(seq![d]) == seq![d]);
            assert(seq![d].drop_last() =~= Seq::<char>::empty());
            assert(digit_value(d) == Some(n));
            assert(digits_value(Seq::<char>::empty()) == 0);
            assert(seq![d].last() == d);
            assert(digits_value(seq![d]) == n);
            assert(parse_u8(seq![d]) == Some(n));
        },
        _ => {
            lemma_lower_of_lower_text(t);
        },
    }
}

/// How each kind of bet fares on each face of the die: high wins on 4, 5 and 6, low
/// on 1, 2 and 3, so exactly one of them wins on every face; odd wins on 1, 3 and
/// 5, even on 2, 4 and 6, again exactly one of them; an exact bet wins on its own
/// number only. Winning high, low, odd and even bets pay twice the stake, a
/// winning exact bet six times.
pub proof fn lemma_dice_outcomes(d: u8)
    requires
        1 <= d <= 6,
    ensures
        bet_wins(BetKind::High, d) == (d == 4 || d == 5 || d == 6),
        bet_wins(BetKind::Low, d) == (d == 1 || d == 2 || d == 3),
        bet_wins(BetKind::High, d) != bet_wins(BetKind::Low, d),
        bet_wins(BetKind::Odd, d) == (d == 1 || d == 3 || d == 5),
        bet_wins(BetKind::Even, d) == (d == 2 || d == 4 || d == 6),
        bet_wins(BetKind::Odd, d) != bet_wins(BetKind::Even, d),
        forall|n: u8| #[trigger] bet_wins(BetKind::Exact(n), d) == (n == d),
        bet_multiplier(BetKind::High) == 2,
        bet_multiplier(BetKind::Low) == 2,
        bet_multiplier(BetKind::Odd) == 2,
        bet_multiplier(BetKind::Even) == 2,
        forall|n: u8| #[trigger] bet_multiplier(BetKind::Exact(n)) == 6,
{
}

} // verus!
