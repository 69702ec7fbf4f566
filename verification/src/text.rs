//! Text helpers: the lexicographic order that Rust gives `str`, decimal rendering of
//! integers, and the small traits (`Duplicate`, `OrderedKey`) that the sorted
//! collections of this crate are generic over.
use vstd::prelude::*;
use vstd::string::*;

verus! {

/// The outcome of comparing two keys.
#[derive(PartialEq, Eq, Structural, Clone, Copy, Debug)]
pub enum KeyOrder {
    Less,
    Equal,
    Greater,
}

/// Code-point lexicographic order on character sequences. UTF-8 keeps code-point
/// order byte by byte, so this is the order of `Ord for str`.
pub open spec fn text_lt(a: Seq<char>, b: Seq<char>) -> bool
    decreases a.len(),
{
    if a.len() == 0 {
        b.len() > 0
    } else if b.len() == 0 {
        false
    } else if a[0] != b[0] {
        (a[0] as int) < (b[0] as int)
    } else {
        text_lt(a.drop_first(), b.drop_first())
    }
}

pub proof fn lemma_text_lt_irreflexive(a: Seq<char>)
    ensures
        !text_lt(a, a),
    decreases a.len(),
{
    if a.len() > 0 {
        lemma_text_lt_irreflexive(a.drop_first());
    }
}

pub proof fn lemma_text_lt_transitive(a: Seq<char>, b: Seq<char>, c: Seq<char>)
    requires
        text_lt(a, b),
        text_lt(b, c),
    ensures
        text_lt(a, c),
    decreases a.len(),
{
    if a.len() > 0 && b.len() > 0 && c.len() > 0 {
        if a[0] == b[0] && b[0] == c[0] {
            lemma_text_lt_transitive(a.drop_first(), b.drop_first(), c.drop_first());
        }
    }
}

pub proof fn lemma_text_lt_total(a: Seq<char>, b: Seq<char>)
    ensures
        a == b || text_lt(a, b) || text_lt(b, a),
    decreases a.len(),
{
    if a.len() > 0 && b.len() > 0 {
        if a[0] == b[0] {
            lemma_text_lt_total(a.drop_first(), b.drop_first());
            if a.drop_first() == b.drop_first() {
                assert(a =~= seq![a[0]] + a.drop_first());
                assert(b =~= seq![b[0]] + b.drop_first());
            }
        } else {
            assert((a[0] as int) != (b[0] as int));
        }
    } else if a.len() == 0 && b.len() == 0 {
        assert(a =~= b);
    }
}

/// Two sequences that agree on their first `i` characters compare as their rests do.
proof fn lemma_text_lt_skip(a: Seq<char>, b: Seq<char>, i: int)
    requires
        0 <= i <= a.len(),
        i <= b.len(),
        a.subrange(0, i) == b.subrange(0, i),
    ensures
        text_lt(a, b) == text_lt(a.skip(i), b.skip(i)),
        (a == b) == (a.skip(i) == b.skip(i)),
    decreases i,
{
    if i > 0 {
        assert(a[0] == a.subrange(0, i)[0]);
        assert(b[0] == b.subrange(0, i)[0]);
        assert(a.drop_first().subrange(0, i - 1) =~= a.subrange(0, i).drop_first());
        assert(b.drop_first().subrange(0, i - 1) =~= b.subrange(0, i).drop_first());
        lemma_text_lt_skip(a.drop_first(), b.drop_first(), i - 1);
        assert(a.drop_first().skip(i - 1) =~= a.skip(i));
        assert(b.drop_first().skip(i - 1) =~= b.skip(i));
        if a.drop_first() == b.drop_first() {
            assert(a =~= seq![a[0]] + a.drop_first());
            assert(b =~= seq![b[0]] + b.drop_first());
        }
    } else {
        assert(a.skip(0) =~= a);
        assert(b.skip(0) =~= b);
    }
}

/// The three-way outcome that a strict order `lt` and equality give for `a` against `b`.
pub open spec fn order_from(a_lt_b: bool, a_eq_b: bool) -> KeyOrder {
    if a_lt_b {
        KeyOrder::Less
    } else if a_eq_b {
        KeyOrder::Equal
    } else {
        KeyOrder::Greater
    }
}

/// Compares two strings in the order of `Ord for str`.
pub fn compare_text(a: &str, b: &str) -> (r: KeyOrder)
    ensures
        r == order_from(text_lt(a@, b@), a@ == b@),
{
    let la = a.unicode_len();
    let lb = b.unicode_len();
    let mut i: usize = 0;
    assert(a@.subrange(0, 0) =~= b@.subrange(0, 0));
    while i < la && i < lb
        invariant
            la == a@.len(),
            lb == b@.len(),
            i <= la,
            i <= lb,
            a@.subrange(0, i as int) == b@.subrange(0, i as int),
        decreases la - i,
    {
        let ca = a.get_char(i);
        let cb = b.get_char(i);
        if ca != cb {
            proof {
                lemma_text_lt_skip(a@, b@, i as int);
                assert(a@.skip(i as int)[0] == ca);
                assert(b@.skip(i as int)[0] == cb);
                assert(a@.skip(i as int) != b@.skip(i as int));
            }
            if ca < cb {
                return KeyOrder::Less;
            } else {
                return KeyOrder::Greater;
            }
        }
        assert(a@.subrange(0, i + 1) =~= a@.subrange(0, i as int).push(ca));
        assert(b@.subrange(0, i + 1) =~= b@.subrange(0, i as int).push(cb));
        i = i + 1;
    }
    proof {
        lemma_text_lt_skip(a@, b@, i as int);
    }
    if la == lb {
        assert(a@.skip(i as int) =~= b@.skip(i as int));
        KeyOrder::Equal
    } else if la < lb {
        assert(a@.skip(i as int).len() == 0);
        KeyOrder::Less
    } else {
        assert(b@.skip(i as int).len() == 0);
        assert(a@.skip(i as int).len() > 0);
        KeyOrder::Greater
    }
}

/// Values that can be copied with their model kept.
pub trait Duplicate: DeepView + Sized {
    /// The value's own well-formedness.
    spec fn valid(&self) -> bool;

    fn duplicate(&self) -> (r: Self)
        requires
            self.valid(),
        ensures
            r.deep_view() == self.deep_view(),
            r.valid(),
    ;
}

/// Keys of the sorted collections: a strict total order on their models and an
/// executable comparison that follows it.
pub trait OrderedKey: Duplicate {
    proof fn lemma_always_valid(&self)
        ensures
            self.valid(),
    ;

    spec fn key_lt(a: <Self as DeepView>::V, b: <Self as DeepView>::V) -> bool;

    proof fn lemma_key_order(
        a: <Self as DeepView>::V,
        b: <Self as DeepView>::V,
        c: <Self as DeepView>::V,
    )
        ensures
            !Self::key_lt(a, a),
            Self::key_lt(a, b) && Self::key_lt(b, c) ==> Self::key_lt(a, c),
            a == b || Self::key_lt(a, b) || Self::key_lt(b, a),
    ;

    fn compare_key(&self, other: &Self) -> (r: KeyOrder)
        ensures
            r == order_from(
                Self::key_lt(self.deep_view(), other.deep_view()),
                self.deep_view() == other.deep_view(),
            ),
    ;
}

/// Values whose models an executable test can compare.
pub trait SameValue: Duplicate {
    fn same_value(&self, other: &Self) -> (r: bool)
        requires
            self.valid(),
            other.valid(),
        ensures
            r == (self.deep_view() == other.deep_view()),
    ;
}

impl SameValue for String {
    fn same_value(&self, other: &String) -> (r: bool) {
        proof {
            lemma_text_lt_irreflexive(self@);
        }
        compare_text(self.as_str(), other.as_str()) == KeyOrder::Equal
    }
}

impl SameValue for u64 {
    fn same_value(&self, other: &u64) -> (r: bool) {
        *self == *other
    }
}

impl SameValue for () {
    fn same_value(&self, other: &()) -> (r: bool) {
        true
    }
}

impl SameValue for Option<String> {
    fn same_value(&self, other: &Option<String>) -> (r: bool) {
        match (self, other) {
            (Some(a), Some(b)) => a.same_value(b),
            (None, None) => true,
            _ => false,
        }
    }
}

impl Duplicate for String {
    open spec fn valid(&self) -> bool {
        true
    }

    fn duplicate(&self) -> (r: String) {
        self.clone()
    }
}

impl OrderedKey for String {
    proof fn lemma_always_valid(&self) {
    }

    open spec fn key_lt(a: Seq<char>, b: Seq<char>) -> bool {
        text_lt(a, b)
    }

    proof fn lemma_key_order(a: Seq<char>, b: Seq<char>, c: Seq<char>) {
        lemma_text_lt_irreflexive(a);
        if text_lt(a, b) && text_lt(b, c) {
            lemma_text_lt_transitive(a, b, c);
        }
        lemma_text_lt_total(a, b);
    }

    fn compare_key(&self, other: &String) -> (r: KeyOrder) {
        compare_text(self.as_str(), other.as_str())
    }
}

impl Duplicate for u64 {
    open spec fn valid(&self) -> bool {
        true
    }

    fn duplicate(&self) -> (r: u64) {
        *self
    }
}

impl Duplicate for () {
    open spec fn valid(&self) -> bool {
        true
    }

    fn duplicate(&self) -> (r: ()) {
        ()
    }
}

impl Duplicate for Option<String> {
    open spec fn valid(&self) -> bool {
        true
    }

    fn duplicate(&self) -> (r: Option<String>) {
        match self {
            Some(s) => Some(s.clone()),
            None => None,
        }
    }
}

/// The character of a decimal digit.
pub open spec fn digit_char(d: nat) -> char {
    if d == 0 { '0' }
    else if d == 1 { '1' }
    else if d == 2 { '2' }
    else if d == 3 { '3' }
    else if d == 4 { '4' }
    else if d == 5 { '5' }
    else if d == 6 { '6' }
    else if d == 7 { '7' }
    else if d == 8 { '8' }
    else { '9' }
}

/// The decimal digits of `n`, most significant first, without leading zeros.
pub open spec fn decimal(n: nat) -> Seq<char>
    decreases n,
{
    if n < 10 {
        seq![digit_char(n)]
    } else {
        decimal(n / 10).push(digit_char(n % 10))
    }
}

/// The decimal text of a signed integer, with `-` before a negative one.
pub open spec fn signed_decimal(n: int) -> Seq<char> {
    if n < 0 {
        seq!['-'] + decimal((-n) as nat)
    } else {
        decimal(n as nat)
    }
}

fn digit_text(d: u64) -> (r: &'static str)
    requires
        d < 10,
    ensures
        r@ == seq![digit_char(d as nat)],
{
    proof {
        reveal_strlit("0");
        reveal_strlit("1");
        reveal_strlit("2");
        reveal_strlit("3");
        reveal_strlit("4");
        reveal_strlit("5");
        reveal_strlit("6");
        reveal_strlit("7");
        reveal_strlit("8");
        reveal_strlit("9");
    }
    let r = if d == 0 { "0" }
    else if d == 1 { "1" }
    else if d == 2 { "2" }
    else if d == 3 { "3" }
    else if d == 4 { "4" }
    else if d == 5 { "5" }
    else if d == 6 { "6" }
    else if d == 7 { "7" }
    else if d == 8 { "8" }
    else { "9" };
    assert(r@ =~= seq![digit_char(d as nat)]);
    r
}

/// Appends the decimal text of `n` to `out`.
pub fn push_decimal(out: &mut String, n: u64)
    ensures
        final(out)@ == old(out)@ + decimal(n as nat),
    decreases n,
{
    if n < 10 {
        out.append(digit_text(n));
    } else {
        push_decimal(out, n / 10);
        out.append(digit_text(n % 10));
        assert(decimal(n as nat) =~= decimal((n / 10) as nat) + seq![digit_char((n % 10) as nat)]);
    }
}

/// Appends the decimal text of a signed `n` to `out`.
pub fn push_signed_decimal(out: &mut String, n: i64)
    ensures
        final(out)@ == old(out)@ + signed_decimal(n as int),
{
    if n < 0 {
        proof {
            reveal_strlit("-");
        }
        out.append("-");
        let magnitude: u64 = if n == i64::MIN {
            9223372036854775808u64
        } else {
            (-n) as u64
        };
        push_decimal(out, magnitude);
        assert(old(out)@ + signed_decimal(n as int) =~= old(out)@ + seq!['-'] + decimal(
            magnitude as nat,
        ));
    } else {
        push_decimal(out, n as u64);
    }
}

} // verus!
