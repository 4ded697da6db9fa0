use vstd::prelude::*;
use crate::errors::RowError;
use vstd::string::StringSliceAdditionalSpecFns;
use crate::text::{decimal, push_decimal};

verus! {

/// Money is scaled by this factor: four decimal places.
pub const SCALE: i64 = 10_000;

/// `SCALE` as an unsigned number.
pub const SCALE_U64: u64 = 10_000;

/// An amount of money, in ten-thousandths of a unit.
#[derive(Clone, Copy, PartialEq, Eq, Debug)]
pub struct Money(pub i64);

/// `x` fits in an `i64`.
pub open spec fn fits_i64(x: int) -> bool {
    i64::MIN <= x <= i64::MAX
}

pub open spec fn is_digit(b: u8) -> bool {
    48 <= b <= 57
}

pub open spec fn all_digits(s: Seq<u8>) -> bool {
    forall|i: int| 0 <= i < s.len() ==> is_digit(#[trigger] s[i])
}

/// The number that a string of decimal digits denotes.
pub open spec fn digits_value(s: Seq<u8>) -> nat
    decreases s.len(),
{
    if s.len() == 0 {
        0
    } else {
        digits_value(s.drop_last()) * 10 + ((s.last() as int) - 48) as nat
    }
}

/// The index of the first `.` in `s`, or `s.len()` when there is none.
pub open spec fn dot_index(s: Seq<u8>) -> int
    decreases s.len(),
{
    if s.len() == 0 {
        0
    } else if s[0] == 46 {
        0
    } else {
        1 + dot_index(s.drop_first())
    }
}

/// The digits before the decimal point.
pub open spec fn whole_part(s: Seq<u8>) -> Seq<u8> {
    s.take(dot_index(s))
}

/// The digits after the decimal point (empty when there is no point).
pub open spec fn frac_part(s: Seq<u8>) -> Seq<u8> {
    if dot_index(s) < s.len() {
        s.skip(dot_index(s) + 1)
    } else {
        Seq::empty()
    }
}

/// A plain unsigned decimal: digits, at most one point, at least one digit,
/// and nothing but zeros after the fourth decimal place.
pub open spec fn is_money_text(s: Seq<u8>) -> bool {
    &&& all_digits(whole_part(s))
    &&& all_digits(frac_part(s))
    &&& whole_part(s).len() + frac_part(s).len() > 0
    &&& forall|j: int| 4 <= j < frac_part(s).len() ==> #[trigger] frac_part(s)[j] == 48
}

/// The first four decimal places, padded with zeros.
pub open spec fn four_places(f: Seq<u8>) -> Seq<u8> {
    (f + seq![48u8, 48u8, 48u8, 48u8]).take(4)
}

/// The amount, in ten-thousandths, that a money text denotes.
pub open spec fn money_units(s: Seq<u8>) -> nat {
    digits_value(whole_part(s) + four_places(frac_part(s)))
}

/// What parsing a money text gives.
pub open spec fn parse_money(s: Seq<u8>) -> Result<Money, RowError> {
    if is_money_text(s) && money_units(s) <= i64::MAX {
        Ok(Money(money_units(s) as i64))
    } else {
        Err(RowError::BadAmount)
    }
}

pub open spec fn abs(v: int) -> nat {
    if v < 0 {
        (-v) as nat
    } else {
        v as nat
    }
}

/// Four decimal digits of `n` (below ten thousand), with leading zeros.
pub open spec fn four_digits(n: nat) -> Seq<u8> {
    seq![
        (48 + n / 1000) as u8,
        (48 + (n / 100) % 10) as u8,
        (48 + (n / 10) % 10) as u8,
        (48 + n % 10) as u8,
    ]
}

/// How an amount is written: an optional minus sign, the whole units, a
/// point and exactly four decimal places.
pub open spec fn money_text(v: int) -> Seq<u8> {
    (if v < 0 {
        seq![45u8]
    } else {
        Seq::<u8>::empty()
    }) + decimal(abs(v) / 10000) + seq![46u8] + four_digits(abs(v) % 10000)
}

proof fn lemma_dot_index_at(s: Seq<u8>, k: int)
    requires
        0 <= k <= s.len(),
        forall|j: int| 0 <= j < k ==> s[j] != 46,
        k < s.len() ==> s[k] == 46,
    ensures
        dot_index(s) == k,
    decreases k,
{
    if k > 0 {
        lemma_dot_index_at(s.drop_first(), k - 1);
    }
}

proof fn lemma_dot_index_beyond(s: Seq<u8>, k: int)
    requires
        0 <= k <= s.len(),
        forall|j: int| 0 <= j < k ==> s[j] != 46,
    ensures
        k <= dot_index(s) <= s.len(),
    decreases k,
{
    if k > 0 {
        lemma_dot_index_beyond(s.drop_first(), k - 1);
    } else {
        lemma_dot_index_bound(s);
    }
}

proof fn lemma_dot_index_bound(s: Seq<u8>)
    ensures
        0 <= dot_index(s) <= s.len(),
        dot_index(s) < s.len() ==> s[dot_index(s)] == 46,
        forall|j: int| 0 <= j < dot_index(s) ==> s[j] != 46,
    decreases s.len(),
{
    if s.len() > 0 && s[0] != 46 {
        lemma_dot_index_bound(s.drop_first());
        assert forall|j: int| 0 <= j < dot_index(s) implies s[j] != 46 by {
            if j > 0 {
                assert(s[j] == s.drop_first()[j - 1]);
            }
        }
    }
}

proof fn lemma_prefix_value(p: Seq<u8>, q: Seq<u8>)
    requires
        p.len() <= q.len(),
        q.take(p.len() as int) == p,
    ensures
        digits_value(p) <= digits_value(q),
    decreases q.len(),
{
    if q.len() > p.len() {
        assert(q.drop_last().take(p.len() as int) == p);
        lemma_prefix_value(p, q.drop_last());
    } else {
        assert(q == p);
    }
}

pub open spec fn pow10(n: nat) -> nat
    decreases n,
{
    if n == 0 {
        1
    } else {
        10 * pow10((n - 1) as nat)
    }
}

proof fn lemma_digits_value_concat(a: Seq<u8>, b: Seq<u8>)
    ensures
        digits_value(a + b) == digits_value(a) * pow10(b.len()) + digits_value(b),
    decreases b.len(),
{
    if b.len() == 0 {
        assert(a + b == a);
        assert(pow10(0) == 1);
        assert(digits_value(b) == 0);
    } else {
        assert((a + b).drop_last() == a + b.drop_last());
        assert((a + b).last() == b.last());
        lemma_digits_value_concat(a, b.drop_last());
        let d = ((b.last() as int) - 48) as nat;
        assert(digits_value(a + b) == digits_value(a + b.drop_last()) * 10 + d);
        assert(digits_value(b) == digits_value(b.drop_last()) * 10 + d);
        assert(pow10(b.len()) == 10 * pow10(b.drop_last().len()));
        let x = digits_value(a);
        let y = digits_value(b.drop_last());
        let p = pow10(b.drop_last().len());
        assert((x * p + y) * 10 + d == x * (10 * p) + (y * 10 + d)) by (nonlinear_arith);
    }
}

proof fn lemma_decimal(n: nat)
    ensures
        all_digits(decimal(n)),
        digits_value(decimal(n)) == n,
        decimal(n).len() > 0,
    decreases n,
{
    if n >= 10 {
        lemma_decimal(n / 10);
        assert(decimal(n).drop_last() == decimal(n / 10));
        assert(decimal(n).last() == (48 + n % 10) as u8);
        assert(digits_value(decimal(n)) == digits_value(decimal(n / 10)) * 10 + n % 10);
        assert(n == (n / 10) * 10 + n % 10) by (nonlinear_arith);
        assert forall|i: int| 0 <= i < decimal(n).len() implies is_digit(#[trigger] decimal(n)[i]) by {
            if i < decimal(n).len() - 1 {
                assert(decimal(n)[i] == decimal(n / 10)[i]);
            }
        }
    } else {
        assert(decimal(n).drop_last() =~= Seq::<u8>::empty());
        assert(digits_value(Seq::<u8>::empty()) == 0);
    }
}

proof fn lemma_four_digits(n: nat)
    requires
        n < 10000,
    ensures
        all_digits(four_digits(n)),
        digits_value(four_digits(n)) == n,
{
    let f = four_digits(n);
    let f3 = f.drop_last();
    let f2 = f3.drop_last();
    let f1 = f2.drop_last();
    let f0 = f1.drop_last();
    assert(f0.len() == 0);
    assert(digits_value(f0) == 0);
    assert(f1.last() == (48 + n / 1000) as u8);
    assert(f2.last() == (48 + (n / 100) % 10) as u8);
    assert(f3.last() == (48 + (n / 10) % 10) as u8);
    assert(f.last() == (48 + n % 10) as u8);
    assert(digits_value(f.drop_last().drop_last().drop_last()) == n / 1000);
    assert(digits_value(f.drop_last().drop_last()) == (n / 1000) * 10 + (n / 100) % 10);
    assert(digits_value(f.drop_last()) == ((n / 1000) * 10 + (n / 100) % 10) * 10 + (n / 10) % 10);
    assert(n == (((n / 1000) * 10 + (n / 100) % 10) * 10 + (n / 10) % 10) * 10 + n % 10)
        by (nonlinear_arith) requires n < 10000;
}

/// Every amount from zero up reads back from its own text unchanged.
pub proof fn lemma_text_parses_back(v: i64)
    requires
        v >= 0,
    ensures
        parse_money(money_text(v as int)) == Ok::<Money, RowError>(Money(v)),
{
    let q = abs(v as int) / 10000;
    let r = abs(v as int) % 10000;
    let w = decimal(q);
    let f = four_digits(r);
    let s = money_text(v as int);
    lemma_decimal(q);
    lemma_four_digits(r);
    assert(Seq::<u8>::empty() + w == w);
    assert(s == w + seq![46u8] + f);
    assert forall|j: int| 0 <= j < w.len() implies s[j] != 46 by {
        assert(s[j] == w[j]);
        assert(is_digit(w[j]));
    }
    lemma_dot_index_at(s, w.len() as int);
    assert(whole_part(s) == w);
    assert(frac_part(s) == f);
    assert(four_places(f) == f);
    lemma_digits_value_concat(w, f);
    assert(pow10(4) == 10000) by {
        reveal_with_fuel(pow10, 5);
    }
    assert(q * 10000 + r == v) by (nonlinear_arith)
        requires q == v / 10000, r == v % 10000, v >= 0;
}

/// A text that parses once parses to the same amount after being written out again.
pub proof fn lemma_parse_is_stable(s: Seq<u8>)
    requires
        parse_money(s) is Ok,
    ensures
        parse_money(money_text(parse_money(s)->Ok_0.0 as int)) == parse_money(s),
{
    lemma_text_parses_back(parse_money(s)->Ok_0.0);
}


/// `n` zero digits.
pub open spec fn zeros(n: nat) -> Seq<u8> {
    Seq::new(n, |j: int| 48u8)
}

/// The facts that the parsing loop keeps about the text it has read so far.
pub open spec fn scanned(s: Seq<u8>, i: int, dot: int, seen_dot: bool) -> bool {
    &&& 0 <= i <= s.len()
    &&& !seen_dot ==> all_digits(s.take(i))
    &&& seen_dot ==> {
        &&& 0 <= dot < i
        &&& s[dot] == 46
        &&& all_digits(s.take(dot))
        &&& all_digits(s.subrange(dot + 1, i))
        &&& forall|j: int| dot + 5 <= j < i ==> #[trigger] s[j] == 48
    }
}

/// The digits that count towards the amount among the first `i` bytes.
pub open spec fn kept_digits(s: Seq<u8>, i: int, dot: int, seen_dot: bool) -> Seq<u8> {
    if seen_dot {
        s.take(dot) + s.subrange(dot + 1, if i < dot + 5 { i } else { dot + 5 })
    } else {
        s.take(i)
    }
}

proof fn lemma_dot_found(s: Seq<u8>, i: int, dot: int)
    requires
        scanned(s, i, dot, true),
    ensures
        dot_index(s) == dot,
        whole_part(s) == s.take(dot),
        frac_part(s) == s.skip(dot + 1),
{
    assert forall|j: int| 0 <= j < dot implies s[j] != 46 by {
        assert(is_digit(s.take(dot)[j]));
    }
    lemma_dot_index_at(s, dot);
}

proof fn lemma_no_dot_yet(s: Seq<u8>, i: int)
    requires
        scanned(s, i, 0, false),
    ensures
        i <= dot_index(s) <= s.len(),
        s.take(i) == whole_part(s).take(i),
{
    assert forall|j: int| 0 <= j < i implies s[j] != 46 by {
        assert(is_digit(s.take(i)[j]));
    }
    lemma_dot_index_beyond(s, i);
}

proof fn lemma_reject_char(s: Seq<u8>, i: int, dot: int, seen_dot: bool)
    requires
        scanned(s, i, dot, seen_dot),
        i < s.len(),
        !is_digit(s[i]),
        !seen_dot ==> s[i] != 46,
    ensures
        !is_money_text(s),
{
    if seen_dot {
        lemma_dot_found(s, i, dot);
        assert(frac_part(s)[i - dot - 1] == s[i]);
    } else {
        assert forall|j: int| 0 <= j <= i implies s[j] != 46 by {
            if j < i {
                assert(is_digit(s.take(i)[j]));
            }
        }
        lemma_dot_index_beyond(s, i + 1);
        assert(whole_part(s)[i] == s[i]);
    }
}

proof fn lemma_kept_is_prefix(s: Seq<u8>, i: int, dot: int, seen_dot: bool)
    requires
        scanned(s, i, dot, seen_dot),
        is_money_text(s),
        seen_dot ==> i <= dot + 5,
    ensures
        digits_value(kept_digits(s, i, dot, seen_dot)) <= money_units(s),
{
    let target = whole_part(s) + four_places(frac_part(s));
    let kept = kept_digits(s, i, dot, seen_dot);
    if seen_dot {
        lemma_dot_found(s, i, dot);
        let f = frac_part(s);
        assert(kept.len() <= target.len());
        assert(target.take(kept.len() as int) =~= kept) by {
            assert forall|j: int| 0 <= j < kept.len() implies target[j] == kept[j] by {
                if j >= dot {
                    assert(target[j] == four_places(f)[j - dot]);
                    assert(four_places(f)[j - dot] == f[j - dot]);
                }
            }
        }
    } else {
        lemma_no_dot_yet(s, i);
        assert(target.take(kept.len() as int) =~= kept) by {
            assert forall|j: int| 0 <= j < kept.len() implies target[j] == kept[j] by {
                assert(target[j] == whole_part(s)[j]);
            }
        }
    }
    lemma_prefix_value(kept, target);
}

proof fn lemma_no_digit(s: Seq<u8>, dot: int, seen_dot: bool)
    requires
        scanned(s, s.len() as int, dot, seen_dot),
        !seen_dot ==> s.len() == 0,
        seen_dot ==> dot == 0 && s.len() == 1,
    ensures
        !is_money_text(s),
{
    if seen_dot {
        lemma_dot_found(s, s.len() as int, dot);
    } else {
        lemma_dot_index_bound(s);
    }
}

proof fn lemma_accepted_shape(s: Seq<u8>, dot: int, seen_dot: bool, places: int)
    requires
        scanned(s, s.len() as int, dot, seen_dot),
        !seen_dot ==> s.len() > 0,
        seen_dot ==> dot > 0 || s.len() > dot + 1,
        places == if seen_dot {
            if s.len() - dot - 1 > 4 { 4 } else { s.len() - dot - 1 }
        } else {
            0
        },
    ensures
        is_money_text(s),
        0 <= places <= 4,
        kept_digits(s, s.len() as int, dot, seen_dot) + zeros((4 - places) as nat)
            == whole_part(s) + four_places(frac_part(s)),
{
    let n = s.len() as int;
    let target = whole_part(s) + four_places(frac_part(s));
    let kept = kept_digits(s, n, dot, seen_dot);
    if seen_dot {
        lemma_dot_found(s, n, dot);
        let f = frac_part(s);
        assert(f =~= s.subrange(dot + 1, n));
        assert(kept + zeros((4 - places) as nat) =~= target) by {
            assert forall|j: int| 0 <= j < target.len() implies #[trigger] target[j] == (kept + zeros(
                (4 - places) as nat,
            ))[j] by {
                if j >= dot {
                    assert(target[j] == four_places(f)[j - dot]);
                }
            }
        }
    } else {
        lemma_dot_index_bound(s);
        lemma_no_dot_yet(s, n);
        assert(s.take(n) == s);
        assert(whole_part(s) == s);
        assert(frac_part(s) =~= Seq::<u8>::empty());
        assert(kept + zeros(4) =~= target);
    }
}

impl Money {
    pub fn zero() -> (m: Money)
        ensures
            m.0 == 0,
    {
        Money(0)
    }

    /// Parses a money amount from text, as `parse_bytes` does its bytes.
    pub fn parse(text: &str) -> (r: Result<Money, RowError>)
        ensures
            r == parse_money(text.spec_bytes()),
    {
        Self::parse_bytes(text.as_bytes())
    }

    /// Parses an unsigned decimal with at most four significant decimal
    /// places into ten-thousandths; `BadAmount` for anything else and for
    /// amounts beyond `i64`.
    pub fn parse_bytes(text: &[u8]) -> (r: Result<Money, RowError>)
        ensures
            r == parse_money(text@),
    {
        let mut units: i64 = 0;
        let mut frac_digits: usize = 0;
        let mut seen_dot = false;
        let mut seen_digit = false;
        let ghost mut dot: int = 0;
        let mut i: usize = 0;
        while i < text.len()
            invariant
                scanned(text@, i as int, dot, seen_dot),
                units == digits_value(kept_digits(text@, i as int, dot, seen_dot)),
                !seen_dot ==> seen_digit == (i > 0),
                seen_dot ==> frac_digits == i - dot - 1,
                !seen_dot ==> frac_digits == 0,
                seen_dot ==> seen_digit == (dot > 0 || i > dot + 1),
            decreases text.len() - i,
        {
            let b = text[i];
            let ghost before = kept_digits(text@, i as int, dot, seen_dot);
            if b == 46 && !seen_dot {
                proof {
                    dot = i as int;
                    assert(text@.subrange(dot + 1, dot + 1) =~= Seq::<u8>::empty());
                    assert(kept_digits(text@, i + 1, dot, true) =~= text@.take(dot));
                    assert(text@.subrange(dot + 1, i + 1) =~= Seq::<u8>::empty());
                }
                seen_dot = true;
                i = i + 1;
                continue;
            }
            if b < 48 || b > 57 {
                proof {
                    lemma_reject_char(text@, i as int, dot, seen_dot);
                }
                return Err(RowError::BadAmount);
            }
            let digit = (b - 48) as i64;
            if seen_dot && frac_digits >= 4 {
                if digit != 0 {
                    proof {
                        lemma_dot_found(text@, i as int, dot);
                        assert(frac_part(text@)[i - dot - 1] == text@[i as int]);
                    }
                    return Err(RowError::BadAmount);
                }
                frac_digits = frac_digits + 1;
                proof {
                    assert(text@.subrange(dot + 1, i + 1) =~= text@.subrange(dot + 1, i as int).push(b));
                }
                i = i + 1;
                continue;
            }
            if seen_dot {
                frac_digits = frac_digits + 1;
            }
            let ghost kept = kept_digits(text@, i + 1, dot, seen_dot);
            proof {
                if seen_dot {
                    assert(text@.subrange(dot + 1, i + 1) =~= text@.subrange(dot + 1, i as int).push(b));
                    assert(kept =~= before.push(b));
                } else {
                    assert(kept =~= before.push(b));
                }
                assert(kept.drop_last() =~= before);
                assert(scanned(text@, i + 1, dot, seen_dot)) by {
                    if seen_dot {
                        assert(text@.subrange(dot + 1, i + 1) =~= text@.subrange(dot + 1, i as int).push(b));
                    } else {
                        assert(text@.take(i + 1) =~= text@.take(i as int).push(b));
                    }
                }
            }
            if units > 922337203685477580 || (units == 922337203685477580 && digit > 7) {
                proof {
                    if is_money_text(text@) {
                        lemma_kept_is_prefix(text@, i + 1, dot, seen_dot);
                    }
                }
                return Err(RowError::BadAmount);
            }
            units = units * 10 + digit;
            seen_digit = true;
            i = i + 1;
        }
        if !seen_digit {
            proof {
                lemma_no_digit(text@, dot, seen_dot);
            }
            return Err(RowError::BadAmount);
        }
        let places: usize = if frac_digits > 4 { 4 } else { frac_digits };
        let ghost kept = kept_digits(text@, i as int, dot, seen_dot);
        let ghost target = whole_part(text@) + four_places(frac_part(text@));
        proof {
            lemma_accepted_shape(text@, dot, seen_dot, places as int);
            assert(kept + zeros(0) =~= kept);
        }
        let mut k: usize = places;
        while k < 4
            invariant
                places <= k <= 4,
                is_money_text(text@),
                kept + zeros((4 - places) as nat) == target,
                target == whole_part(text@) + four_places(frac_part(text@)),
                units == digits_value(kept + zeros((k - places) as nat)),
            decreases 4 - k,
        {
            let ghost next = kept + zeros((k + 1 - places) as nat);
            proof {
                assert(next =~= (kept + zeros((k - places) as nat)).push(48u8));
                assert(next.drop_last() =~= kept + zeros((k - places) as nat));
                assert(target.take(next.len() as int) =~= next);
                lemma_prefix_value(next, target);
                assert(next.last() == 48u8);
                assert(digits_value(next) == units * 10);
            }
            if units > 922337203685477580 {
                assert(money_units(text@) == digits_value(target));
                assert(digits_value(next) > i64::MAX);
                return Err(RowError::BadAmount);
            }
            units = units * 10;
            k = k + 1;
        }
        Ok(Money(units))
    }

    /// The sum, or `BadAmount` when it does not fit.
    pub fn checked_add(self, other: Money) -> (r: Result<Money, RowError>)
        ensures
            fits_i64(self.0 + other.0) ==> r == Ok::<Money, RowError>(Money((self.0 + other.0) as i64)),
            !fits_i64(self.0 + other.0) ==> r == Err::<Money, RowError>(RowError::BadAmount),
    {
        match self.0.checked_add(other.0) {
            Some(total) => Ok(Money(total)),
            None => Err(RowError::BadAmount),
        }
    }

    /// The difference, or `BadAmount` when it does not fit.
    pub fn checked_sub(self, other: Money) -> (r: Result<Money, RowError>)
        ensures
            fits_i64(self.0 - other.0) ==> r == Ok::<Money, RowError>(Money((self.0 - other.0) as i64)),
            !fits_i64(self.0 - other.0) ==> r == Err::<Money, RowError>(RowError::BadAmount),
    {
        match self.0.checked_sub(other.0) {
            Some(total) => Ok(Money(total)),
            None => Err(RowError::BadAmount),
        }
    }

    /// Whether this balance covers `cost`.
    pub fn sufficient(self, cost: Money) -> (r: bool)
        ensures
            r == (self.0 >= cost.0),
    {
        self.0 >= cost.0
    }

    /// Available plus held, or `BadAmount` when the total does not fit.
    pub fn total_of(self, held: Money) -> (r: Result<Money, RowError>)
        ensures
            fits_i64(self.0 + held.0) ==> r == Ok::<Money, RowError>(Money((self.0 + held.0) as i64)),
            !fits_i64(self.0 + held.0) ==> r == Err::<Money, RowError>(RowError::BadAmount),
    {
        self.checked_add(held)
    }

    /// Appends the amount as text: an optional minus sign, the whole units,
    /// a point and four decimal places.
    pub fn write_text(self, out: &mut Vec<u8>)
        ensures
            final(out)@ == old(out)@ + money_text(self.0 as int),
    {
        let v = self.0;
        let magnitude: u64 = if v < 0 {
            ((-(v + 1)) as u64) + 1
        } else {
            v as u64
        };
        assert(magnitude == abs(v as int));
        let ghost start = out@;
        if v < 0 {
            out.push(45u8);
        }
        assert(out@ == start + (if v < 0 { seq![45u8] } else { Seq::<u8>::empty() }));
        push_decimal(out, magnitude / SCALE_U64);
        out.push(46u8);
        let frac = magnitude % SCALE_U64;
        out.push((48 + frac / 1000) as u8);
        out.push((48 + (frac / 100) % 10) as u8);
        out.push((48 + (frac / 10) % 10) as u8);
        out.push((48 + frac % 10) as u8);
        assert(out@ =~= start + money_text(v as int));
    }
}

} // verus!

verus! {

/// The text of an amount from zero up is digits and one point, at most 25 bytes.
pub proof fn lemma_money_text_is_word(v: i64)
    requires
        v >= 0,
    ensures
        crate::text::word_text(money_text(v as int)),
        money_text(v as int).len() <= 25,
{
    let q = abs(v as int) / 10000;
    let r = abs(v as int) % 10000;
    lemma_decimal(q);
    lemma_four_digits(r);
    assert(pow10(20) == 100000000000000000000nat) by {
        reveal_with_fuel(pow10, 21);
    }
    crate::text::lemma_decimal_len(q, 20);
    let s = money_text(v as int);
    let w = decimal(q);
    let f = four_digits(r);
    assert(s == Seq::<u8>::empty() + w + seq![46u8] + f);
    assert(Seq::<u8>::empty() + w == w);
    assert forall|i: int| 0 <= i < s.len() implies (48 <= #[trigger] s[i] <= 57 || 97 <= s[i] <= 122 || s[i] == 46) by {
        if i < w.len() {
            assert(s[i] == w[i]);
            assert(is_digit(w[i]));
        } else if i == w.len() {
        } else {
            assert(s[i] == f[i - w.len() - 1]);
            assert(is_digit(f[i - w.len() - 1]));
        }
    }
}

} // verus!

verus! {

proof fn lemma_zeros_value(k: nat)
    ensures
        digits_value(zeros(k)) == 0,
        all_digits(zeros(k)),
    decreases k,
{
    if k > 0 {
        assert(zeros(k).drop_last() =~= zeros((k - 1) as nat));
        lemma_zeros_value((k - 1) as nat);
    }
}

/// Plain decimals read as their value: whole digits `d`, then a point and
/// one to four decimal digits `f`, with at least one digit in all, read as
/// `d` units and `f` tenths, hundredths, thousandths or ten-thousandths,
/// so `12.34` is 123400 ten-thousandths, whenever that fits in an `i64`.
pub proof fn lemma_decimal_text_value(d: Seq<u8>, f: Seq<u8>)
    requires
        all_digits(d),
        all_digits(f),
        1 <= f.len() <= 4,
        digits_value(d) * 10000 + digits_value(f) * pow10((4 - f.len()) as nat) <= i64::MAX,
    ensures
        parse_money(d + seq![46u8] + f) == Ok::<Money, RowError>(
            Money((digits_value(d) * 10000 + digits_value(f) * pow10((4 - f.len()) as nat)) as i64),
        ),
{
    let s = d + seq![46u8] + f;
    assert forall|j: int| 0 <= j < d.len() implies s[j] != 46 by {
        assert(s[j] == d[j]);
        assert(is_digit(d[j]));
    }
    lemma_dot_index_at(s, d.len() as int);
    assert(whole_part(s) =~= d);
    assert(frac_part(s) =~= f);
    let k = (4 - f.len()) as nat;
    assert(four_places(f) =~= f + zeros(k));
    lemma_zeros_value(k);
    lemma_digits_value_concat(f, zeros(k));
    lemma_digits_value_concat(d, f + zeros(k));
    assert(pow10(4) == 10000) by {
        reveal_with_fuel(pow10, 5);
    }
    assert(money_units(s) == digits_value(d) * 10000 + digits_value(f) * pow10(k));
}

/// Whole numbers read as their value: digits without a point are that many units.
pub proof fn lemma_whole_text_value(d: Seq<u8>)
    requires
        all_digits(d),
        d.len() >= 1,
        digits_value(d) * 10000 <= i64::MAX,
    ensures
        parse_money(d) == Ok::<Money, RowError>(Money((digits_value(d) * 10000) as i64)),
{
    assert forall|j: int| 0 <= j < d.len() implies d[j] != 46 by {
        assert(is_digit(d[j]));
    }
    lemma_dot_index_at(d, d.len() as int);
    assert(whole_part(d) =~= d);
    assert(frac_part(d) =~= Seq::<u8>::empty());
    assert(four_places(Seq::<u8>::empty()) =~= zeros(4));
    lemma_zeros_value(4);
    lemma_digits_value_concat(d, zeros(4));
    assert(pow10(4) == 10000) by {
        reveal_with_fuel(pow10, 5);
    }
}

/// Zeros past the fourth decimal place change nothing: a text with four
/// decimals reads the same with any number of zeros after it.
pub proof fn lemma_trailing_zeros_ignored(d: Seq<u8>, f: Seq<u8>, k: nat)
    requires
        all_digits(d),
        all_digits(f),
        f.len() == 4,
    ensures
        parse_money(d + seq![46u8] + (f + zeros(k))) == parse_money(d + seq![46u8] + f),
{
    let s = d + seq![46u8] + f;
    let t = d + seq![46u8] + (f + zeros(k));
    lemma_zeros_value(k);
    assert forall|j: int| 0 <= j < d.len() implies s[j] != 46 && t[j] != 46 by {
        assert(s[j] == d[j]);
        assert(t[j] == d[j]);
        assert(is_digit(d[j]));
    }
    lemma_dot_index_at(s, d.len() as int);
    lemma_dot_index_at(t, d.len() as int);
    assert(frac_part(s) =~= f);
    assert(frac_part(t) =~= f + zeros(k));
    assert(whole_part(s) =~= d);
    assert(whole_part(t) =~= d);
    assert(four_places(f + zeros(k)) =~= four_places(f));
    assert forall|j: int| 4 <= j < frac_part(t).len() implies #[trigger] frac_part(t)[j] == 48 by {
        assert(frac_part(t)[j] == zeros(k)[j - 4]);
    }
    assert(all_digits(f + zeros(k))) by {
        assert forall|j: int| 0 <= j < (f + zeros(k)).len() implies is_digit(#[trigger] (f + zeros(k))[j]) by {
            if j < 4 {
                assert((f + zeros(k))[j] == f[j]);
            } else {
                assert((f + zeros(k))[j] == zeros(k)[j - 4]);
            }
        }
    }
}

} // verus!

verus! {

/// Signed amounts are refused: a text that starts with a minus or plus sign
/// is no amount.
pub proof fn lemma_signed_text_refused(s: Seq<u8>)
    requires
        s.len() >= 1,
        s[0] == 45 || s[0] == 43,
    ensures
        parse_money(s) == Err::<Money, RowError>(RowError::BadAmount),
{
    lemma_dot_index_bound(s);
    if dot_index(s) == 0 {
        assert(s[0] == 46);
    }
    assert(whole_part(s)[0] == s[0]);
}

/// Precision is never rounded away: a nonzero digit after the fourth
/// decimal place makes the text no amount.
pub proof fn lemma_fifth_decimal_refused(d: Seq<u8>, f: Seq<u8>, z: u8)
    requires
        all_digits(d),
        f.len() >= 4,
        49 <= z <= 57,
    ensures
        parse_money(d + seq![46u8] + f.push(z)) == Err::<Money, RowError>(RowError::BadAmount),
{
    let s = d + seq![46u8] + f.push(z);
    assert forall|j: int| 0 <= j < d.len() implies s[j] != 46 by {
        assert(s[j] == d[j]);
        assert(is_digit(d[j]));
    }
    lemma_dot_index_at(s, d.len() as int);
    assert(frac_part(s) =~= f.push(z));
    assert(frac_part(s)[f.len() as int] == z);
}

/// Amounts beyond `i64` are refused: a decimal text whose value does not fit
/// is no amount.
pub proof fn lemma_oversized_text_refused(d: Seq<u8>, f: Seq<u8>)
    requires
        all_digits(d),
        all_digits(f),
        1 <= f.len() <= 4,
        digits_value(d) * 10000 + digits_value(f) * pow10((4 - f.len()) as nat) > i64::MAX,
    ensures
        parse_money(d + seq![46u8] + f) == Err::<Money, RowError>(RowError::BadAmount),
{
    let s = d + seq![46u8] + f;
    assert forall|j: int| 0 <= j < d.len() implies s[j] != 46 by {
        assert(s[j] == d[j]);
        assert(is_digit(d[j]));
    }
    lemma_dot_index_at(s, d.len() as int);
    assert(whole_part(s) =~= d);
    assert(frac_part(s) =~= f);
    let k = (4 - f.len()) as nat;
    assert(four_places(f) =~= f + zeros(k));
    lemma_zeros_value(k);
    lemma_digits_value_concat(f, zeros(k));
    lemma_digits_value_concat(d, f + zeros(k));
    assert(pow10(4) == 10000) by {
        reveal_with_fuel(pow10, 5);
    }
}

} // verus!
