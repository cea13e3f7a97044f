//! Decimal numbers written as text, and the even integer nearest to one.
//!
//! A number is an optional sign, digits, an optional point followed by
//! digits, and an optional exponent: `e` or `E`, an optional sign and digits.
//! At least one digit must stand before or after the point. The number is
//! what the digits write, times ten to the exponent. Numbers of any length
//! are handled exactly, digit by digit.

use vstd::prelude::*;
use crate::text::chars_of;

verus! {

/// One of the characters `0` to `9`.
pub open spec fn is_digit(c: char) -> bool {
    48 <= c as u32 <= 57
}

/// The value of a digit.
pub open spec fn digit_value(c: char) -> nat {
    (c as u32 - 48) as nat
}

/// The digit that stands for `d`, for `d` below ten.
pub open spec fn digit_char(d: nat) -> char {
    if d == 0 {
        '0'
    } else if d == 1 {
        '1'
    } else if d == 2 {
        '2'
    } else if d == 3 {
        '3'
    } else if d == 4 {
        '4'
    } else if d == 5 {
        '5'
    } else if d == 6 {
        '6'
    } else if d == 7 {
        '7'
    } else if d == 8 {
        '8'
    } else {
        '9'
    }
}

/// Every character of `s` is a digit.
pub open spec fn all_digits(s: Seq<char>) -> bool {
    forall|i: int| 0 <= i < s.len() ==> is_digit(#[trigger] s[i])
}

/// Every character of `s` is the digit `0`.
pub open spec fn all_zeros(s: Seq<char>) -> bool {
    forall|i: int| 0 <= i < s.len() ==> #[trigger] s[i] == '0'
}

/// The number that the digits of `s` write in base ten; 0 for no digits.
pub open spec fn digits_value(s: Seq<char>) -> nat
    decreases s.len(),
{
    if s.len() == 0 {
        0
    } else {
        digits_value(s.drop_last()) * 10 + digit_value(s.last())
    }
}

/// How many digits stand at the beginning of `s`.
pub open spec fn leading_digits(s: Seq<char>) -> nat
    decreases s.len(),
{
    if s.len() > 0 && is_digit(s[0]) {
        1 + leading_digits(s.skip(1))
    } else {
        0
    }
}

/// `n` written in base ten, without leading zeros.
pub open spec fn decimal_text(n: nat) -> Seq<char>
    decreases n,
{
    if n < 10 {
        seq![digit_char(n)]
    } else {
        decimal_text(n / 10).push(digit_char(n % 10))
    }
}

/// Ten to the power `k`.
pub open spec fn power_of_ten(k: nat) -> nat
    decreases k,
{
    if k == 0 {
        1
    } else {
        10 * power_of_ten((k - 1) as nat)
    }
}

/// The most zeros that are put behind the digits of a number to write it out
/// as an integer. No power of ten above this one is in the range of a
/// double-precision number.
pub const MOST_ZEROS: usize = 308;

/// `n` times the digit `0`.
pub open spec fn zeros(n: nat) -> Seq<char> {
    Seq::new(n, |i: int| '0')
}

/// A decimal number as it is written: its sign, the digits before the point,
/// the digits after it, and the exponent.
pub struct Decimal {
    pub negative: bool,
    pub whole: Seq<char>,
    pub fraction: Seq<char>,
    pub exponent: int,
}

/// `s` without its sign, if it begins with one.
pub open spec fn unsigned_part(s: Seq<char>) -> Seq<char> {
    if s.len() > 0 && (s[0] == '-' || s[0] == '+') {
        s.skip(1)
    } else {
        s
    }
}

/// The exponent that `s` writes: zero where `s` is empty, else what the
/// digits write that follow `e` or `E` and an optional sign. `None` where `s`
/// is anything else.
pub open spec fn parse_exponent(s: Seq<char>) -> Option<int> {
    if s.len() == 0 {
        Some(0int)
    } else if s[0] == 'e' || s[0] == 'E' {
        let digits = unsigned_part(s.skip(1));
        if digits.len() > 0 && all_digits(digits) {
            if s[1] == '-' {
                Some(-(digits_value(digits) as int))
            } else {
                Some(digits_value(digits) as int)
            }
        } else {
            None
        }
    } else {
        None
    }
}

/// The number that `s` writes, or `None` where `s` writes no number.
///
/// After the sign come the digits before the point, then the point and the
/// digits after it, then the exponent. Where there is no point, what follows
/// the digits before it begins with no digit, so that there are no digits
/// after the point either.
pub open spec fn parse_decimal(s: Seq<char>) -> Option<Decimal> {
    let negative = s.len() > 0 && s[0] == '-';
    let body = unsigned_part(s);
    let k = leading_digits(body) as int;
    let after = body.skip(k);
    let tail = if after.len() > 0 && after[0] == '.' {
        after.skip(1)
    } else {
        after
    };
    let f = leading_digits(tail) as int;
    match parse_exponent(tail.skip(f)) {
        Some(exponent) => if k + f > 0 {
            Some(Decimal { negative, whole: body.take(k), fraction: tail.take(f), exponent })
        } else {
            None
        },
        None => None,
    }
}

/// The even number nearest to a number whose whole part is `whole`, halves
/// going away from zero: `whole` itself where it is even, else the next.
pub open spec fn nearest_even(whole: nat) -> nat {
    if whole % 2 == 0 {
        whole
    } else {
        whole + 1
    }
}

impl Decimal {
    /// The digits of the number, those before the point and those after it.
    pub open spec fn digits(self) -> Seq<char> {
        self.whole + self.fraction
    }

    /// What the digits write, the point left out.
    pub open spec fn mantissa(self) -> nat {
        digits_value(self.digits())
    }

    /// The power of ten that stands between the mantissa and the number: the
    /// number is the mantissa times ten to the power `self.shift()`.
    pub open spec fn shift(self) -> int {
        self.exponent - self.fraction.len()
    }

    /// The least power of ten that makes the number an integer when
    /// multiplied with it.
    pub open spec fn scale(self) -> nat {
        if self.shift() < 0 {
            power_of_ten((-self.shift()) as nat)
        } else {
            1
        }
    }

    /// The number times `self.scale()`, without the sign.
    pub open spec fn scaled_magnitude(self) -> nat {
        if self.shift() > 0 {
            self.mantissa() * power_of_ten(self.shift() as nat)
        } else {
            self.mantissa()
        }
    }

    /// The number times `self.scale()`.
    pub open spec fn scaled_value(self) -> int {
        if self.negative {
            -(self.scaled_magnitude() as int)
        } else {
            self.scaled_magnitude() as int
        }
    }

    /// The whole part of the number, without the sign.
    pub open spec fn whole_value(self) -> nat {
        self.scaled_magnitude() / self.scale()
    }

    /// The number is an integer.
    pub open spec fn is_integer(self) -> bool {
        self.scaled_magnitude() % self.scale() == 0
    }

    /// The even integer nearest to the number, without the sign.
    pub open spec fn rounded_magnitude(self) -> nat {
        nearest_even(self.whole_value())
    }

    /// The even integer nearest to the number.
    pub open spec fn rounded_value(self) -> int {
        if self.negative {
            -(self.rounded_magnitude() as int)
        } else {
            self.rounded_magnitude() as int
        }
    }

    /// The text of the even integer nearest to the number. A negative number
    /// keeps its sign even where it rounds to zero.
    pub open spec fn rounded_text(self) -> Seq<char> {
        if self.negative {
            seq!['-'] + decimal_text(self.rounded_magnitude())
        } else {
            decimal_text(self.rounded_magnitude())
        }
    }

    /// The number is an even integer.
    pub open spec fn is_even_integer(self) -> bool {
        self.is_integer() && self.whole_value() % 2 == 0
    }

    /// The number can be written out as an integer: it is zero, or at most
    /// `MOST_ZEROS` zeros have to be put behind its digits.
    pub open spec fn can_be_written(self) -> bool {
        self.shift() <= MOST_ZEROS || self.mantissa() == 0
    }

    /// How many of the digits stand before the point once the exponent has
    /// moved it.
    pub open spec fn cut(self) -> nat {
        let point = self.whole.len() + self.exponent;
        if point < 0 {
            0
        } else if point > self.digits().len() {
            self.digits().len()
        } else {
            point as nat
        }
    }

    /// How many zeros have to be put behind the digits to reach the point
    /// once the exponent has moved it.
    pub open spec fn padding(self) -> nat {
        if self.shift() > 0 {
            self.shift() as nat
        } else {
            0
        }
    }
}

/// The text of the even integer nearest to the number that `s` writes; `0`
/// where `s` writes no number or one that cannot be written out.
pub open spec fn rounded_text(s: Seq<char>) -> Seq<char> {
    match parse_decimal(s) {
        Some(d) => if d.can_be_written() {
            d.rounded_text()
        } else {
            seq!['0']
        },
        None => seq!['0'],
    }
}

/// `s` writes an even integer.
pub open spec fn is_even_text(s: Seq<char>) -> bool {
    match parse_decimal(s) {
        Some(d) => d.is_even_integer(),
        None => false,
    }
}

/// A digit other than `0` has a positive value, and every digit is the digit
/// of its value.
pub proof fn lemma_digit(c: char)
    requires
        is_digit(c),
    ensures
        digit_value(c) < 10,
        c != '0' ==> digit_value(c) > 0,
        digit_char(digit_value(c)) == c,
{
}

/// Without its last character a string of digits is a string of digits.
pub proof fn lemma_front_digits(d: Seq<char>)
    requires
        all_digits(d),
        d.len() > 0,
    ensures
        all_digits(d.drop_last()),
        is_digit(d.last()),
{
    assert forall|i: int| 0 <= i < d.drop_last().len() implies is_digit(#[trigger] d.drop_last()[i]) by {
        assert(d.drop_last()[i] == d[i]);
    }
    assert(is_digit(d[d.len() - 1]));
}

/// A leading zero does not change the value of a digit string.
pub proof fn lemma_leading_zero(s: Seq<char>)
    requires
        s.len() > 0,
        s[0] == '0',
    ensures
        digits_value(s) == digits_value(s.skip(1)),
    decreases s.len(),
{
    if s.len() == 1 {
        assert(s.drop_last() =~= Seq::<char>::empty());
        assert(s.skip(1) =~= Seq::<char>::empty());
    } else {
        lemma_leading_zero(s.drop_last());
        assert(s.skip(1).drop_last() =~= s.drop_last().skip(1));
        assert(s.skip(1).last() == s.last());
    }
}

/// A digit string that does not begin with `0` writes a positive number.
pub proof fn lemma_positive(d: Seq<char>)
    requires
        all_digits(d),
        d.len() > 0,
        d[0] != '0',
    ensures
        digits_value(d) > 0,
    decreases d.len(),
{
    lemma_front_digits(d);
    lemma_digit(d.last());
    if d.len() == 1 {
        assert(d.drop_last() =~= Seq::<char>::empty());
        assert(digits_value(Seq::<char>::empty()) == 0);
        assert(d.last() == d[0]);
    } else {
        assert(d.drop_last()[0] == d[0]);
        lemma_positive(d.drop_last());
    }
}

/// A digit string without a leading zero is the text of its value.
pub proof fn lemma_canonical_text(d: Seq<char>)
    requires
        all_digits(d),
        d.len() > 0,
        d[0] != '0' || d.len() == 1,
    ensures
        decimal_text(digits_value(d)) == d,
    decreases d.len(),
{
    let last = d.last();
    lemma_front_digits(d);
    lemma_digit(last);
    if d.len() == 1 {
        assert(d.drop_last() =~= Seq::<char>::empty());
        assert(digits_value(Seq::<char>::empty()) == 0);
        assert(digits_value(d) == digit_value(last));
        assert(d =~= seq![last]);
    } else {
        let front = d.drop_last();
        assert(front[0] == d[0]);
        lemma_positive(front);
        lemma_canonical_text(front);
        let n = digits_value(d);
        assert(n == digits_value(front) * 10 + digit_value(last));
        assert(n >= 10);
        assert(n / 10 == digits_value(front));
        assert(n % 10 == digit_value(last));
        assert(d =~= front.push(last));
    }
}

/// The text of a number is made of digits, has no leading zero and writes the
/// number.
pub proof fn lemma_decimal_text(n: nat)
    ensures
        all_digits(decimal_text(n)),
        decimal_text(n).len() > 0,
        decimal_text(n)[0] != '0' || decimal_text(n).len() == 1,
        digits_value(decimal_text(n)) == n,
    decreases n,
{
    let t = decimal_text(n);
    if n < 10 {
        assert(t.drop_last() =~= Seq::<char>::empty());
        assert(digits_value(Seq::<char>::empty()) == 0);
        assert(digit_value(digit_char(n)) == n);
    } else {
        lemma_decimal_text(n / 10);
        let front = decimal_text(n / 10);
        assert(t.drop_last() =~= front);
        assert(digit_value(digit_char(n % 10)) == n % 10);
        assert(t[0] == front[0]);
        if front.len() == 1 && front[0] == '0' {
            assert(front.drop_last() =~= Seq::<char>::empty());
            assert(digits_value(Seq::<char>::empty()) == 0);
            assert(digits_value(front) == 0);
        }
    }
}

/// The parity of a number is that of its last digit.
pub proof fn lemma_parity(d: Seq<char>)
    requires
        d.len() > 0,
    ensures
        digits_value(d) % 2 == digit_value(d.last()) % 2,
{
    let a = digits_value(d.drop_last());
    assert((a * 10 + digit_value(d.last())) % 2 == digit_value(d.last()) % 2) by (nonlinear_arith);
}

/// The digits at the beginning of a string are digits, and are followed by
/// the end of the string or by a character that is no digit.
pub proof fn lemma_leading_digits(s: Seq<char>)
    ensures
        leading_digits(s) <= s.len(),
        all_digits(s.take(leading_digits(s) as int)),
        leading_digits(s) < s.len() ==> !is_digit(s[leading_digits(s) as int]),
    decreases s.len(),
{
    if s.len() > 0 && is_digit(s[0]) {
        let rest = s.skip(1);
        lemma_leading_digits(rest);
        let k = leading_digits(rest) as int;
        assert forall|i: int| 0 <= i < k + 1 implies is_digit(#[trigger] s.take(k + 1)[i]) by {
            if i > 0 {
                assert(s.take(k + 1)[i] == rest.take(k)[i - 1]);
            }
        }
        if k + 1 < s.len() {
            assert(s[k + 1] == rest[k]);
        }
    } else {
        assert(s.take(0) =~= Seq::<char>::empty());
    }
}

/// A string of digits has nothing but leading digits.
pub proof fn lemma_all_leading(s: Seq<char>)
    requires
        all_digits(s),
    ensures
        leading_digits(s) == s.len(),
    decreases s.len(),
{
    if s.len() > 0 {
        assert(is_digit(s[0]));
        assert forall|i: int| 0 <= i < s.skip(1).len() implies is_digit(#[trigger] s.skip(1)[i]) by {
            assert(s.skip(1)[i] == s[i + 1]);
        }
        lemma_all_leading(s.skip(1));
    }
}

/// Ten to any power is positive.
pub proof fn lemma_power_positive(k: nat)
    ensures
        power_of_ten(k) > 0,
    decreases k,
{
    if k > 0 {
        lemma_power_positive((k - 1) as nat);
    }
}

/// A higher power of ten is no smaller.
pub proof fn lemma_power_ascends(a: nat, b: nat)
    requires
        a <= b,
    ensures
        power_of_ten(a) <= power_of_ten(b),
    decreases b,
{
    if a < b {
        lemma_power_ascends(a, (b - 1) as nat);
        lemma_power_positive((b - 1) as nat);
    }
}

/// A multiple of a power of ten other than one is even.
pub proof fn lemma_power_is_even(n: nat, k: nat)
    requires
        k > 0,
    ensures
        (n * power_of_ten(k)) % 2 == 0,
{
    let y = power_of_ten((k - 1) as nat) as int;
    let x = n as int;
    assert(x * (10 * y) == 2 * (5 * x * y)) by (nonlinear_arith);
}

/// A digit string writes zero exactly where all its digits are `0`.
pub proof fn lemma_zero_value(s: Seq<char>)
    requires
        all_digits(s),
    ensures
        (digits_value(s) == 0) == all_zeros(s),
    decreases s.len(),
{
    if s.len() > 0 {
        let front = s.drop_last();
        lemma_front_digits(s);
        lemma_digit(s.last());
        lemma_zero_value(front);
        if all_zeros(s) {
            assert forall|i: int| 0 <= i < front.len() implies #[trigger] front[i] == '0' by {
                assert(front[i] == s[i]);
            }
            assert(s[s.len() - 1] == '0');
        }
        if digits_value(s) == 0 {
            assert forall|i: int| 0 <= i < s.len() implies #[trigger] s[i] == '0' by {
                if i < front.len() {
                    assert(s[i] == front[i]);
                }
            }
        }
    }
}

/// The value of two digit strings written one after the other.
pub proof fn lemma_concat_value(a: Seq<char>, b: Seq<char>)
    requires
        all_digits(b),
    ensures
        digits_value(a + b) == digits_value(a) * power_of_ten(b.len()) + digits_value(b),
        digits_value(b) < power_of_ten(b.len()),
    decreases b.len(),
{
    if b.len() == 0 {
        assert(a + b =~= a);
        assert(power_of_ten(0) == 1);
        assert(digits_value(b) == 0);
        assert(digits_value(a) * 1 == digits_value(a)) by (nonlinear_arith);
    } else {
        lemma_front_digits(b);
        lemma_digit(b.last());
        lemma_concat_value(a, b.drop_last());
        assert((a + b).drop_last() =~= a + b.drop_last());
        assert((a + b).last() == b.last());
        let x = digits_value(a) as int;
        let q = power_of_ten((b.len() - 1) as nat) as int;
        let y = digits_value(b.drop_last()) as int;
        let last = digit_value(b.last()) as int;
        assert(power_of_ten(b.len()) == 10 * q);
        assert(digits_value(b) == y * 10 + last);
        assert(digits_value(a + b) == (x * q + y) * 10 + last);
        assert((x * q + y) * 10 == x * (10 * q) + y * 10) by (nonlinear_arith);
        assert(y * 10 + last < 10 * q);
    }
}

/// Moving the point by the exponent: the whole part of the number is what
/// the digits before the moved point write, with the zeros that have to be put
/// behind them, and the number is an integer exactly where the digits after
/// the moved point are all `0`.
pub proof fn lemma_point(d: Decimal)
    requires
        all_digits(d.whole),
        all_digits(d.fraction),
    ensures
        d.scale() > 0,
        all_digits(d.digits()),
        d.cut() <= d.digits().len(),
        d.padding() > 0 ==> d.cut() == d.digits().len(),
        d.whole_value() == digits_value(d.digits().take(d.cut() as int)) * power_of_ten(d.padding()),
        d.is_integer() == all_zeros(d.digits().skip(d.cut() as int)),
{
    let all = d.digits();
    let len = all.len();
    let m = d.mantissa() as int;
    let cut = d.cut() as int;
    let front = all.take(cut);
    let back = all.skip(cut);
    assert forall|i: int| 0 <= i < all.len() implies is_digit(#[trigger] all[i]) by {
        if i < d.whole.len() {
            assert(all[i] == d.whole[i]);
        } else {
            assert(all[i] == d.fraction[i - d.whole.len()]);
        }
    }
    assert forall|i: int| 0 <= i < back.len() implies is_digit(#[trigger] back[i]) by {
        assert(back[i] == all[cut + i]);
    }
    assert(all =~= front + back);
    lemma_concat_value(front, back);
    lemma_zero_value(back);
    assert(power_of_ten(0) == 1);
    if d.shift() >= 0 {
        assert(cut == len);
        assert(front =~= all);
        assert(back =~= Seq::<char>::empty());
        let x = d.scaled_magnitude() as int;
        assert(x == m * power_of_ten(d.padding())) by {
            assert(m * 1 == m);
        }
        assert(x / 1 == x);
        assert(x % 1 == 0);
    } else {
        let k = (-d.shift()) as nat;
        let q = power_of_ten(k) as int;
        lemma_power_positive(k);
        let high = digits_value(front) as int;
        let low = digits_value(back) as int;
        if len > k {
            assert(back.len() == k);
        } else {
            assert(front =~= Seq::<char>::empty());
            assert(high == 0);
            lemma_power_ascends(back.len(), k);
        }
        assert(m == high * q + low) by {
            if len > k {
            } else {
                assert(high * power_of_ten(back.len()) == 0) by (nonlinear_arith)
                    requires
                        high == 0,
                ;
                assert(high * q == 0) by (nonlinear_arith)
                    requires
                        high == 0,
                ;
            }
        }
        vstd::arithmetic::div_mod::lemma_fundamental_div_mod_converse(m, q, high, low);
        assert(high * 1 == high);
    }
}

/// Where the parts of a number are found in a text.
pub struct Span {
    pub negative: bool,
    /// The digits before the point are the characters from `whole_from` up to
    /// `whole_to`.
    pub whole_from: usize,
    pub whole_to: usize,
    /// The digits after the point are the characters from `fraction_from` up
    /// to `fraction_to`.
    pub fraction_from: usize,
    pub fraction_to: usize,
    pub exponent_negative: bool,
    /// The digits of the exponent are the characters from `exponent_from` on.
    pub exponent_from: usize,
}

impl Span {
    /// The digits of the exponent in `s`.
    pub open spec fn exponent_digits(self, s: Seq<char>) -> Seq<char> {
        s.subrange(self.exponent_from as int, s.len() as int)
    }

    /// The span gives the places in `s` of the parts of `d`.
    pub open spec fn locates(self, s: Seq<char>, d: Decimal) -> bool {
        &&& self.whole_from <= self.whole_to <= self.fraction_from
        &&& self.fraction_from <= self.fraction_to <= self.exponent_from <= s.len()
        &&& self.negative == d.negative
        &&& d.whole == s.subrange(self.whole_from as int, self.whole_to as int)
        &&& d.fraction == s.subrange(self.fraction_from as int, self.fraction_to as int)
        &&& all_digits(d.whole)
        &&& all_digits(d.fraction)
        &&& all_digits(self.exponent_digits(s))
        &&& d.exponent == if self.exponent_negative {
            -(digits_value(self.exponent_digits(s)) as int)
        } else {
            digits_value(self.exponent_digits(s)) as int
        }
    }
}

/// Whether `c` is one of the characters `0` to `9`.
pub fn is_digit_char(c: char) -> (r: bool)
    ensures
        r == is_digit(c),
{
    let v: u32 = c as u32;
    48 <= v && v <= 57
}

/// The end of the digits that begin at `from`.
fn digits_end(cs: &Vec<char>, from: usize) -> (to: usize)
    requires
        from <= cs.len(),
    ensures
        from <= to <= cs.len(),
        to - from == leading_digits(cs@.skip(from as int)),
        all_digits(cs@.subrange(from as int, to as int)),
        to < cs.len() ==> !is_digit(cs[to as int]),
{
    let n = cs.len();
    let ghost body = cs@.skip(from as int);
    let mut i: usize = from;
    assert(body.skip(0) =~= body);
    while i < n && is_digit_char(cs[i])
        invariant
            from <= i <= n,
            n == cs.len(),
            body == cs@.skip(from as int),
            leading_digits(body) == (i - from) + leading_digits(body.skip(i - from)),
        decreases n - i,
    {
        proof {
            let here = body.skip(i - from);
            assert(here[0] == cs[i as int]);
            assert(here.skip(1) =~= body.skip(i + 1 - from));
        }
        i += 1;
    }
    proof {
        let here = body.skip(i - from);
        if i < n {
            assert(here[0] == cs[i as int]);
        }
        assert(leading_digits(here) == 0);
        lemma_leading_digits(body);
        assert(body.take(i - from) =~= cs@.subrange(from as int, i as int));
    }
    i
}

/// Finds the exponent that `cs` writes from `from` on: whether it is
/// negative, and where its digits begin.
fn scan_exponent(cs: &Vec<char>, from: usize) -> (r: Option<(bool, usize)>)
    requires
        from <= cs.len(),
    ensures
        match parse_exponent(cs@.skip(from as int)) {
            None => r is None,
            Some(exponent) => {
                &&& r matches Some((negative, at))
                &&& from <= at <= cs.len()
                &&& all_digits(cs@.subrange(at as int, cs.len() as int))
                &&& exponent == if negative {
                    -(digits_value(cs@.subrange(at as int, cs.len() as int)) as int)
                } else {
                    digits_value(cs@.subrange(at as int, cs.len() as int)) as int
                }
            },
        },
{
    let n = cs.len();
    let ghost last = cs@.skip(from as int);
    if from == n {
        assert(cs@.subrange(n as int, n as int) =~= Seq::<char>::empty());
        return Some((false, n));
    }
    assert(last[0] == cs[from as int]);
    if cs[from] != 'e' && cs[from] != 'E' {
        return None;
    }
    let sign_at: usize = from + 1;
    let negative = sign_at < n && cs[sign_at] == '-';
    let at: usize = if sign_at < n && (cs[sign_at] == '-' || cs[sign_at] == '+') {
        sign_at + 1
    } else {
        sign_at
    };
    let ghost signed = last.skip(1);
    assert(signed =~= cs@.skip(sign_at as int));
    let ghost digits = unsigned_part(signed);
    assert(digits =~= cs@.subrange(at as int, n as int));
    let end = digits_end(cs, at);
    if at == n {
        return None;
    }
    if end < n {
        assert(digits[end - at] == cs[end as int]);
        return None;
    }
    assert(last[1] == cs[sign_at as int]);
    Some((negative, at))
}

/// Finds the parts of the number that `cs` writes.
pub fn scan_decimal(cs: &Vec<char>) -> (r: Option<Span>)
    ensures
        match parse_decimal(cs@) {
            None => r is None,
            Some(d) => r matches Some(span) && span.locates(cs@, d),
        },
{
    let n = cs.len();
    let negative = n > 0 && cs[0] == '-';
    let start: usize = if n > 0 && (cs[0] == '-' || cs[0] == '+') {
        1
    } else {
        0
    };
    let ghost body = unsigned_part(cs@);
    assert(body =~= cs@.skip(start as int));
    let whole_to = digits_end(cs, start);
    let ghost k = (whole_to - start) as int;
    let ghost after = body.skip(k);
    assert(after =~= cs@.skip(whole_to as int));
    assert(body.take(k) =~= cs@.subrange(start as int, whole_to as int));
    let fraction_from: usize = if whole_to < n && cs[whole_to] == '.' {
        whole_to + 1
    } else {
        whole_to
    };
    let ghost tail = if after.len() > 0 && after[0] == '.' {
        after.skip(1)
    } else {
        after
    };
    assert(tail =~= cs@.skip(fraction_from as int));
    let fraction_to = digits_end(cs, fraction_from);
    let ghost f = (fraction_to - fraction_from) as int;
    let ghost last = tail.skip(f);
    assert(last =~= cs@.skip(fraction_to as int));
    assert(tail.take(f) =~= cs@.subrange(fraction_from as int, fraction_to as int));
    if whole_to == start && fraction_to == fraction_from {
        return None;
    }
    match scan_exponent(cs, fraction_to) {
        None => None,
        Some((exponent_negative, exponent_from)) => Some(
            Span {
                negative,
                whole_from: start,
                whole_to,
                fraction_from,
                fraction_to,
                exponent_negative,
                exponent_from,
            },
        ),
    }
}

/// An exponent at or above this one moves the point past every digit of any
/// text.
const FAR: u128 = 0x1_0000_0000_0000_0000_0000_0000;

/// What the digits from `from` on write, where that is below `FAR`; else
/// `FAR`.
fn exponent_size(cs: &Vec<char>, from: usize) -> (v: u128)
    requires
        from <= cs.len(),
        all_digits(cs@.subrange(from as int, cs.len() as int)),
    ensures
        v <= FAR,
        v < FAR ==> v == digits_value(cs@.subrange(from as int, cs.len() as int)),
        v == FAR ==> digits_value(cs@.subrange(from as int, cs.len() as int)) >= FAR,
{
    let n = cs.len();
    let mut v: u128 = 0;
    let mut i: usize = from;
    assert(cs@.subrange(from as int, from as int) =~= Seq::<char>::empty());
    while i < n
        invariant
            from <= i <= n,
            n == cs.len(),
            all_digits(cs@.subrange(from as int, n as int)),
            v <= FAR,
            v < FAR ==> v == digits_value(cs@.subrange(from as int, i as int)),
            v == FAR ==> digits_value(cs@.subrange(from as int, i as int)) >= FAR,
        decreases n - i,
    {
        let c = cs[i];
        proof {
            let now = cs@.subrange(from as int, i + 1);
            assert(now.drop_last() =~= cs@.subrange(from as int, i as int));
            assert(now.last() == c);
            assert(cs@.subrange(from as int, n as int)[i - from] == c);
            lemma_digit(c);
        }
        let digit: u128 = (c as u32 - 48) as u128;
        if v < FAR {
            v = v * 10 + digit;
            if v > FAR {
                v = FAR;
            }
        }
        i += 1;
    }
    v
}

/// Appends the characters `cs[from..to]` to `out`.
fn append_range(out: &mut Vec<char>, cs: &Vec<char>, from: usize, to: usize)
    requires
        from <= to <= cs.len(),
    ensures
        final(out)@ == old(out)@ + cs@.subrange(from as int, to as int),
{
    let mut i: usize = from;
    assert(out@ =~= old(out)@ + cs@.subrange(from as int, from as int));
    while i < to
        invariant
            from <= i <= to <= cs.len(),
            out@ == old(out)@ + cs@.subrange(from as int, i as int),
        decreases to - i,
    {
        out.push(cs[i]);
        assert(out@ =~= old(out)@ + cs@.subrange(from as int, i + 1));
        i += 1;
    }
}

/// The digits of a number and the place of its point once the exponent has
/// moved it.
struct Placed {
    digits: Vec<char>,
    /// How many of the digits stand before the point.
    cut: usize,
    /// How many zeros have to be put behind the digits, as far as that is
    /// `MOST_ZEROS` at most; else `MOST_ZEROS + 1`.
    padding: usize,
}

/// Moves the point of the number that `cs` writes by its exponent.
fn place_point(cs: &Vec<char>, span: &Span) -> (r: Placed)
    requires
        parse_decimal(cs@) matches Some(d) && span.locates(cs@, d),
    ensures
        ({
            let d = parse_decimal(cs@)->Some_0;
            &&& r.digits@ == d.digits()
            &&& r.cut == d.cut()
            &&& r.padding == if d.padding() <= MOST_ZEROS {
                d.padding()
            } else {
                (MOST_ZEROS + 1) as nat
            }
        }),
{
    let ghost d = parse_decimal(cs@)->Some_0;
    let mut digits: Vec<char> = Vec::new();
    append_range(&mut digits, cs, span.whole_from, span.whole_to);
    append_range(&mut digits, cs, span.fraction_from, span.fraction_to);
    assert(digits@ =~= d.digits());
    let whole: usize = span.whole_to - span.whole_from;
    let fraction: usize = span.fraction_to - span.fraction_from;
    let size = exponent_size(cs, span.exponent_from);
    if span.exponent_negative {
        let cut: usize = if size >= whole as u128 {
            0
        } else {
            whole - size as usize
        };
        Placed { digits, cut, padding: 0 }
    } else if size >= fraction as u128 {
        let zeros: u128 = size - fraction as u128;
        let padding: usize = if zeros > MOST_ZEROS as u128 {
            MOST_ZEROS + 1
        } else {
            zeros as usize
        };
        let cut = digits.len();
        Placed { digits, cut, padding }
    } else {
        Placed { digits, cut: whole + size as usize, padding: 0 }
    }
}

/// The digit that follows `c`, for a digit other than `9`.
fn next_digit(c: char) -> (r: char)
    requires
        is_digit(c),
        c != '9',
    ensures
        is_digit(r),
        digit_value(r) == digit_value(c) + 1,
{
    let v: u8 = c as u8;
    (v + 1) as char
}

/// Adds one to the number that `digits` writes.
fn increment(digits: &mut Vec<char>)
    requires
        all_digits(old(digits)@),
        old(digits).len() == 0 || old(digits)[0] != '0',
    ensures
        all_digits(final(digits)@),
        final(digits).len() > 0,
        final(digits)[0] != '0',
        digits_value(final(digits)@) == digits_value(old(digits)@) + 1,
    decreases old(digits).len(),
{
    let ghost before = digits@;
    match digits.pop() {
        None => {
            digits.push('1');
            assert(before =~= Seq::<char>::empty());
            assert(digits@.drop_last() =~= Seq::<char>::empty());
            assert(digits_value(Seq::<char>::empty()) == 0);
        },
        Some(c) => {
            let ghost front = digits@;
            assert(front =~= before.drop_last());
            assert(c == before.last());
            assert(is_digit(before[before.len() - 1]));
            assert forall|i: int| 0 <= i < front.len() implies is_digit(#[trigger] front[i]) by {
                assert(front[i] == before[i]);
            }
            if c != '9' {
                let next = next_digit(c);
                digits.push(next);
                assert(digits@.drop_last() =~= front);
                proof {
                    if front.len() > 0 {
                        assert(digits@[0] == before[0]);
                    }
                }
            } else {
                proof {
                    if front.len() > 0 {
                        assert(front[0] == before[0]);
                    }
                }
                increment(digits);
                let ghost more = digits@;
                digits.push('0');
                assert(digits@.drop_last() =~= more);
                assert(digits@[0] == more[0]);
            }
        },
    }
}

/// Whether the digit `c` is odd.
fn is_odd_digit(c: char) -> (r: bool)
    requires
        is_digit(c),
    ensures
        r == (digit_value(c) % 2 == 1),
{
    let v: u32 = c as u32;
    (v - 48) % 2 == 1
}

/// The digits that `cs[..to]` writes without its leading zeros: no digits for
/// zero.
fn significant_digits(cs: &Vec<char>, to: usize) -> (digits: Vec<char>)
    requires
        to <= cs.len(),
        all_digits(cs@.take(to as int)),
    ensures
        all_digits(digits@),
        digits.len() == 0 || digits[0] != '0',
        digits_value(digits@) == digits_value(cs@.take(to as int)),
{
    let ghost whole = cs@.take(to as int);
    let mut z: usize = 0;
    assert(cs@.subrange(0, to as int) =~= whole);
    while z < to && cs[z] == '0'
        invariant
            z <= to <= cs.len(),
            digits_value(whole) == digits_value(cs@.subrange(z as int, to as int)),
        decreases to - z,
    {
        proof {
            let here = cs@.subrange(z as int, to as int);
            lemma_leading_zero(here);
            assert(here.skip(1) =~= cs@.subrange(z + 1, to as int));
        }
        z += 1;
    }
    let mut digits: Vec<char> = Vec::new();
    append_range(&mut digits, cs, z, to);
    proof {
        let stripped = cs@.subrange(z as int, to as int);
        assert(digits@ =~= stripped);
        assert forall|m: int| 0 <= m < stripped.len() implies is_digit(#[trigger] stripped[m]) by {
            assert(stripped[m] == whole[z + m]);
        }
    }
    digits
}

/// The digits of the even integer nearest to the number that `cs` writes,
/// without its sign: no digits for zero, else without a leading zero. `None`
/// where the number cannot be written out.
fn even_digits(cs: &Vec<char>, span: &Span) -> (r: Option<Vec<char>>)
    requires
        parse_decimal(cs@) matches Some(d) && span.locates(cs@, d),
    ensures
        ({
            let d = parse_decimal(cs@)->Some_0;
            match r {
                Some(digits) => {
                    &&& d.can_be_written()
                    &&& all_digits(digits@)
                    &&& digits.len() == 0 || digits[0] != '0'
                    &&& digits_value(digits@) == d.rounded_magnitude()
                },
                None => !d.can_be_written(),
            }
        }),
{
    let ghost d = parse_decimal(cs@)->Some_0;
    let place = place_point(cs, span);
    proof {
        lemma_point(d);
        let front = place.digits@.take(place.cut as int);
        assert forall|i: int| 0 <= i < front.len() implies is_digit(#[trigger] front[i]) by {
            assert(front[i] == d.digits()[i]);
        }
        if d.padding() > 0 {
            assert(d.digits().take(d.cut() as int) =~= d.digits());
        }
    }
    let mut digits = significant_digits(&place.digits, place.cut);
    let ghost base = digits@;
    if digits.len() == 0 {
        proof {
            assert(base =~= Seq::<char>::empty());
            assert(digits_value(base) == 0);
            assert(0 * power_of_ten(d.padding()) == 0);
        }
        return Some(digits);
    }
    proof {
        lemma_positive(base);
    }
    if place.padding > MOST_ZEROS {
        return None;
    }
    let mut i: usize = 0;
    assert(base + zeros(0) =~= base);
    while i < place.padding
        invariant
            i <= place.padding,
            digits@ == base + zeros(i as nat),
        decreases place.padding - i,
    {
        digits.push('0');
        assert(base + zeros((i + 1) as nat) =~= (base + zeros(i as nat)).push('0'));
        i += 1;
    }
    proof {
        let behind = zeros(d.padding());
        assert(all_zeros(behind));
        assert(all_digits(behind));
        lemma_zero_value(behind);
        lemma_concat_value(base, behind);
        assert forall|m: int| 0 <= m < digits.len() implies is_digit(#[trigger] digits[m]) by {
            if m < base.len() {
                assert(digits[m] == base[m]);
            } else {
                assert(digits[m] == behind[m - base.len()]);
            }
        }
        assert(digits[0] == base[0]);
        assert(digits_value(digits@) == d.whole_value());
        lemma_parity(digits@);
        lemma_front_digits(digits@);
    }
    if is_odd_digit(digits[digits.len() - 1]) {
        increment(&mut digits);
    }
    Some(digits)
}

/// Appends the digits `digits` to `out`, or `0` where there is none.
fn push_digits(out: &mut String, digits: &Vec<char>)
    requires
        all_digits(digits@),
        digits.len() == 0 || digits[0] != '0',
    ensures
        final(out)@ == old(out)@ + decimal_text(digits_value(digits@)),
{
    if digits.len() == 0 {
        out.push('0');
        proof {
            assert(digits@ =~= Seq::<char>::empty());
            assert(digits_value(digits@) == 0);
            assert(decimal_text(0) =~= seq!['0']);
            assert(out@ =~= old(out)@ + seq!['0']);
        }
    } else {
        proof {
            lemma_canonical_text(digits@);
        }
        let mut i: usize = 0;
        assert(out@ =~= old(out)@ + digits@.take(0));
        while i < digits.len()
            invariant
                i <= digits.len(),
                out@ == old(out)@ + digits@.take(i as int),
            decreases digits.len() - i,
        {
            out.push(digits[i]);
            assert(old(out)@ + digits@.take(i + 1) =~= (old(out)@ + digits@.take(i as int)).push(digits@[i as int]));
            i += 1;
        }
        assert(digits@.take(digits.len() as int) =~= digits@);
    }
}

/// The text of the even integer nearest to the number that `value` writes.
///
/// A number is an optional sign, digits, an optional point followed by
/// digits, and an optional exponent (`e` or `E`, an optional sign, digits),
/// with at least one digit before the exponent. It stands for what its digits
/// write times ten to the exponent. A number that lies halfway between two
/// even integers goes to the one farther from zero. A negative number keeps
/// its sign even where it rounds to zero. A text that writes no number gives
/// `0`, and so does a number other than zero that would need more than
/// `MOST_ZEROS` zeros behind its digits.
pub fn round_to_even(value: &str) -> (rounded: String)
    ensures
        rounded@ == rounded_text(value@),
{
    let cs = chars_of(value);
    let mut rounded = String::new();
    match scan_decimal(&cs) {
        None => {
            rounded.push('0');
            assert(rounded@ =~= seq!['0']);
        },
        Some(span) => {
            let ghost d = parse_decimal(cs@)->Some_0;
            match even_digits(&cs, &span) {
                None => {
                    rounded.push('0');
                    assert(rounded@ =~= seq!['0']);
                },
                Some(digits) => {
                    if span.negative {
                        rounded.push('-');
                    }
                    let ghost sign = rounded@;
                    push_digits(&mut rounded, &digits);
                    proof {
                        assert(sign =~= if d.negative {
                            seq!['-']
                        } else {
                            Seq::<char>::empty()
                        });
                        assert(rounded@ =~= d.rounded_text());
                    }
                },
            }
        },
    }
    rounded
}

/// Whether `value` writes an even integer: a number, read as `round_to_even`
/// reads it, that has nothing but zeros after its point once the exponent has
/// moved it, and whose whole part is even.
pub fn is_even(value: &str) -> (even: bool)
    ensures
        even == is_even_text(value@),
{
    let cs = chars_of(value);
    match scan_decimal(&cs) {
        None => false,
        Some(span) => {
            let ghost d = parse_decimal(cs@)->Some_0;
            let place = place_point(&cs, &span);
            proof {
                lemma_point(d);
            }
            let n = place.digits.len();
            let mut i: usize = place.cut;
            while i < n
                invariant
                    place.cut <= i <= n,
                    n == place.digits.len(),
                    parse_decimal(value@) == Some(d),
                    place.digits@ == d.digits(),
                    place.cut == d.cut(),
                    d.is_integer() == all_zeros(d.digits().skip(d.cut() as int)),
                    forall|m: int| place.cut <= m < i ==> #[trigger] place.digits[m] == '0',
                decreases n - i,
            {
                if place.digits[i] != '0' {
                    assert(d.digits().skip(d.cut() as int)[i - place.cut] == place.digits[i as int]);
                    return false;
                }
                i += 1;
            }
            let ghost front = d.digits().take(d.cut() as int);
            proof {
                lemma_point(d);
                assert forall|m: int| 0 <= m < d.digits().skip(d.cut() as int).len() implies #[trigger] d.digits().skip(
                    d.cut() as int,
                )[m] == '0' by {
                    assert(d.digits().skip(d.cut() as int)[m] == place.digits[place.cut + m]);
                }
                assert(d.is_integer());
            }
            if place.padding > 0 {
                proof {
                    lemma_power_is_even(digits_value(front), d.padding());
                }
                true
            } else if place.cut == 0 {
                proof {
                    assert(front =~= Seq::<char>::empty());
                    assert(digits_value(front) == 0);
                    assert(0 * power_of_ten(d.padding()) == 0);
                }
                true
            } else {
                proof {
                    assert(power_of_ten(0) == 1);
                    assert(digits_value(front) * 1 == digits_value(front));
                    lemma_parity(front);
                    assert(front.last() == place.digits[place.cut - 1]);
                    assert(is_digit(d.digits()[place.cut - 1]));
                }
                !is_odd_digit(place.digits[place.cut - 1])
            }
        },
    }
}

/// The number that the rounded text of `s` stands for: the even integer
/// nearest to the number that `s` writes, or zero.
pub open spec fn rounded_number(s: Seq<char>) -> int {
    match parse_decimal(s) {
        Some(d) => if d.can_be_written() {
            d.rounded_value()
        } else {
            0
        },
        None => 0,
    }
}

/// The number that `s` writes is no farther than one from the even integer
/// that it is rounded to: with both taken times the power of ten that makes
/// the number an integer, they differ by that power of ten at most. A text
/// that writes no number, or one that cannot be written out, is rounded to
/// `0`.
pub proof fn lemma_rounding_is_near(s: Seq<char>)
    ensures
        match parse_decimal(s) {
            Some(d) => if d.can_be_written() {
                &&& rounded_text(s) == d.rounded_text()
                &&& d.rounded_value() % 2 == 0
                &&& d.rounded_value() * d.scale() - d.scaled_value() <= d.scale()
                &&& d.scaled_value() - d.rounded_value() * d.scale() <= d.scale()
            } else {
                rounded_text(s) == seq!['0']
            },
            None => rounded_text(s) == seq!['0'],
        },
{
    match parse_decimal(s) {
        Some(d) => {
            let q = d.scale() as int;
            let x = d.scaled_magnitude() as int;
            let w = d.whole_value() as int;
            let r = d.rounded_magnitude() as int;
            if d.shift() < 0 {
                lemma_power_positive((-d.shift()) as nat);
            }
            vstd::arithmetic::div_mod::lemma_fundamental_div_mod(x, q);
            vstd::arithmetic::div_mod::lemma_mod_pos_bound(x, q);
            assert(x == q * w + x % q);
            assert(q * w == w * q) by (nonlinear_arith);
            if w % 2 == 0 {
                assert(r == w);
            } else {
                assert(r == w + 1);
                assert((w + 1) * q == w * q + q) by (nonlinear_arith);
            }
            assert(r % 2 == 0);
            assert((-r) % 2 == 0);
            if d.negative {
                assert((-r) * q == -(r * q)) by (nonlinear_arith);
            }
        },
        None => {},
    }
}

/// How far `a` and `b` are apart.
pub open spec fn distance(a: int, b: int) -> nat {
    if a < b {
        (b - a) as nat
    } else {
        (a - b) as nat
    }
}

/// No even integer is nearer to the number that `s` writes than the one that
/// it is rounded to: with all three taken times the power of ten that makes
/// the number an integer, the number is no farther from its rounded value
/// than from `even`.
pub proof fn lemma_rounding_is_nearest(s: Seq<char>, even: int)
    requires
        even % 2 == 0,
        parse_decimal(s) matches Some(d) && d.can_be_written(),
    ensures
        ({
            let d = parse_decimal(s)->Some_0;
            distance(rounded_number(s) * d.scale(), d.scaled_value()) <= distance(
                even * d.scale(),
                d.scaled_value(),
            )
        }),
{
    let d = parse_decimal(s)->Some_0;
    let q = d.scale() as int;
    let x = d.scaled_magnitude() as int;
    let w = d.whole_value() as int;
    let r = d.rounded_magnitude() as int;
    let e = if d.negative {
        -even
    } else {
        even
    };
    if d.shift() < 0 {
        lemma_power_positive((-d.shift()) as nat);
    }
    vstd::arithmetic::div_mod::lemma_fundamental_div_mod(x, q);
    vstd::arithmetic::div_mod::lemma_mod_pos_bound(x, q);
    assert(q * w == w * q) by (nonlinear_arith);
    assert((w + 1) * q == w * q + q) by (nonlinear_arith);
    assert(r % 2 == 0);
    assert(e % 2 == 0);
    if e >= r + 2 {
        assert(e * q >= r * q + 2 * q) by (nonlinear_arith)
            requires
                e >= r + 2,
                q > 0,
        ;
    } else if e <= r - 2 {
        assert(e * q <= r * q - 2 * q) by (nonlinear_arith)
            requires
                e <= r - 2,
                q > 0,
        ;
    } else {
        assert(e == r);
    }
    assert(distance(r * q, x) <= distance(e * q, x));
    if d.negative {
        assert((-r) * q == -(r * q)) by (nonlinear_arith);
        assert(even * q == -(e * q)) by (nonlinear_arith)
            requires
                e == -even,
        ;
    }
}

/// A rounded text writes the even integer that it stands for, and rounding
/// it again changes nothing.
pub proof fn lemma_rounded_is_even(s: Seq<char>)
    ensures
        is_even_text(rounded_text(s)),
        rounded_text(rounded_text(s)) == rounded_text(s),
        parse_decimal(rounded_text(s)) matches Some(again) && again.scale() == 1 && again.scaled_value()
            == rounded_number(s),
{
    let (negative, n) = match parse_decimal(s) {
        Some(d) => if d.can_be_written() {
            (d.negative, d.rounded_magnitude())
        } else {
            (false, 0nat)
        },
        None => (false, 0nat),
    };
    let text = decimal_text(n);
    let t = rounded_text(s);
    assert(decimal_text(0) =~= seq!['0']);
    assert(t == if negative {
        seq!['-'] + text
    } else {
        text
    });
    assert(n % 2 == 0);
    lemma_decimal_text(n);
    lemma_all_leading(text);
    assert(is_digit(text[0]));
    let body = unsigned_part(t);
    assert(body =~= text);
    let after = body.skip(text.len() as int);
    assert(after =~= Seq::<char>::empty());
    assert(leading_digits(after) == 0);
    assert(after.skip(0) =~= after);
    assert(after.take(0) =~= Seq::<char>::empty());
    assert(body.take(text.len() as int) =~= text);
    assert(parse_exponent(after) == Some(0int));
    assert(parse_decimal(t) is Some);
    let again = parse_decimal(t)->Some_0;
    assert(again.whole == text);
    assert(again.fraction =~= Seq::<char>::empty());
    assert(again.exponent == 0);
    assert(again.negative == negative);
    assert(again.digits() =~= text);
    assert(again.shift() == 0);
    assert(again.scaled_magnitude() == n);
    assert(again.scale() == 1);
    assert(n as int / 1 == n);
    assert(n as int % 1 == 0);
    assert(again.whole_value() == n);
    assert(again.is_integer());
    assert(again.rounded_magnitude() == n);
}

/// An integer written in base ten: a negative one with `-` before its
/// digits.
pub open spec fn integer_text(value: int) -> Seq<char> {
    if value < 0 {
        seq!['-'] + decimal_text((-value) as nat)
    } else {
        decimal_text(value as nat)
    }
}

/// Appends the digits of `n` to `out`.
fn push_number(out: &mut String, n: u128)
    ensures
        final(out)@ == old(out)@ + decimal_text(n as nat),
    decreases n,
{
    if n >= 10 {
        push_number(out, n / 10);
    }
    let digit: u8 = (n % 10) as u8;
    let c: char = (digit + 48) as char;
    assert(c == digit_char((n % 10) as nat));
    out.push(c);
    proof {
        if n < 10 {
            assert(old(out)@ + decimal_text(n as nat) =~= old(out)@.push(c));
        } else {
            assert(old(out)@ + decimal_text(n as nat) =~= (old(out)@ + decimal_text((n / 10) as nat)).push(c));
        }
    }
}

/// `n` written in base ten.
pub fn number_to_text(n: u128) -> (text: String)
    ensures
        text@ == decimal_text(n as nat),
{
    let mut text = String::new();
    push_number(&mut text, n);
    assert(Seq::<char>::empty() + decimal_text(n as nat) =~= decimal_text(n as nat));
    text
}

/// `value` written in base ten.
pub fn integer_to_text(value: i128) -> (text: String)
    ensures
        text@ == integer_text(value as int),
{
    let mut text = String::new();
    if value < 0 {
        text.push('-');
        let magnitude: u128 = (-(value + 1)) as u128 + 1;
        push_number(&mut text, magnitude);
    } else {
        push_number(&mut text, value as u128);
        assert(Seq::<char>::empty() + decimal_text(value as nat) =~= decimal_text(value as nat));
    }
    text
}

} // verus!
