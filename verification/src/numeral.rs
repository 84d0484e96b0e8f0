//! Numbers as they are written in queries.

use vstd::prelude::*;
use vstd::arithmetic::power::{lemma_pow0, lemma_pow1, lemma_pow_adds, lemma_pow_increases, lemma_pow_positive, pow};
use crate::text::{fits, is_digit};

verus! {

/// The value of a digit.
pub open spec fn digit_of(c: char) -> int {
    c as u32 - 48
}

/// The number that the first `n` digits of `s` stand for.
pub open spec fn nat_upto(s: Seq<char>, n: int) -> int
    decreases n,
{
    if n <= 0 {
        0
    } else {
        10 * nat_upto(s, n - 1) + digit_of(s[n - 1])
    }
}

/// The number that digits stand for.
pub open spec fn nat_of(s: Seq<char>) -> int {
    nat_upto(s, s.len() as int)
}

/// Every character is a digit.
pub open spec fn all_digits(s: Seq<char>) -> bool {
    forall|i: int| 0 <= i < s.len() ==> is_digit(#[trigger] s[i])
}

/// What follows a leading plus.
pub open spec fn after_plus(s: Seq<char>) -> Seq<char> {
    if s.len() > 0 && s[0] == '+' {
        s.subrange(1, s.len() as int)
    } else {
        s
    }
}

/// The whole number that `s` writes, if it writes one up to `max`: digits,
/// perhaps behind a plus.
pub open spec fn whole_of(s: Seq<char>, max: int) -> Option<int> {
    let d = after_plus(s);
    if d.len() > 0 && all_digits(d) && nat_of(d) <= max {
        Some(nat_of(d))
    } else {
        None
    }
}

pub fn is_digit_char(c: char) -> (r: bool)
    ensures
        r == is_digit(c),
{
    '0' <= c && c <= '9'
}

/// The number that `s[from..to]` writes, which are digits, if it is at most
/// `max`.
fn read_digits(s: &[char], from: usize, to: usize, max: u64) -> (r: Option<u64>)
    requires
        from <= to <= s@.len(),
        all_digits(s@.subrange(from as int, to as int)),
    ensures
        match r {
            Some(v) => v == nat_of(s@.subrange(from as int, to as int)) && v <= max,
            None => nat_of(s@.subrange(from as int, to as int)) > max,
        },
{
    let ghost d = s@.subrange(from as int, to as int);
    let mut v: u64 = 0;
    let mut i: usize = from;
    while i < to
        invariant
            from <= i <= to <= s@.len(),
            d == s@.subrange(from as int, to as int),
            all_digits(d),
            v == nat_upto(d, i - from),
            v <= max,
        decreases to - i,
    {
        let c: char = s[i];
        proof {
            assert(d[i - from] == c);
            assert(is_digit(c));
        }
        let next: u128 = v as u128 * 10 + (c as u32 - 48) as u128;
        if next > max as u128 {
            proof {
                lemma_nat_grows(d, i - from + 1, d.len() as int);
            }
            return None;
        }
        v = next as u64;
        i = i + 1;
    }
    Some(v)
}

/// More digits never make a number smaller.
proof fn lemma_nat_grows(s: Seq<char>, a: int, b: int)
    requires
        all_digits(s),
        0 <= a <= b <= s.len(),
    ensures
        0 <= nat_upto(s, a) <= nat_upto(s, b),
    decreases b,
{
    if b > 0 {
        lemma_nat_grows(s, if a < b { a } else { a - 1 }, b - 1);
        assert(is_digit(s[b - 1]));
    }
}

/// The first index from `i` on that is no digit.
pub open spec fn digits_end(s: Seq<char>, i: int) -> int
    decreases s.len() - i,
{
    if 0 <= i < s.len() && is_digit(s[i]) {
        digits_end(s, i + 1)
    } else {
        i
    }
}

/// Where the digits from `i` on end.
pub fn skip_digits(s: &[char], i: usize) -> (r: usize)
    requires
        i <= s@.len(),
    ensures
        r == digits_end(s@, i as int),
        i <= r <= s@.len(),
        all_digits(s@.subrange(i as int, r as int)),
        r < s@.len() ==> !is_digit(s@[r as int]),
{
    let mut k: usize = i;
    while k < s.len() && is_digit_char(s[k])
        invariant
            i <= k <= s@.len(),
            digits_end(s@, i as int) == digits_end(s@, k as int),
            forall|j: int| i <= j < k ==> is_digit(#[trigger] s@[j]),
        decreases s@.len() - k,
    {
        k = k + 1;
    }
    proof {
        let d = s@.subrange(i as int, k as int);
        assert forall|j: int| 0 <= j < d.len() implies is_digit(#[trigger] d[j]) by {
            assert(is_digit(s@[i + j]));
        }
    }
    k
}

/// The whole number that `s` writes, if it writes one up to `max`.
pub fn parse_whole(s: &[char], max: u64) -> (r: Option<u64>)
    ensures
        match r {
            Some(v) => whole_of(s@, max as int) == Some(v as int),
            None => whole_of(s@, max as int) is None,
        },
{
    let n: usize = s.len();
    let from: usize = if n > 0 && s[0] == '+' {
        1
    } else {
        0
    };
    let end: usize = skip_digits(s, from);
    proof {
        let d = after_plus(s@);
        assert(d =~= s@.subrange(from as int, n as int));
        if end < n {
            assert(d[end - from] == s@[end as int]);
        }
    }
    if end < n || from == n {
        return None;
    }
    read_digits(s, from, n, max)
}

// ---------------------------------------------------------------------------
// Decimal numbers
// ---------------------------------------------------------------------------

/// A decimal number: its digits without the point, and the power of ten that
/// they are to be multiplied by.
pub ghost struct Decimal {
    pub negative: bool,
    pub digits: Seq<char>,
    pub power: int,
}

pub open spec fn is_sign(c: char) -> bool {
    c == '+' || c == '-'
}

/// The decimal number that `s` writes: a sign, digits with at most one point
/// among them, and an exponent, of which only a digit is needed.
pub open spec fn decimal_of(s: Seq<char>) -> Option<Decimal> {
    let n = s.len() as int;
    let a = if n > 0 && is_sign(s[0]) { 1int } else { 0int };
    let b = digits_end(s, a);
    let c = if b < n && s[b] == '.' { b + 1 } else { b };
    let d = digits_end(s, c);
    let digits = s.subrange(a, b) + s.subrange(c, d);
    if digits.len() == 0 {
        None
    } else {
        match exponent_of(s, d) {
            Some(x) => Some(Decimal { negative: a == 1 && s[0] == '-', digits, power: x - (d - c) }),
            None => None,
        }
    }
}

/// The exponent that stands from `d` to the end: nothing, or an `e` before a
/// signed whole number.
pub open spec fn exponent_of(s: Seq<char>, d: int) -> Option<int> {
    let n = s.len() as int;
    if d >= n {
        Some(0)
    } else if s[d] == 'e' || s[d] == 'E' {
        let e = if d + 1 < n && is_sign(s[d + 1]) { d + 2 } else { d + 1 };
        if e < n && digits_end(s, e) == n {
            let x = nat_of(s.subrange(e, n));
            Some(if s[d + 1] == '-' { -x } else { x })
        } else {
            None
        }
    } else {
        None
    }
}

impl Decimal {
    /// The digits as a whole number.
    pub open spec fn mantissa(self) -> int {
        nat_of(self.digits)
    }

    /// The number lies between 0 and `10^j`.
    pub open spec fn upto_power(self, j: int) -> bool {
        &&& self.negative ==> self.mantissa() == 0
        &&& if self.power >= j {
            self.mantissa() * pow(10, (self.power - j) as nat) <= 1
        } else {
            self.mantissa() <= pow(10, (j - self.power) as nat)
        }
    }

    /// That many percent of `len`, rounded up.
    pub open spec fn percent_of(self, len: int) -> int {
        if self.power >= 0 {
            (self.mantissa() * pow(10, self.power as nat) * len + 99) / 100
        } else {
            let whole = 100 * pow(10, (-self.power) as nat);
            (self.mantissa() * len + whole - 1) / whole
        }
    }
}

/// A decimal number: digits, and the power of ten; `huge` says that the
/// exponent is too long to be held, and `power` only has its sign then.
pub struct Number {
    negative: bool,
    digits: Vec<char>,
    power: i64,
    huge: bool,
}

impl Number {
    /// This is the decimal number `d`.
    pub closed spec fn is(self, d: Decimal) -> bool {
        &&& self.negative == d.negative
        &&& self.digits@ == d.digits
        &&& all_digits(d.digits)
        &&& 1 <= d.digits.len() <= 0x4000_0000
        &&& -0x200_0000_0000 < self.power < 0x200_0000_0000
        &&& !self.huge ==> self.power == d.power
        &&& self.huge && self.power > 0 ==> d.power >= 0x80_0000_0000
        &&& self.huge && self.power <= 0 ==> d.power <= -0x80_0000_0000
    }
}

/// Read a decimal number.
pub fn parse_decimal(s: &[char]) -> (r: Option<Number>)
    requires
        fits(s@),
    ensures
        match r {
            Some(v) => decimal_of(s@) is Some && v.is(decimal_of(s@)->0),
            None => decimal_of(s@) is None,
        },
{
    let n: usize = s.len();
    let signed: bool = n > 0 && (s[0] == '+' || s[0] == '-');
    let negative: bool = signed && s[0] == '-';
    let a: usize = if signed {
        1
    } else {
        0
    };
    let b: usize = skip_digits(s, a);
    let c: usize = if b < n && s[b] == '.' {
        b + 1
    } else {
        b
    };
    let d: usize = skip_digits(s, c);
    let mut digits: Vec<char> = Vec::new();
    push_chars(&mut digits, s, a, b);
    push_chars(&mut digits, s, c, d);
    proof {
        let x = s@.subrange(a as int, b as int);
        let y = s@.subrange(c as int, d as int);
        assert(digits@ =~= x + y);
        assert forall|i: int| 0 <= i < digits@.len() implies is_digit(#[trigger] digits@[i]) by {
            if i < x.len() {
                assert(is_digit(x[i]));
            } else {
                assert(is_digit(y[i - x.len()]));
            }
        }
    }
    if digits.len() == 0 {
        return None;
    }
    let frac: i64 = (d - c) as i64;
    match read_exponent(s, d) {
        None => None,
        Some((x, huge)) => {
            let power: i64 = if huge {
                x
            } else {
                x - frac
            };
            Some(Number { negative, digits, power, huge })
        },
    }
}

/// The exponent from `d` on. One too long to be held comes as its sign and
/// `true`.
fn read_exponent(s: &[char], d: usize) -> (r: Option<(i64, bool)>)
    requires
        fits(s@),
        d <= s@.len(),
    ensures
        match r {
            Some((x, huge)) => {
                &&& exponent_of(s@, d as int) is Some
                &&& !huge ==> x == exponent_of(s@, d as int)->0 && -0x100_0000_0000 < x < 0x100_0000_0000
                &&& huge && x == 1 ==> exponent_of(s@, d as int)->0 >= 0x100_0000_0000
                &&& huge && x != 1 ==> x == -1 && exponent_of(s@, d as int)->0 <= -0x100_0000_0000
            },
            None => exponent_of(s@, d as int) is None,
        },
{
    let n: usize = s.len();
    if d == n {
        return Some((0, false));
    }
    if s[d] != 'e' && s[d] != 'E' {
        return None;
    }
    let e: usize = if d + 1 < n && (s[d + 1] == '+' || s[d + 1] == '-') {
        d + 2
    } else {
        d + 1
    };
    if e >= n {
        return None;
    }
    let end: usize = skip_digits(s, e);
    if end < n {
        return None;
    }
    let minus: bool = s[d + 1] == '-';
    match read_digits(s, e, n, 0xFF_FFFF_FFFF) {
        Some(x) => {
            let v: i64 = x as i64;
            Some((if minus { -v } else { v }, false))
        },
        None => Some((if minus { -1 } else { 1 }, true)),
    }
}

fn push_chars(out: &mut Vec<char>, s: &[char], from: usize, to: usize)
    requires
        from <= to <= s@.len(),
    ensures
        final(out)@ == old(out)@ + s@.subrange(from as int, to as int),
{
    let mut i: usize = from;
    proof {
        assert(out@ =~= old(out)@ + s@.subrange(from as int, from as int));
    }
    while i < to
        invariant
            from <= i <= to <= s@.len(),
            out@ == old(out)@ + s@.subrange(from as int, i as int),
        decreases to - i,
    {
        out.push(s[i]);
        proof {
            assert(s@.subrange(from as int, i + 1) =~= s@.subrange(from as int, i as int).push(s@[i as int]));
            assert(out@ =~= old(out)@ + s@.subrange(from as int, i + 1));
        }
        i = i + 1;
    }
}

/// `n` digits write a number below `10^n`.
proof fn lemma_nat_bound(s: Seq<char>, n: int)
    requires
        all_digits(s),
        0 <= n <= s.len(),
    ensures
        0 <= nat_upto(s, n) < pow(10, n as nat),
    decreases n,
{
    lemma_pow0(10);
    if n > 0 {
        lemma_nat_bound(s, n - 1);
        assert(is_digit(s[n - 1]));
        lemma_pow_adds(10, (n - 1) as nat, 1);
        lemma_pow1(10);
    }
}

/// Zeros in front do not count.
proof fn lemma_leading_zeros(s: Seq<char>, z: int, n: int)
    requires
        0 <= z <= n <= s.len(),
        forall|i: int| 0 <= i < z ==> #[trigger] s[i] == '0',
    ensures
        nat_upto(s, z) == 0,
        nat_upto(s, n) == nat_upto(s.subrange(z, s.len() as int), n - z),
    decreases n,
{
    if z > 0 {
        lemma_leading_zeros(s, z - 1, z - 1);
    }
    if n > z {
        lemma_leading_zeros(s, z, n - 1);
        assert(s.subrange(z, s.len() as int)[n - 1 - z] == s[n - 1]);
    }
}

/// The number of `n` digits is at least `10^(n-1)` if the first is not zero,
/// and exactly that if it is a one before zeros.
proof fn lemma_nat_leading(s: Seq<char>, n: int)
    requires
        all_digits(s),
        1 <= n <= s.len(),
        s[0] != '0',
    ensures
        nat_upto(s, n) >= pow(10, (n - 1) as nat),
        nat_upto(s, n) == pow(10, (n - 1) as nat) <==> s[0] == '1' && forall|i: int| 1 <= i < n ==> #[trigger] s[i] == '0',
    decreases n,
{
    lemma_pow0(10);
    assert(is_digit(s[n - 1]));
    if n > 1 {
        lemma_nat_leading(s, n - 1);
        lemma_pow_adds(10, (n - 2) as nat, 1);
        lemma_pow1(10);
        let (x, y) = (nat_upto(s, n - 1), pow(10, (n - 2) as nat));
        assert(nat_upto(s, n) == 10 * x + digit_of(s[n - 1]));
        assert(pow(10, (n - 1) as nat) == 10 * y);
        if nat_upto(s, n) == 10 * y {
            assert(x == y && digit_of(s[n - 1]) == 0);
        }
    } else {
        assert(nat_upto(s, 1) == 10 * nat_upto(s, 0) + digit_of(s[0]));
    }
}

impl Number {
    /// How many zeros the digits start with.
    fn leading_zeros(&self) -> (r: usize)
        ensures
            r <= self.digits@.len(),
            forall|i: int| 0 <= i < r ==> #[trigger] self.digits@[i] == '0',
            r < self.digits@.len() ==> self.digits@[r as int] != '0',
    {
        let mut i: usize = 0;
        while i < self.digits.len() && self.digits[i] == '0'
            invariant
                i <= self.digits@.len(),
                forall|k: int| 0 <= k < i ==> #[trigger] self.digits@[k] == '0',
            decreases self.digits@.len() - i,
        {
            i = i + 1;
        }
        i
    }

    /// Whether the number lies between 0 and `10^j`.
    pub fn upto_power(&self, j: u8, Ghost(d): Ghost<Decimal>) -> (r: bool)
        requires
            self.is(d),
        ensures
            r == d.upto_power(j as int),
    {
        let z: usize = self.leading_zeros();
        let n: usize = self.digits.len();
        let ghost m = d.mantissa();
        let ghost rest = d.digits.subrange(z as int, n as int);
        proof {
            lemma_leading_zeros(d.digits, z as int, n as int);
            assert(m == nat_upto(rest, n - z));
        }
        if z == n {
            proof {
                assert(m == 0);
                if d.power < j {
                    lemma_pow_positive(10, (j - d.power) as nat);
                }
            }
            return true;
        }
        let k: usize = n - z;
        proof {
            assert forall|i: int| 0 <= i < rest.len() implies is_digit(#[trigger] rest[i]) by {
                assert(is_digit(d.digits[z + i]));
            }
            lemma_nat_leading(rest, k as int);
            lemma_nat_bound(rest, k as int);
            lemma_pow_positive(10, (k - 1) as nat);
            assert(m >= 1);
        }
        if self.negative {
            return false;
        }
        if self.huge {
            proof {
                if self.power > 0 {
                    let e = (d.power - j) as nat;
                    lemma_pow_increases(10, 1, e);
                    lemma_pow1(10);
                    let p = pow(10, e);
                    assert(m * p >= 10) by (nonlinear_arith)
                        requires
                            m >= 1,
                            p >= 10,
                    ;
                } else {
                    lemma_pow_increases(10, k as nat, (j - d.power) as nat);
                }
            }
            return self.power <= 0;
        }
        let one: bool = self.is_one_and_zeros(z);
        if self.power >= j as i64 {
            proof {
                let e = (d.power - j) as nat;
                let p = pow(10, e);
                lemma_pow0(10);
                lemma_pow_positive(10, e);
                if e > 0 {
                    lemma_pow_increases(10, 1, e);
                    lemma_pow1(10);
                    assert(m * p >= 10) by (nonlinear_arith)
                        requires
                            m >= 1,
                            p >= 10,
                    ;
                } else {
                    assert(m * p == m) by (nonlinear_arith)
                        requires
                            p == 1,
                    ;
                    if m == 1 {
                        if k > 1 {
                            lemma_pow_increases(10, 1, (k - 1) as nat);
                            lemma_pow1(10);
                        }
                    }
                }
            }
            return self.power == j as i64 && k == 1 && one;
        }
        let t: i64 = j as i64 - self.power;
        proof {
            let p = pow(10, t as nat);
            if k <= t {
                lemma_pow_increases(10, k as nat, t as nat);
            } else if k > t + 1 {
                lemma_pow_increases(10, (t + 1) as nat, (k - 1) as nat);
                lemma_pow_adds(10, t as nat, 1);
                lemma_pow1(10);
                lemma_pow_positive(10, t as nat);
            }
        }
        (k as i64) <= t || ((k as i64) == t + 1 && one)
    }

    /// Whether a one stands at `z` and zeros behind it.
    fn is_one_and_zeros(&self, z: usize) -> (r: bool)
        requires
            z < self.digits@.len(),
        ensures
            r == (self.digits@[z as int] == '1' && forall|i: int| 1 <= i < self.digits@.len() - z ==> #[trigger] self.digits@.subrange(z as int, self.digits@.len() as int)[i] == '0'),
    {
        let ghost rest = self.digits@.subrange(z as int, self.digits@.len() as int);
        let n: usize = self.digits.len();
        if self.digits[z] != '1' {
            return false;
        }
        let mut i: usize = z + 1;
        while i < self.digits.len()
            invariant
                z < i <= self.digits@.len(),
                rest == self.digits@.subrange(z as int, self.digits@.len() as int),
                forall|k: int| 1 <= k < i - z ==> #[trigger] rest[k] == '0',
            decreases self.digits@.len() - i,
        {
            if self.digits[i] != '0' {
                assert(rest[i - z] != '0');
                return false;
            }
            i = i + 1;
        }
        true
    }

    /// That many percent of `len`, rounded up; the number is at most 100.
    pub fn percent_of(&self, len: u32, Ghost(d): Ghost<Decimal>) -> (r: u64)
        requires
            self.is(d),
            d.upto_power(2),
        ensures
            r == d.percent_of(len as int),
    {
        let z: usize = self.leading_zeros();
        let n: usize = self.digits.len();
        let ghost m = d.mantissa();
        let ghost rest = d.digits.subrange(z as int, n as int);
        proof {
            lemma_leading_zeros(d.digits, z as int, n as int);
            lemma_nat_bound(d.digits, n as int);
            assert(m == nat_upto(rest, n - z));
        }
        if z == n || len == 0 {
            proof {
                lemma_no_percent(d, len as int);
            }
            return 0;
        }
        proof {
            assert forall|i: int| 0 <= i < rest.len() implies is_digit(#[trigger] rest[i]) by {
                assert(is_digit(d.digits[z + i]));
            }
            lemma_nat_leading(rest, n - z);
            lemma_nat_bound(rest, n - z);
            lemma_pow_positive(10, (n - z - 1) as nat);
            assert(m >= 1);
            lemma_power_bound(d);
        }
        let k: usize = n - z;
        if self.huge {
            // Far below one hundredth of one item.
            proof {
                lemma_tiny(d, len as int, k as int);
            }
            return 1;
        }
        if self.power >= 0 {
            // 1 to 100 as a whole number.
            proof {
                lemma_small_power(d);
            }
            let v: u64 = self.small(z, Ghost(d));
            let ten: u64 = if self.power == 0 {
                1
            } else if self.power == 1 {
                10
            } else {
                100
            };
            assert(v * ten <= 100);
            let x: u64 = v * ten;
            proof {
                let (a, b) = (x as int, len as int);
                assert(0 <= a * b <= 100 * b) by (nonlinear_arith)
                    requires
                        0 <= a <= 100,
                        0 <= b,
                ;
            }
            return (x * len as u64 + 99) / 100;
        }
        let places: i64 = -self.power;
        if places > 0x8000_0000 {
            proof {
                lemma_tiny(d, len as int, k as int);
            }
            return 1;
        }
        self.scaled(len, places, Ghost(d))
    }

    /// The digits from `z` on as a number, which is at most 100.
    fn small(&self, z: usize, Ghost(d): Ghost<Decimal>) -> (r: u64)
        requires
            self.is(d),
            z <= self.digits@.len(),
            forall|i: int| 0 <= i < z ==> #[trigger] self.digits@[i] == '0',
            d.mantissa() <= 100,
        ensures
            r == d.mantissa(),
    {
        let n: usize = self.digits.len();
        let mut v: u64 = 0;
        let mut i: usize = z;
        proof {
            lemma_leading_zeros(d.digits, z as int, n as int);
        }
        while i < n
            invariant
                self.is(d),
                n == self.digits@.len(),
                z <= i <= n,
                v == nat_upto(d.digits, i as int),
                d.mantissa() <= 100,
            decreases n - i,
        {
            proof {
                lemma_nat_grows(d.digits, i as int, n as int);
                lemma_nat_grows(d.digits, i + 1, n as int);
                assert(is_digit(d.digits[i as int]));
            }
            v = v * 10 + (self.digits[i] as u32 - 48) as u64;
            i = i + 1;
        }
        v
    }

    /// `percent_of` with `places` digits behind the point: the digits are
    /// multiplied from the last one on, keeping what lies before the point
    /// and whether anything lies behind.
    fn scaled(&self, len: u32, places: i64, Ghost(d): Ghost<Decimal>) -> (r: u64)
        requires
            self.is(d),
            !self.huge,
            d.upto_power(2),
            d.mantissa() >= 1,
            places == -d.power,
            0 < places <= 0x8000_0000,
        ensures
            r == d.percent_of(len as int),
    {
        let n: usize = self.digits.len();
        let ghost l = len as int;
        let ghost ds = d.digits;
        let mut q: u64 = 0;
        let mut more: bool = false;
        let ghost mut r0: int = 0;
        let mut p: i64 = 0;
        proof {
            lemma_pow0(10);
            assert(tail(ds, n as int, 0) == 0);
        }
        while p < places
            invariant
                n == ds.len(),
                self.is(d),
                ds == self.digits@,
                all_digits(ds),
                l == len,
                0 <= p <= places <= 0x8000_0000,
                tail(ds, n as int, p as int) * l == q * pow(10, p as nat) + r0,
                0 <= r0 < pow(10, p as nat),
                more == (r0 != 0),
                q <= l,
            decreases places - p,
        {
            let digit: u64 = if (p as u64) < n as u64 {
                let i: usize = n - 1 - p as usize;
                proof {
                    assert(is_digit(ds[i as int]));
                }
                (self.digits[i] as u32 - 48) as u64
            } else {
                0
            };
            proof {
                lemma_pow_adds(10, p as nat, 1);
                lemma_pow1(10);
                lemma_pow_positive(10, p as nat);
                let pw = pow(10, p as nat);
                assert(digit * l <= 9 * l) by (nonlinear_arith)
                    requires
                        0 <= digit <= 9,
                        0 <= l,
                ;
                let s = digit * l + q;
                let (q2, m2) = (s / 10, s % 10);
                lemma_scale(tail(ds, n as int, p as int), digit as int, l, q as int, r0, pw, q2, m2);
                assert(tail(ds, n as int, p + 1) == digit * pw + tail(ds, n as int, p as int));
                r0 = m2 * pw + r0;
                assert(pow(10, (p + 1) as nat) == 10 * pw);
                assert(m2 == 0 ==> m2 * pw == 0) by (nonlinear_arith);
                assert(m2 > 0 ==> m2 * pw > 0) by (nonlinear_arith)
                    requires
                        pw > 0,
                ;
            }
            let s: u64 = digit * len as u64 + q;
            more = more || s % 10 != 0;
            q = s / 10;
            p = p + 1;
        }
        // What stands before the point.
        let mut whole: u64 = 0;
        let head: usize = if (places as u64) < n as u64 {
            n - places as usize
        } else {
            0
        };
        let ghost pw = pow(10, places as nat);
        proof {
            lemma_split(ds, n as int, places as int);
            lemma_pow_adds(10, 2, places as nat);
            lemma_pow_positive(10, places as nat);
            lemma_pow1(10);
            lemma_pow_adds(10, 1, 1);
            let h = nat_upto(ds, head as int);
            let t = tail(ds, n as int, places as int);
            lemma_nat_bound(ds, head as int);
            lemma_tail_nonneg(ds, n as int, places as int);
            assert(h <= 100) by (nonlinear_arith)
                requires
                    h * pw + t <= 100 * pw,
                    pw > 0,
                    t >= 0,
            ;
        }
        let mut i: usize = 0;
        while i < head
            invariant
                n == ds.len(),
                self.is(d),
                ds == self.digits@,
                all_digits(ds),
                i <= head <= n,
                whole == nat_upto(ds, i as int),
                nat_upto(ds, head as int) <= 100,
            decreases head - i,
        {
            proof {
                lemma_nat_grows(ds, i as int, head as int);
                lemma_nat_grows(ds, i + 1, head as int);
                assert(is_digit(ds[i as int]));
            }
            whole = whole * 10 + (self.digits[i] as u32 - 48) as u64;
            i = i + 1;
        }
        proof {
            let h = whole as int;
            assert(h * l <= 100 * l) by (nonlinear_arith)
                requires
                    0 <= h <= 100,
                    0 <= l,
            ;
            let t = tail(ds, n as int, places as int);
            let a = h * l + q;
            assert((h * pw + t) * l == a * pw + r0) by (nonlinear_arith)
                requires
                    t * l == q * pw + r0,
                    a == h * l + q,
            ;
            lemma_round_up(a, r0, pw, d.mantissa() * l);
        }
        let a: u64 = whole * len as u64 + q;
        (a + if more { 1 } else { 0 } + 99) / 100
    }
}

/// The number that the last `p` of the first `n` digits write (zeros, past
/// the front).
spec fn tail(s: Seq<char>, n: int, p: int) -> int
    decreases p,
{
    if p <= 0 {
        0
    } else {
        (if p <= n { digit_of(s[n - p]) } else { 0 }) * pow(10, (p - 1) as nat) + tail(s, n, p - 1)
    }
}

proof fn lemma_tail_nonneg(s: Seq<char>, n: int, p: int)
    requires
        all_digits(s),
        0 <= n <= s.len(),
    ensures
        tail(s, n, p) >= 0,
    decreases p,
{
    if p > 0 {
        lemma_tail_nonneg(s, n, p - 1);
        lemma_pow_positive(10, (p - 1) as nat);
        if p <= n {
            assert(is_digit(s[n - p]));
            let (a, b) = (digit_of(s[n - p]), pow(10, (p - 1) as nat));
            assert(a * b >= 0) by (nonlinear_arith)
                requires
                    a >= 0,
                    b >= 0,
            ;
        } else {
            assert(0 * pow(10, (p - 1) as nat) == 0) by (nonlinear_arith);
        }
    }
}

/// A number is what stands before a place times its power of ten, and what
/// stands behind it.
proof fn lemma_split(s: Seq<char>, n: int, p: int)
    requires
        0 <= n <= s.len(),
        0 <= p,
    ensures
        nat_upto(s, n) == nat_upto(s, if p < n { n - p } else { 0 }) * pow(10, p as nat) + tail(s, n, p),
    decreases p,
{
    lemma_pow0(10);
    if p > 0 {
        lemma_split(s, n, p - 1);
        lemma_pow_adds(10, (p - 1) as nat, 1);
        lemma_pow1(10);
        let pw = pow(10, (p - 1) as nat);
        if p <= n {
            let (h, c) = (nat_upto(s, n - p), digit_of(s[n - p]));
            assert(nat_upto(s, n - (p - 1)) == 10 * h + c);
            assert((10 * h + c) * pw == h * (10 * pw) + c * pw) by (nonlinear_arith);
        } else {
            assert(0 * pw == 0) by (nonlinear_arith);
            assert(0 * (10 * pw) == 0) by (nonlinear_arith);
        }
    } else {
        assert(nat_upto(s, n) * 1 == nat_upto(s, n));
    }
}

proof fn lemma_scale(t: int, digit: int, l: int, q: int, r: int, pw: int, q2: int, m2: int)
    requires
        t * l == q * pw + r,
        0 <= r < pw,
        digit * l + q == q2 * 10 + m2,
        0 <= m2 < 10,
    ensures
        (digit * pw + t) * l == q2 * (10 * pw) + (m2 * pw + r),
        0 <= m2 * pw + r < 10 * pw,
{
    assert((digit * pw + t) * l == (digit * l + q) * pw + r) by (nonlinear_arith)
        requires
            t * l == q * pw + r,
    ;
    assert((q2 * 10 + m2) * pw == q2 * (10 * pw) + m2 * pw) by (nonlinear_arith);
    assert(0 <= m2 * pw + r < 10 * pw) by (nonlinear_arith)
        requires
            0 <= m2 <= 9,
            0 <= r < pw,
    ;
}

/// Rounding up in two steps.
proof fn lemma_round_up(a: int, r: int, pw: int, x: int)
    requires
        x == a * pw + r,
        0 <= r < pw,
        0 <= a,
    ensures
        (x + 100 * pw - 1) / (100 * pw) == (a + (if r != 0 { 1int } else { 0 }) + 99) / 100,
{
    let b = a + if r != 0 { 1int } else { 0 };
    let c = (b + 99) / 100;
    let w = 100 * pw;
    // c is the least number with 100 c >= b.
    assert(100 * c >= b && 100 * c < b + 100);
    assert(x <= c * w) by (nonlinear_arith)
        requires
            x == a * pw + r,
            0 <= r < pw,
            100 * c >= a + (if r != 0 { 1int } else { 0 }),
            w == 100 * pw,
    ;
    assert((c - 1) * w < x || c == 0) by (nonlinear_arith)
        requires
            x == a * pw + r,
            0 <= r < pw,
            100 * c < a + (if r != 0 { 1int } else { 0 }) + 100,
            w == 100 * pw,
            pw > 0,
    ;
    assert(w > 0 && x >= 0) by (nonlinear_arith)
        requires
            w == 100 * pw,
            pw > 0,
            x == a * pw + r,
            0 <= a,
            0 <= r,
    ;
    assert(c * w <= x + w - 1 < (c + 1) * w) by {
        if c == 0 {
            assert(x <= 0);
        }
        assert((c - 1) * w == c * w - w) by (nonlinear_arith);
        assert((c + 1) * w == c * w + w) by (nonlinear_arith);
    }
    vstd::arithmetic::div_mod::lemma_fundamental_div_mod_converse(x + w - 1, w, c, x + w - 1 - c * w);
}

proof fn lemma_no_percent(d: Decimal, len: int)
    requires
        d.mantissa() == 0 || len == 0,
        0 <= d.mantissa(),
    ensures
        d.percent_of(len) == 0,
{
    let m = d.mantissa();
    if d.power >= 0 {
        let p = pow(10, d.power as nat);
        assert(m * p * len == 0) by (nonlinear_arith)
            requires
                m == 0 || len == 0,
        ;
    } else {
        let whole = 100 * pow(10, (-d.power) as nat);
        lemma_pow_positive(10, (-d.power) as nat);
        assert(m * len == 0) by (nonlinear_arith)
            requires
                m == 0 || len == 0,
        ;
        vstd::arithmetic::div_mod::lemma_fundamental_div_mod_converse(whole - 1, whole, 0, whole - 1);
    }
}

/// A number up to 100 that is not zero has no larger power of ten.
proof fn lemma_power_bound(d: Decimal)
    requires
        d.upto_power(2),
        d.mantissa() >= 1,
    ensures
        d.power <= 2,
{
    if d.power > 2 {
        let e = (d.power - 2) as nat;
        lemma_pow_increases(10, 1, e);
        lemma_pow1(10);
        let (m, p) = (d.mantissa(), pow(10, e));
        assert(m * p >= 10) by (nonlinear_arith)
            requires
                m >= 1,
                p >= 10,
        ;
    }
}

proof fn lemma_small_power(d: Decimal)
    requires
        d.upto_power(2),
        d.mantissa() >= 1,
        0 <= d.power <= 2,
    ensures
        d.mantissa() * pow(10, d.power as nat) <= 100,
        d.mantissa() <= 100,
        pow(10, d.power as nat) == if d.power == 0 { 1int } else if d.power == 1 { 10 } else { 100 },
{
    lemma_pow0(10);
    lemma_pow1(10);
    lemma_pow_adds(10, 1, 1);
    let m = d.mantissa();
    if d.power == 2 {
        assert(m * 1 <= 1);
    }
}

proof fn lemma_ten_digits()
    ensures
        pow(10, 10) == 10_000_000_000,
{
    lemma_pow1(10);
    lemma_pow_adds(10, 1, 1);
    assert(pow(10, 2) == 100);
    lemma_pow_adds(10, 2, 2);
    assert(pow(10, 4) == 10_000);
    lemma_pow_adds(10, 4, 4);
    assert(pow(10, 8) == 100_000_000);
    lemma_pow_adds(10, 8, 2);
}

/// Less than one hundredth of one item is rounded up to one.
proof fn lemma_tiny(d: Decimal, len: int, k: int)
    requires
        1 <= d.mantissa() < pow(10, k as nat),
        1 <= k <= 0x4000_0000,
        1 <= len <= u32::MAX,
        d.power < -0x8000_0000,
    ensures
        d.percent_of(len) == 1,
{
    let m = d.mantissa();
    let pw = pow(10, (-d.power) as nat);
    let whole = 100 * pw;
    lemma_pow_increases(10, (k + 10) as nat, (-d.power) as nat);
    lemma_pow_adds(10, k as nat, 10);
    lemma_ten_digits();
    let pk = pow(10, k as nat);
    assert(m * len <= pk * 10_000_000_000) by (nonlinear_arith)
        requires
            1 <= m < pk,
            1 <= len <= 10_000_000_000,
    ;
    assert(m * len >= 1) by (nonlinear_arith)
        requires
            1 <= m,
            1 <= len,
    ;
    vstd::arithmetic::div_mod::lemma_fundamental_div_mod_converse(m * len + whole - 1, whole, 1, m * len - 1);
}

} // verus!
