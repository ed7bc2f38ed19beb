use vstd::arithmetic::div_mod::{
    lemma_mod_add_multiples_vanish, lemma_mod_multiples_vanish, lemma_small_mod,
};
use vstd::arithmetic::power2::{lemma_pow2_pos, lemma_pow2_strictly_increases, pow2};
use vstd::bits::{
    lemma_u64_low_bits_mask_is_mod, lemma_u64_pow2_no_overflow, lemma_u64_shl_is_mul,
    lemma_u64_shr_is_div, low_bits_mask,
};
use std::num::ParseIntError;
use vstd::prelude::*;

verus! {

/// The number of distinct values of an `n`-bit word, `2^n`.
pub open spec fn modulus(n: u32) -> int {
    pow2(n as nat) as int
}

/// An `N`-bit two's-complement word held in a `u32`, always reduced to its low `N` bits.
///
/// Equality, ordering and hashing all go by the unsigned magnitude.
#[derive(Clone, Copy, Debug, Hash)]
pub struct BV<const N: u32>(u32);

impl<const N: u32> View for BV<N> {
    type V = int;

    /// The unsigned magnitude of the word.
    closed spec fn view(&self) -> int {
        self.0 as int
    }
}

pub(crate) proof fn lemma_modulus_bounds(n: u32)
    requires
        1 <= n <= 32,
    ensures
        2 <= modulus(n) <= 0x1_0000_0000,
        modulus(n) == 2 * modulus((n - 1) as u32),
{
    lemma_pow2_pos(n as nat);
    vstd::arithmetic::power2::lemma_pow2_unfold(n as nat);
    if n < 32 {
        lemma_pow2_strictly_increases(n as nat, 32);
    }
    vstd::arithmetic::power2::lemma2_to64();
    assert(pow2(1) == 2);
    if n > 1 {
        lemma_pow2_strictly_increases(1, n as nat);
    }
}

/// The low `n` bits of `x` are `x` modulo `2^n`.
proof fn lemma_and_mask(x: u64, n: u32)
    requires
        1 <= n <= 32,
    ensures
        (1u64 << n) as int == modulus(n),
        (x & (((1u64 << n) - 1) as u64)) as int == x as int % modulus(n),
{
    lemma_modulus_bounds(n);
    lemma_u64_pow2_no_overflow(n as nat);
    lemma_u64_shl_is_mul(1u64, n as u64);
    assert(1u64 << n == 1u64 << (n as u64)) by (bit_vector);
    lemma_u64_low_bits_mask_is_mod(x, n as nat);
}

/// The mask with the low `n` bits set.
fn low_mask(n: u32) -> (m: u64)
    requires
        1 <= n <= 32,
    ensures
        m as int == modulus(n) - 1,
        m == (1u64 << n) - 1,
{
    proof {
        lemma_and_mask(0, n);
        lemma_modulus_bounds(n);
    }
    (1u64 << n) - 1
}

impl<const N: u32> BV<N> {
    /// Widths that the type supports.
    pub open spec fn width_ok() -> bool {
        1 <= N <= 32
    }

    /// The stored word has no bit set at or above position `N`.
    pub open spec fn wf(&self) -> bool {
        Self::width_ok() && 0 <= self@ < modulus(N)
    }

    /// The magnitude read as a signed two's-complement number.
    pub open spec fn signed(&self) -> int {
        if self@ < modulus(N) / 2 {
            self@
        } else {
            self@ - modulus(N)
        }
    }

    /// Reduces `x` to its low `N` bits.
    fn reduce(x: u64) -> (r: Self)
        requires
            Self::width_ok(),
        ensures
            r.wf(),
            r@ == x as int % modulus(N),
    {
        let m = low_mask(N);
        proof {
            lemma_and_mask(x, N);
            lemma_modulus_bounds(N);
        }
        BV((x & m) as u32)
    }

    /// Builds the word from the low `N` bits of `n`.
    pub fn new(n: u32) -> (r: Self)
        requires
            Self::width_ok(),
        ensures
            r.wf(),
            r@ == n as int % modulus(N),
    {
        Self::reduce(n as u64)
    }

    /// The unsigned magnitude.
    pub fn value(&self) -> (r: u32)
        ensures
            r as int == self@,
    {
        self.0
    }

    /// The word with no bit set.
    pub fn zero() -> (r: Self)
        requires
            Self::width_ok(),
        ensures
            r.wf(),
            r@ == 0,
    {
        proof {
            lemma_modulus_bounds(N);
        }
        BV(0)
    }

    /// The word one.
    pub fn one() -> (r: Self)
        requires
            Self::width_ok(),
        ensures
            r.wf(),
            r@ == 1,
    {
        proof {
            lemma_modulus_bounds(N);
        }
        BV(1)
    }

    /// Every one of the `N` bits set.
    pub fn all_ones() -> (r: Self)
        requires
            Self::width_ok(),
        ensures
            r.wf(),
            r@ == modulus(N) - 1,
    {
        proof {
            lemma_modulus_bounds(N);
        }
        BV(low_mask(N) as u32)
    }

    /// Minus one, the same bits as `all_ones`.
    pub fn neg_one() -> (r: Self)
        requires
            Self::width_ok(),
        ensures
            r.wf(),
            r@ == modulus(N) - 1,
            r.signed() == -1,
    {
        proof {
            lemma_modulus_bounds(N);
        }
        Self::all_ones()
    }

    /// The most negative signed value, `2^(N-1)`.
    pub fn min_value() -> (r: Self)
        requires
            Self::width_ok(),
        ensures
            r.wf(),
            r@ == modulus(N) / 2,
            r.signed() == -(modulus(N) / 2),
    {
        proof {
            lemma_modulus_bounds(N);
            if N > 1 {
                lemma_and_mask(0, (N - 1) as u32);
            } else {
                assert(1u64 << 0u32 == 1) by (bit_vector);
                vstd::arithmetic::power2::lemma2_to64();
            }
        }
        if N == 1 {
            BV(1)
        } else {
            BV((1u64 << (N - 1)) as u32)
        }
    }

    /// The most positive signed value, `2^(N-1) - 1`.
    pub fn max_value() -> (r: Self)
        requires
            Self::width_ok(),
        ensures
            r.wf(),
            r@ == modulus(N) / 2 - 1,
            r.signed() == modulus(N) / 2 - 1,
    {
        let m = low_mask(N);
        proof {
            lemma_modulus_bounds(N);
            lemma_u64_shr_is_div(m, 1);
            vstd::arithmetic::power2::lemma2_to64();
        }
        BV((m >> 1u64) as u32)
    }

    /// Sum modulo `2^N`.
    pub fn wrapping_add(self, rhs: Self) -> (r: Self)
        requires
            self.wf(),
            rhs.wf(),
        ensures
            r.wf(),
            r@ == (self@ + rhs@) % modulus(N),
    {
        Self::reduce(self.0 as u64 + rhs.0 as u64)
    }

    /// Difference modulo `2^N`.
    pub fn wrapping_sub(self, rhs: Self) -> (r: Self)
        requires
            self.wf(),
            rhs.wf(),
        ensures
            r.wf(),
            r@ == (self@ - rhs@) % modulus(N),
    {
        let m = low_mask(N);
        proof {
            lemma_modulus_bounds(N);
            lemma_mod_add_multiples_vanish(self@ - rhs@, modulus(N));
        }
        Self::reduce(self.0 as u64 + (m - rhs.0 as u64) + 1)
    }

    /// Product modulo `2^N`.
    pub fn wrapping_mul(self, rhs: Self) -> (r: Self)
        requires
            self.wf(),
            rhs.wf(),
        ensures
            r.wf(),
            r@ == (self@ * rhs@) % modulus(N),
    {
        let a = self.0 as u64;
        let b = rhs.0 as u64;
        assert(a * b <= 0xffff_ffff_ffff_ffff) by (nonlinear_arith)
            requires
                a <= 0xffff_ffff,
                b <= 0xffff_ffff,
        ;
        Self::reduce(a * b)
    }

    /// Two's-complement negation modulo `2^N`.
    pub fn wrapping_neg(self) -> (r: Self)
        requires
            self.wf(),
        ensures
            r.wf(),
            r@ == (-self@) % modulus(N),
    {
        let m = low_mask(N);
        proof {
            lemma_modulus_bounds(N);
            lemma_mod_add_multiples_vanish(-self@, modulus(N));
        }
        Self::reduce((m - self.0 as u64) + 1)
    }

    /// Shifts left by `rhs`; an amount of `N` or more gives zero.
    pub fn my_shl(self, rhs: Self) -> (r: Self)
        requires
            self.wf(),
            rhs.wf(),
        ensures
            r.wf(),
            rhs@ >= N ==> r@ == 0,
            rhs@ < N ==> r@ == (self@ * pow2(rhs@ as nat)) % modulus(N),
    {
        if rhs.0 >= N {
            Self::zero()
        } else {
            let a = self.0 as u64;
            let s = rhs.0 as u64;
            proof {
                lemma_modulus_bounds(N);
                lemma_pow2_strictly_increases(s as nat, 32);
                vstd::arithmetic::power2::lemma2_to64();
                assert(a * pow2(s as nat) <= 0xffff_ffff_ffff_ffff) by (nonlinear_arith)
                    requires
                        a <= 0xffff_ffff,
                        pow2(s as nat) <= 0x1_0000_0000,
                ;
                lemma_u64_shl_is_mul(a, s);
            }
            Self::reduce(a << s)
        }
    }

    /// Shifts right, filling with zeros, by `rhs`; an amount of `N` or more gives zero.
    pub fn my_shr(self, rhs: Self) -> (r: Self)
        requires
            self.wf(),
            rhs.wf(),
        ensures
            r.wf(),
            rhs@ >= N ==> r@ == 0,
            rhs@ < N ==> r@ == self@ / (pow2(rhs@ as nat) as int),
    {
        if rhs.0 >= N {
            Self::zero()
        } else {
            let a = self.0 as u64;
            let s = rhs.0 as u64;
            proof {
                lemma_modulus_bounds(N);
                lemma_u64_shr_is_div(a, s);
                lemma_pow2_pos(s as nat);
                assert(a as int / (pow2(s as nat) as int) <= a) by (nonlinear_arith)
                    requires
                        pow2(s as nat) > 0,
                ;
                lemma_small_mod((a as int / (pow2(s as nat) as int)) as nat, modulus(N) as nat);
            }
            Self::reduce(a >> s)
        }
    }

    /// Flips each of the `N` bits.
    pub fn not(self) -> (r: Self)
        requires
            self.wf(),
        ensures
            r.wf(),
            r@ == modulus(N) - 1 - self@,
    {
        let a = self.0;
        proof {
            lemma_and_mask(!a as u64, N);
            lemma_modulus_bounds(N);
            lemma_not_under_mask(a, N);
        }
        Self::new(!a)
    }

    /// Bitwise and.
    pub fn bitand(self, rhs: Self) -> (r: Self)
        requires
            self.wf(),
            rhs.wf(),
        ensures
            r.wf(),
            r@ == ((self@ as u32) & (rhs@ as u32)) as int,
    {
        proof {
            lemma_bitwise_fit(self.0, rhs.0, N);
            lemma_small_mod((self.0 & rhs.0) as nat, modulus(N) as nat);
        }
        Self::new(self.0 & rhs.0)
    }

    /// Bitwise or.
    pub fn bitor(self, rhs: Self) -> (r: Self)
        requires
            self.wf(),
            rhs.wf(),
        ensures
            r.wf(),
            r@ == ((self@ as u32) | (rhs@ as u32)) as int,
    {
        proof {
            lemma_bitwise_fit(self.0, rhs.0, N);
            lemma_small_mod((self.0 | rhs.0) as nat, modulus(N) as nat);
        }
        Self::new(self.0 | rhs.0)
    }

    /// Bitwise exclusive or.
    pub fn bitxor(self, rhs: Self) -> (r: Self)
        requires
            self.wf(),
            rhs.wf(),
        ensures
            r.wf(),
            r@ == ((self@ as u32) ^ (rhs@ as u32)) as int,
    {
        proof {
            lemma_bitwise_fit(self.0, rhs.0, N);
            lemma_small_mod((self.0 ^ rhs.0) as nat, modulus(N) as nat);
        }
        Self::new(self.0 ^ rhs.0)
    }

    /// Reads a decimal numeral and keeps its low `N` bits.
    pub fn parse_decimal(s: &str) -> (r: Result<Self, ParseIntError>)
        requires
            Self::width_ok(),
        ensures
            r is Ok <==> u32_from_text(s@) is Some,
            r is Ok ==> r->Ok_0.wf() && r->Ok_0@ == u32_from_text(s@)->Some_0 as int % modulus(N),
    {
        match parse_u32(s) {
            Ok(x) => Ok(Self::new(x)),
            Err(e) => Err(e),
        }
    }

    /// A word whose `N` bits are drawn uniformly at random.
    pub fn sample() -> (r: Self)
        requires
            Self::width_ok(),
        ensures
            r.wf(),
    {
        Self::new(random_u32())
    }

    /// The magnitude as decimal digits.
    pub fn to_chars(&self) -> (r: Vec<char>)
        ensures
            r@ == decimal(self@ as nat),
    {
        decimal_chars(self.0)
    }
}

impl<const N: u32> PartialEq for BV<N> {
    fn eq(&self, o: &Self) -> (r: bool) {
        self.0 == o.0
    }
}

impl<const N: u32> vstd::std_specs::cmp::PartialEqSpecImpl for BV<N> {
    open spec fn obeys_eq_spec() -> bool {
        true
    }

    open spec fn eq_spec(&self, o: &Self) -> bool {
        self@ == o@
    }
}

impl<const N: u32> Eq for BV<N> {
}

impl<const N: u32> PartialOrd for BV<N> {
    fn partial_cmp(&self, o: &Self) -> (r: Option<core::cmp::Ordering>) {
        if self.0 < o.0 {
            Some(core::cmp::Ordering::Less)
        } else if self.0 == o.0 {
            Some(core::cmp::Ordering::Equal)
        } else {
            Some(core::cmp::Ordering::Greater)
        }
    }
}

impl<const N: u32> vstd::std_specs::cmp::PartialOrdSpecImpl for BV<N> {
    open spec fn obeys_partial_cmp_spec() -> bool {
        true
    }

    open spec fn partial_cmp_spec(&self, o: &Self) -> Option<core::cmp::Ordering> {
        if self@ < o@ {
            Some(core::cmp::Ordering::Less)
        } else if self@ == o@ {
            Some(core::cmp::Ordering::Equal)
        } else {
            Some(core::cmp::Ordering::Greater)
        }
    }
}

proof fn lemma_not_under_mask(a: u32, n: u32)
    requires
        1 <= n <= 32,
        (a as u64) <= (1u64 << n) - 1,
    ensures
        ((!a) as u64) & (((1u64 << n) - 1) as u64) == ((1u64 << n) - 1) - a,
{
    assert(((!a) as u64) & (((1u64 << n) - 1) as u64) == ((1u64 << n) - 1) - a) by (bit_vector)
        requires
            1 <= n <= 32,
            (a as u64) <= (1u64 << n) - 1,
    ;
}

pub(crate) proof fn lemma_bitwise_fit(a: u32, b: u32, n: u32)
    requires
        1 <= n <= 32,
        (a as int) < modulus(n),
        (b as int) < modulus(n),
    ensures
        ((a & b) as int) < modulus(n),
        ((a | b) as int) < modulus(n),
        ((a ^ b) as int) < modulus(n),
{
    lemma_and_mask(0, n);
    assert(((a & b) as u64) < (1u64 << n) && ((a | b) as u64) < (1u64 << n) && ((a ^ b) as u64) < (1u64 << n)) by (bit_vector)
        requires
            1 <= n <= 32,
            (a as u64) < (1u64 << n),
            (b as u64) < (1u64 << n),
    ;
}

/// The decimal digits of `n`, most significant first, with no leading zero.
pub open spec fn decimal(n: nat) -> Seq<char>
    decreases n,
{
    if n < 10 {
        seq![digit_char(n)]
    } else {
        decimal(n / 10).push(digit_char(n % 10))
    }
}

pub open spec fn digit_char(d: nat) -> char {
    ((d + 48) as u8) as char
}

fn decimal_chars(n: u32) -> (r: Vec<char>)
    ensures
        r@ == decimal(n as nat),
    decreases n,
{
    let d = ((n % 10) as u8 + 48u8) as char;
    if n < 10 {
        vec![d]
    } else {
        let mut r = decimal_chars(n / 10);
        r.push(d);
        r
    }
}

#[verifier::external_type_specification]
#[verifier::external_body]
pub struct ExParseIntError(std::num::ParseIntError);

/// What `str::parse::<u32>` makes of a text: an optional `+` followed by one or more ASCII
/// digits denotes their value, if it fits in a `u32`; any other text denotes nothing.
pub open spec fn u32_from_text(s: Seq<char>) -> Option<u32> {
    let d = unsigned_digits(s);
    if d.len() > 0 && all_digits(d) && crate::parse::digits_value(d) <= u32::MAX {
        Some(crate::parse::digits_value(d) as u32)
    } else {
        None
    }
}

/// `s` without one leading `+`.
pub open spec fn unsigned_digits(s: Seq<char>) -> Seq<char> {
    if s.len() > 0 && s[0] == '+' {
        s.skip(1)
    } else {
        s
    }
}

pub open spec fn all_digits(d: Seq<char>) -> bool {
    forall|k: int| 0 <= k < d.len() ==> crate::parse::is_digit(#[trigger] d[k])
}

/// The decimal text of a word reads back as that word.
pub proof fn lemma_decimal_reads_back(n: u32)
    ensures
        u32_from_text(decimal(n as nat)) == Some(n),
{
    crate::parse::lemma_decimal_digits(n as nat);
    assert(crate::parse::is_digit(decimal(n as nat)[0]));
}

/// Relies on `<u32 as FromStr>::from_str`, which reads an optional `+` and decimal digits
/// and fails on anything else or on a value above `u32::MAX`.
#[verifier::external_body]
fn parse_u32(s: &str) -> (r: Result<u32, ParseIntError>)
    ensures
        r is Ok <==> u32_from_text(s@) is Some,
        r is Ok ==> r->Ok_0 == u32_from_text(s@)->Some_0,
{
    s.parse::<u32>()
}

/// Relies on `rand::random::<u32>`, a word from the thread's generator.
#[verifier::external_body]
fn random_u32() -> (r: u32) {
    rand::random::<u32>()
}

/// The extreme words of an `n`-bit type: `all_ones` is the `n`-bit mask, the most negative
/// value is its own negation, and the most positive value plus one wraps to the most negative.
pub proof fn lemma_extremes(n: u32)
    requires
        1 <= n <= 32,
    ensures
        modulus(n) - 1 == low_bits_mask(n as nat),
        (-(modulus(n) / 2)) % modulus(n) == modulus(n) / 2,
        ((modulus(n) / 2 - 1) + 1) % modulus(n) == modulus(n) / 2,
{
    let m = modulus(n);
    lemma_modulus_bounds(n);
    lemma_mod_add_multiples_vanish(-(m / 2), m);
    assert(m + -(m / 2) == m / 2);
    lemma_small_mod((m / 2) as nat, m as nat);
}

/// Negating minus one gives one, at every width.
pub proof fn lemma_neg_of_neg_one(n: u32)
    requires
        1 <= n <= 32,
    ensures
        (-(modulus(n) - 1)) % modulus(n) == 1,
{
    let m = modulus(n);
    lemma_modulus_bounds(n);
    lemma_mod_add_multiples_vanish(-(m - 1), m);
    lemma_small_mod(1, m as nat);
}

/// The most negative value times minus one is the most negative value again.
pub proof fn lemma_min_times_neg_one(n: u32)
    requires
        1 <= n <= 32,
    ensures
        ((modulus(n) / 2) * (modulus(n) - 1)) % modulus(n) == modulus(n) / 2,
{
    let m = modulus(n);
    let h = m / 2;
    lemma_modulus_bounds(n);
    assert(h * (m - 1) == m * (h - 1) + h) by (nonlinear_arith)
        requires
            m == 2 * h,
    ;
    lemma_mod_multiples_vanish(h - 1, h, m);
    lemma_small_mod(h as nat, m as nat);
}

} // verus!
