//! Arithmetic on [`U256`]: comparison, multiplication and division by a
//! machine word, and conversion from and to bytes and decimal text.

use vstd::prelude::*;
use crate::U256;

verus! {

/// `2^64`, the radix of the limbs.
pub open spec fn pow2_64() -> nat {
    0x1_0000_0000_0000_0000
}

/// `2^128`.
pub open spec fn pow2_128() -> nat {
    0x1_0000_0000_0000_0000_0000_0000_0000_0000nat
}

/// `2^192`.
pub open spec fn pow2_192() -> nat {
    0x1_0000_0000_0000_0000_0000_0000_0000_0000_0000_0000_0000_0000nat
}

/// `2^256`, one more than the largest value.
pub open spec fn pow2_256() -> nat {
    0x1_0000_0000_0000_0000_0000_0000_0000_0000_0000_0000_0000_0000_0000_0000_0000_0000nat
}

const RADIX: u128 = 0x1_0000_0000_0000_0000;

/// `256^n`.
pub open spec fn pow256(n: nat) -> nat
    decreases n,
{
    if n == 0 {
        1
    } else {
        256 * pow256((n - 1) as nat)
    }
}

/// The number that a string of bytes stands for, most significant byte first.
pub open spec fn be_value(s: Seq<u8>) -> nat
    decreases s.len(),
{
    if s.len() == 0 {
        0
    } else {
        be_value(s.drop_last()) * 256 + s.last() as nat
    }
}

/// The `len` low bytes of `n`, least significant byte first.
pub open spec fn le_bytes(n: nat, len: nat) -> Seq<u8>
    decreases len,
{
    if len == 0 {
        Seq::empty()
    } else {
        seq![(n % 256) as u8] + le_bytes(n / 256, (len - 1) as nat)
    }
}

/// The character of a decimal digit.
pub open spec fn digit_char(d: nat) -> char {
    (d + 48) as char
}

/// Whether the character is one of `0` to `9`.
pub open spec fn is_digit(c: char) -> bool {
    48 <= c as nat <= 57
}

/// The digit that a character between `0` and `9` stands for.
pub open spec fn digit_value(c: char) -> nat {
    if c as nat >= 48 {
        (c as nat - 48) as nat
    } else {
        0
    }
}

/// Whether the text is made of decimal digits alone.
pub open spec fn is_dec_text(s: Seq<char>) -> bool {
    forall|i: int| 0 <= i < s.len() ==> is_digit(#[trigger] s[i])
}

/// The decimal numeral of `n`, without leading zeros.
pub open spec fn dec_text(n: nat) -> Seq<char>
    decreases n,
{
    if n < 10 {
        seq![digit_char(n)]
    } else {
        dec_text(n / 10).push(digit_char(n % 10))
    }
}

/// The number that a decimal numeral stands for; the empty text stands for 0.
pub open spec fn dec_value(s: Seq<char>) -> nat
    decreases s.len(),
{
    if s.len() == 0 {
        0
    } else {
        dec_value(s.drop_last()) * 10 + digit_value(s.last())
    }
}

/// The character of a hexadecimal digit, in lower case.
pub open spec fn hex_digit_char(d: nat) -> char {
    if d < 10 {
        (d + 48) as char
    } else {
        (d + 87) as char
    }
}

/// The hexadecimal numeral of `n`, in lower case and without leading zeros.
pub open spec fn hex_text(n: nat) -> Seq<char>
    decreases n,
{
    if n < 16 {
        seq![hex_digit_char(n)]
    } else {
        hex_text(n / 16).push(hex_digit_char(n % 16))
    }
}

/// Hexadecimal digits stored least significant first, read as text.
pub open spec fn rev_hex_digits(d: Seq<u64>) -> Seq<char> {
    Seq::new(d.len(), |k: int| hex_digit_char(d[d.len() - 1 - k] as nat))
}

/// The number of bits needed to write `n`: 0 for 0, else the position of
/// the highest set bit, counted from 1.
pub open spec fn bit_length(n: nat) -> nat
    decreases n,
{
    if n == 0 {
        0
    } else {
        1 + bit_length(n / 2)
    }
}

/// Digits stored least significant first, read as text.
pub open spec fn rev_digits(d: Seq<u64>) -> Seq<char> {
    Seq::new(d.len(), |k: int| digit_char(d[d.len() - 1 - k] as nat))
}

proof fn lemma_pow256_32()
    ensures
        pow256(32) == pow2_256(),
{
    reveal_with_fuel(pow256, 9);
    assert(pow256(8) == pow2_64());
    assert(pow256(16) == pow2_128());
    assert(pow256(24) == pow2_192());
}

proof fn lemma_pow256_monotonic(n: nat, m: nat)
    requires
        n <= m,
    ensures
        pow256(n) <= pow256(m),
        pow256(n) >= 1,
    decreases m,
{
    if n < m {
        lemma_pow256_monotonic(n, (m - 1) as nat);
    } else if n > 0 {
        lemma_pow256_monotonic((n - 1) as nat, (m - 1) as nat);
    }
}

/// A string of `n` bytes stands for a number below `256^n`.
pub proof fn lemma_be_value_bound(s: Seq<u8>)
    ensures
        be_value(s) < pow256(s.len()),
    decreases s.len(),
{
    if s.len() > 0 {
        lemma_be_value_bound(s.drop_last());
    }
}

/// A numeral stands for at least as much as each of its prefixes.
pub proof fn lemma_dec_value_prefix(s: Seq<char>, j: int)
    requires
        0 <= j <= s.len(),
    ensures
        dec_value(s.take(j)) <= dec_value(s),
    decreases s.len(),
{
    if j == s.len() {
        assert(s.take(j) =~= s);
    } else {
        lemma_dec_value_prefix(s.drop_last(), j);
        assert(s.drop_last().take(j) =~= s.take(j));
    }
}


proof fn lemma_le_bytes_len(n: nat, len: nat)
    ensures
        le_bytes(n, len).len() == len,
    decreases len,
{
    if len > 0 {
        lemma_le_bytes_len(n / 256, (len - 1) as nat);
    }
}

proof fn lemma_bit_length_shift8(n: nat)
    ensures
        bit_length(n) <= 8 + bit_length(n / 256),
{
    reveal_with_fuel(bit_length, 9);
    assert(n / 2 / 2 / 2 / 2 / 2 / 2 / 2 / 2 == n / 256);
}

/// A number below `256^k` needs at most `8 * k` bits.
proof fn lemma_bit_length_bound(n: nat, k: nat)
    requires
        n < pow256(k),
    ensures
        bit_length(n) <= 8 * k,
    decreases k,
{
    if k > 0 {
        lemma_bit_length_bound(n / 256, (k - 1) as nat);
        lemma_bit_length_shift8(n);
    }
}

fn hex_digit_str(d: u64) -> (s: &'static str)
    requires
        d < 16,
    ensures
        s@ == seq![hex_digit_char(d as nat)],
{
    if d < 10 {
        digit_str(d)
    } else {
        proof {
            reveal_strlit("a");
            reveal_strlit("b");
            reveal_strlit("c");
            reveal_strlit("d");
            reveal_strlit("e");
            reveal_strlit("f");
        }
        let s = if d == 10 {
            "a"
        } else if d == 11 {
            "b"
        } else if d == 12 {
            "c"
        } else if d == 13 {
            "d"
        } else if d == 14 {
            "e"
        } else {
            "f"
        };
        assert(s@ =~= seq![hex_digit_char(d as nat)]);
        s
    }
}

/// Whether the text is made of decimal digits alone.
pub fn is_dec_str(s: &str) -> (r: bool)
    ensures
        r == is_dec_text(s@),
{
    let n: usize = s.unicode_len();
    let mut i: usize = 0;
    while i < n
        invariant
            i <= n,
            n == s@.len(),
            forall|j: int| 0 <= j < i ==> is_digit(#[trigger] s@[j]),
        decreases n - i,
    {
        let code: u32 = s.get_char(i) as u32;
        if code < 48 || code > 57 {
            return false;
        }
        i += 1;
    }
    true
}

/// The decimal numeral of a number is made of digits alone.
pub proof fn lemma_dec_text_is_dec(n: nat)
    ensures
        is_dec_text(dec_text(n)),
        dec_text(n).len() >= 1,
    decreases n,
{
    if n >= 10 {
        lemma_dec_text_is_dec(n / 10);
        let head = dec_text(n / 10);
        let all = dec_text(n);
        assert forall|i: int| 0 <= i < all.len() implies is_digit(#[trigger] all[i]) by {
            if i < head.len() {
                assert(all[i] == head[i]);
            }
        }
    }
}

/// Reading the decimal numeral of a number gives the number back.
pub proof fn lemma_dec_value_of_dec_text(n: nat)
    ensures
        dec_value(dec_text(n)) == n,
    decreases n,
{
    let d = n % 10;
    assert(digit_char(d) as nat == d + 48);
    assert(digit_value(digit_char(d)) == d);
    if n >= 10 {
        lemma_dec_value_of_dec_text(n / 10);
        assert(dec_text(n).drop_last() =~= dec_text(n / 10));
        assert(dec_text(n).last() == digit_char(d));
    } else {
        assert(dec_text(n).drop_last() =~= Seq::<char>::empty());
        assert(dec_text(n).last() == digit_char(d));
        assert(dec_value(Seq::<char>::empty()) == 0);
    }
}

fn digit_str(d: u64) -> (s: &'static str)
    requires
        d < 10,
    ensures
        s@ == seq![digit_char(d as nat)],
{
    proof {
        reveal_strlit("0");
        reveal_strlit("1");
        reveal_strlit("2");
        reveal_strlit("3");
        reveal_strlit("4");
        reveal_strlit("5");
        reveal_strlit("6");
        reveal_strlit("7");
        reveal_strlit("8");
        reveal_strlit("9");
    }
    let s = if d == 0 {
        "0"
    } else if d == 1 {
        "1"
    } else if d == 2 {
        "2"
    } else if d == 3 {
        "3"
    } else if d == 4 {
        "4"
    } else if d == 5 {
        "5"
    } else if d == 6 {
        "6"
    } else if d == 7 {
        "7"
    } else if d == 8 {
        "8"
    } else {
        "9"
    };
    assert(s@ =~= seq![digit_char(d as nat)]);
    s
}

/// One limb of a multiplication: `a * m + carry`, split into a limb and the
/// carry into the next one.
fn mul_step(a: u64, m: u64, carry: u64) -> (r: (u64, u64))
    ensures
        r.0 as nat + (r.1 as nat) * pow2_64() == (a as nat) * (m as nat) + carry as nat,
{
    assert((a as nat) * (m as nat) <= 0xFFFF_FFFF_FFFF_FFFF * 0xFFFF_FFFF_FFFF_FFFF)
        by (nonlinear_arith)
        requires
            a <= 0xFFFF_FFFF_FFFF_FFFF,
            m <= 0xFFFF_FFFF_FFFF_FFFF,
    ;
    let p: u128 = (a as u128) * (m as u128) + (carry as u128);
    ((p % RADIX) as u64, (p / RADIX) as u64)
}

/// One limb of a long division: divides `rem * 2^64 + limb` by `d`.
fn div_step(rem: u64, limb: u64, d: u64) -> (r: (u64, u64))
    requires
        rem < d,
    ensures
        (rem as nat) * pow2_64() + limb as nat == (r.0 as nat) * (d as nat) + r.1 as nat,
        r.1 < d,
{
    let cur: u128 = (rem as u128) * RADIX + (limb as u128);
    let q: u128 = cur / (d as u128);
    let r: u128 = cur % (d as u128);
    proof {
        vstd::arithmetic::div_mod::lemma_fundamental_div_mod(cur as int, d as int);
        assert(q < 0x1_0000_0000_0000_0000) by (nonlinear_arith)
            requires
                cur == d * q + r,
                cur < d * 0x1_0000_0000_0000_0000,
                0 <= r,
                0 < d,
        ;
        assert((d as int) * (q as int) == (q as nat) * (d as nat)) by (nonlinear_arith);
    }
    (q as u64, r as u64)
}

/// One limb of an addition with carry.
fn add_step(a: u64, b: u64, carry: bool) -> (r: (u64, bool))
    ensures
        r.0 as nat + (if r.1 { pow2_64() } else { 0 }) == a as nat + b as nat + (if carry { 1nat } else { 0 }),
{
    let c: u128 = if carry { 1 } else { 0 };
    let s: u128 = (a as u128) + (b as u128) + c;
    ((s % RADIX) as u64, s >= RADIX)
}

impl U256 {
    /// The number that the four limbs stand for.
    pub open spec fn value(self) -> nat {
        self.0 as nat + (self.1 as nat) * pow2_64() + (self.2 as nat) * pow2_128()
            + (self.3 as nat) * pow2_192()
    }

    /// The value whose limbs stand for `n`, for `n` below `2^256`.
    pub open spec fn from_nat(n: nat) -> U256 {
        U256(
            (n % pow2_64()) as u64,
            (n / pow2_64() % pow2_64()) as u64,
            (n / pow2_128() % pow2_64()) as u64,
            (n / pow2_192() % pow2_64()) as u64,
        )
    }

    /// `from_nat` undoes `value`.
    pub proof fn lemma_from_nat_value(self)
        ensures
            U256::from_nat(self.value()) == self,
    {
        let n = self.value() as int;
        let b = pow2_64() as int;
        let h1 = self.1 as int + (self.2 as int) * pow2_64() + (self.3 as int) * pow2_128();
        let h2 = self.2 as int + (self.3 as int) * pow2_64();
        let low2 = self.0 as int + (self.1 as int) * pow2_64();
        let low3 = low2 + (self.2 as int) * pow2_128();
        vstd::arithmetic::div_mod::lemma_fundamental_div_mod_converse(n, b, h1, self.0 as int);
        vstd::arithmetic::div_mod::lemma_fundamental_div_mod_converse(
            n,
            pow2_128() as int,
            h2,
            low2,
        );
        vstd::arithmetic::div_mod::lemma_fundamental_div_mod_converse(
            n,
            pow2_192() as int,
            self.3 as int,
            low3,
        );
        vstd::arithmetic::div_mod::lemma_fundamental_div_mod_converse(
            h1,
            b,
            h2,
            self.1 as int,
        );
        vstd::arithmetic::div_mod::lemma_fundamental_div_mod_converse(
            h2,
            b,
            self.3 as int,
            self.2 as int,
        );
        vstd::arithmetic::div_mod::lemma_fundamental_div_mod_converse(
            self.3 as int,
            b,
            0,
            self.3 as int,
        );
    }

    /// `value` undoes `from_nat` below `2^256`.
    pub proof fn lemma_value_from_nat(n: nat)
        requires
            n < pow2_256(),
        ensures
            U256::from_nat(n).value() == n,
    {
        let b = pow2_64() as int;
        let n = n as int;
        let d1 = n / b;
        let d2 = d1 / b;
        let d3 = d2 / b;
        vstd::arithmetic::div_mod::lemma_fundamental_div_mod(n, b);
        vstd::arithmetic::div_mod::lemma_fundamental_div_mod(d1, b);
        vstd::arithmetic::div_mod::lemma_fundamental_div_mod(d2, b);
        vstd::arithmetic::div_mod::lemma_div_denominator(n, b, b);
        vstd::arithmetic::div_mod::lemma_div_denominator(n, pow2_128() as int, b);
        assert(b * b == pow2_128());
        assert(pow2_128() * b == pow2_192());
        assert(d3 < b);
        vstd::arithmetic::div_mod::lemma_small_mod(d3 as nat, b as nat);
    }

    /// Every value is below `2^256`.
    pub proof fn lemma_value_bound(self)
        ensures
            self.value() < pow2_256(),
    {
    }

    /// Two values that stand for the same number have the same limbs.
    pub proof fn lemma_value_injective(self, other: U256)
        requires
            self.value() == other.value(),
        ensures
            self == other,
    {
        self.lemma_from_nat_value();
        other.lemma_from_nat_value();
    }

    /// The value zero.
    pub fn zero() -> (r: U256)
        ensures
            r.value() == 0,
    {
        U256(0, 0, 0, 0)
    }

    /// The largest value, `2^256 - 1`.
    pub fn max_value() -> (r: U256)
        ensures
            r.value() == pow2_256() - 1,
    {
        U256(0xFFFF_FFFF_FFFF_FFFF, 0xFFFF_FFFF_FFFF_FFFF, 0xFFFF_FFFF_FFFF_FFFF, 0xFFFF_FFFF_FFFF_FFFF)
    }

    /// A value from a machine word.
    pub fn from_u64(x: u64) -> (r: U256)
        ensures
            r.value() == x,
    {
        U256(x, 0, 0, 0)
    }

    /// Whether the value is zero.
    pub fn is_zero(&self) -> (r: bool)
        ensures
            r == (self.value() == 0),
    {
        self.0 == 0 && self.1 == 0 && self.2 == 0 && self.3 == 0
    }

    /// `self <= other` as numbers.
    pub fn le(&self, other: &U256) -> (r: bool)
        ensures
            r == (self.value() <= other.value()),
    {
        if self.3 != other.3 {
            self.3 < other.3
        } else if self.2 != other.2 {
            self.2 < other.2
        } else if self.1 != other.1 {
            self.1 < other.1
        } else {
            self.0 <= other.0
        }
    }

    /// `self < other` as numbers.
    pub fn lt(&self, other: &U256) -> (r: bool)
        ensures
            r == (self.value() < other.value()),
    {
        !other.le(self)
    }

    /// The smaller of the two.
    pub fn min(self, other: U256) -> (r: U256)
        ensures
            r == (if self.value() <= other.value() { self } else { other }),
    {
        if self.le(&other) {
            self
        } else {
            other
        }
    }

    /// Multiplies by a machine word. The second component is what does not
    /// fit: the product is `r.0 + r.1 * 2^256`.
    pub fn overflowing_mul_u64(self, m: u64) -> (r: (U256, u64))
        ensures
            r.0.value() + (r.1 as nat) * pow2_256() == self.value() * (m as nat),
    {
        let (r0, c0) = mul_step(self.0, m, 0);
        let (r1, c1) = mul_step(self.1, m, c0);
        let (r2, c2) = mul_step(self.2, m, c1);
        let (r3, c3) = mul_step(self.3, m, c2);
        proof {
            let mm = m as nat;
            assert(self.value() * mm == (self.0 as nat) * mm + ((self.1 as nat) * mm) * pow2_64()
                + ((self.2 as nat) * mm) * pow2_128() + ((self.3 as nat) * mm) * pow2_192())
                by (nonlinear_arith)
                requires
                    self.value() == self.0 as nat + (self.1 as nat) * pow2_64() + (self.2 as nat)
                        * pow2_128() + (self.3 as nat) * pow2_192(),
            ;
        }
        (U256(r0, r1, r2, r3), c3)
    }

    /// Multiplies by a machine word; `None` when the product does not fit.
    pub fn checked_mul_u64(self, m: u64) -> (r: Option<U256>)
        ensures
            r.is_some() == (self.value() * (m as nat) < pow2_256()),
            r.is_some() ==> r.unwrap().value() == self.value() * (m as nat),
    {
        let (p, carry) = self.overflowing_mul_u64(m);
        proof {
            p.lemma_value_bound();
            assert(carry > 0 ==> (carry as nat) * pow2_256() >= pow2_256()) by (nonlinear_arith);
        }
        if carry == 0 {
            Some(p)
        } else {
            None
        }
    }

    /// Adds two values. The second component says whether the sum wrapped:
    /// it is `r.0 + 2^256` then.
    pub fn overflowing_add(self, other: U256) -> (r: (U256, bool))
        ensures
            r.0.value() + (if r.1 { pow2_256() } else { 0 }) == self.value() + other.value(),
    {
        let (r0, c0) = add_step(self.0, other.0, false);
        let (r1, c1) = add_step(self.1, other.1, c0);
        let (r2, c2) = add_step(self.2, other.2, c1);
        let (r3, c3) = add_step(self.3, other.3, c2);
        (U256(r0, r1, r2, r3), c3)
    }

    /// Adds two values; `None` when the sum does not fit.
    pub fn checked_add(self, other: U256) -> (r: Option<U256>)
        ensures
            r.is_some() == (self.value() + other.value() < pow2_256()),
            r.is_some() ==> r.unwrap().value() == self.value() + other.value(),
    {
        let (s, wrapped) = self.overflowing_add(other);
        proof {
            s.lemma_value_bound();
        }
        if wrapped {
            None
        } else {
            Some(s)
        }
    }

    /// Quotient and remainder of the division by a machine word.
    pub fn div_mod_u64(self, d: u64) -> (r: (U256, u64))
        requires
            d != 0,
        ensures
            r.0.value() == self.value() / (d as nat),
            r.1 as nat == self.value() % (d as nat),
    {
        let (q3, m3) = div_step(0, self.3, d);
        let (q2, m2) = div_step(m3, self.2, d);
        let (q1, m1) = div_step(m2, self.1, d);
        let (q0, m0) = div_step(m1, self.0, d);
        let q = U256(q0, q1, q2, q3);
        proof {
            let dd = d as nat;
            assert(q.value() * dd == (q0 as nat) * dd + ((q1 as nat) * dd) * pow2_64() + ((q2 as nat)
                * dd) * pow2_128() + ((q3 as nat) * dd) * pow2_192()) by (nonlinear_arith)
                requires
                    q.value() == q0 as nat + (q1 as nat) * pow2_64() + (q2 as nat) * pow2_128() + (
                    q3 as nat) * pow2_192(),
            ;
            assert(self.value() == q.value() * dd + m0 as nat);
            vstd::arithmetic::div_mod::lemma_fundamental_div_mod_converse(
                self.value() as int,
                d as int,
                q.value() as int,
                m0 as int,
            );
        }
        (q, m0)
    }

    /// Reads up to 32 bytes as a number, most significant byte first.
    pub fn from_big_endian(slice: &[u8]) -> (r: U256)
        requires
            slice@.len() <= 32,
        ensures
            r.value() == be_value(slice@),
            r == U256::from_nat(be_value(slice@)),
    {
        let mut acc = U256::zero();
        let mut i: usize = 0;
        while i < slice.len()
            invariant
                i <= slice@.len() <= 32,
                acc.value() == be_value(slice@.take(i as int)),
            decreases slice@.len() - i,
        {
            let (p, carry) = acc.overflowing_mul_u64(256);
            let (s, wrapped) = p.overflowing_add(U256::from_u64(slice[i] as u64));
            proof {
                let next = slice@.take(i + 1);
                assert(next.drop_last() =~= slice@.take(i as int));
                lemma_be_value_bound(next);
                lemma_pow256_monotonic((i + 1) as nat, 32);
                lemma_pow256_32();
                p.lemma_value_bound();
                s.lemma_value_bound();
                assert(carry > 0 ==> (carry as nat) * pow2_256() >= pow2_256()) by (nonlinear_arith);
            }
            acc = s;
            i += 1;
        }
        proof {
            assert(slice@.take(i as int) =~= slice@);
            acc.lemma_from_nat_value();
        }
        acc
    }

    /// The 32 bytes of the value, least significant byte first.
    pub fn to_little_endian(&self) -> (r: [u8; 32])
        ensures
            r@ == le_bytes(self.value(), 32),
    {
        let mut out: [u8; 32] = [0u8; 32];
        let mut rest = *self;
        let mut i: usize = 0;
        proof {
            lemma_le_bytes_len(self.value(), 32);
            assert(le_bytes(self.value(), 32).subrange(0, 32) =~= le_bytes(self.value(), 32));
        }
        while i < 32
            invariant
                i <= 32,
                forall|j: int| 0 <= j < i ==> out@[j] == le_bytes(self.value(), 32)[j],
                le_bytes(self.value(), 32).subrange(i as int, 32) == le_bytes(
                    rest.value(),
                    (32 - i) as nat,
                ),
                le_bytes(self.value(), 32).len() == 32,
            decreases 32 - i,
        {
            let (q, m) = rest.div_mod_u64(256);
            proof {
                let all = le_bytes(self.value(), 32);
                let here = le_bytes(rest.value(), (32 - i) as nat);
                let after = le_bytes(q.value(), (32 - i - 1) as nat);
                lemma_le_bytes_len(q.value(), (32 - i - 1) as nat);
                assert(here == seq![(rest.value() % 256) as u8] + after);
                assert(all[i as int] == all.subrange(i as int, 32)[0]);
                assert(all.subrange(i + 1, 32) =~= all.subrange(i as int, 32).subrange(1, 32 - i));
                assert(here.subrange(1, 32 - i) =~= after);
            }
            out[i] = m as u8;
            rest = q;
            i += 1;
        }
        proof {
            assert(out@ =~= le_bytes(self.value(), 32));
        }
        out
    }

    /// The decimal numeral of the value, without leading zeros.
    pub fn to_dec_string(&self) -> (s: String)
        ensures
            s@ == dec_text(self.value()),
    {
        let mut digits: Vec<u64> = Vec::new();
        let (q, m) = self.div_mod_u64(10);
        digits.push(m);
        let mut rest = q;
        proof {
            assert(rev_digits(digits@) =~= seq![digit_char(m as nat)]);
            if rest.value() != 0 {
                assert(dec_text(self.value()) =~= dec_text(rest.value()) + rev_digits(digits@));
            }
        }
        while !rest.is_zero()
            invariant
                digits@.len() >= 1,
                forall|j: int| 0 <= j < digits@.len() ==> digits@[j] < 10,
                rest.value() == 0 ==> dec_text(self.value()) == rev_digits(digits@),
                rest.value() != 0 ==> dec_text(self.value()) == dec_text(rest.value())
                    + rev_digits(digits@),
            decreases rest.value(),
        {
            let ghost before = digits@;
            let (q, m) = rest.div_mod_u64(10);
            digits.push(m);
            proof {
                assert(rev_digits(digits@) =~= seq![digit_char(m as nat)] + rev_digits(before));
                if q.value() == 0 {
                    assert(dec_text(rest.value()) =~= seq![digit_char(m as nat)]);
                    assert(dec_text(self.value()) =~= rev_digits(digits@));
                } else {
                    assert(dec_text(rest.value()) == dec_text(q.value()).push(digit_char(m as nat)));
                    assert(dec_text(self.value()) =~= dec_text(q.value()) + rev_digits(digits@));
                }
            }
            rest = q;
        }
        let mut out = String::new();
        let mut i: usize = digits.len();
        while i > 0
            invariant
                i <= digits@.len(),
                forall|j: int| 0 <= j < digits@.len() ==> digits@[j] < 10,
                out@ == rev_digits(digits@).take(digits@.len() - i),
            decreases i,
        {
            i -= 1;
            out.append(digit_str(digits[i]));
            proof {
                assert(out@ =~= rev_digits(digits@).take(digits@.len() - i));
            }
        }
        proof {
            assert(rev_digits(digits@).take(digits@.len() as int) =~= rev_digits(digits@));
        }
        out
    }

    /// The hexadecimal numeral of the value, in lower case and without
    /// leading zeros.
    pub fn to_hex_string(&self) -> (s: String)
        ensures
            s@ == hex_text(self.value()),
    {
        let mut digits: Vec<u64> = Vec::new();
        let (q, m) = self.div_mod_u64(16);
        digits.push(m);
        let mut rest = q;
        proof {
            assert(rev_hex_digits(digits@) =~= seq![hex_digit_char(m as nat)]);
            if rest.value() != 0 {
                assert(hex_text(self.value()) =~= hex_text(rest.value()) + rev_hex_digits(digits@));
            }
        }
        while !rest.is_zero()
            invariant
                digits@.len() >= 1,
                forall|j: int| 0 <= j < digits@.len() ==> digits@[j] < 16,
                rest.value() == 0 ==> hex_text(self.value()) == rev_hex_digits(digits@),
                rest.value() != 0 ==> hex_text(self.value()) == hex_text(rest.value())
                    + rev_hex_digits(digits@),
            decreases rest.value(),
        {
            let ghost before = digits@;
            let (q, m) = rest.div_mod_u64(16);
            digits.push(m);
            proof {
                assert(rev_hex_digits(digits@) =~= seq![hex_digit_char(m as nat)] + rev_hex_digits(
                    before,
                ));
                if q.value() == 0 {
                    assert(hex_text(rest.value()) =~= seq![hex_digit_char(m as nat)]);
                    assert(hex_text(self.value()) =~= rev_hex_digits(digits@));
                } else {
                    assert(hex_text(rest.value()) == hex_text(q.value()).push(
                        hex_digit_char(m as nat),
                    ));
                    assert(hex_text(self.value()) =~= hex_text(q.value()) + rev_hex_digits(digits@));
                }
            }
            rest = q;
        }
        let mut out = String::new();
        let mut i: usize = digits.len();
        while i > 0
            invariant
                i <= digits@.len(),
                forall|j: int| 0 <= j < digits@.len() ==> digits@[j] < 16,
                out@ == rev_hex_digits(digits@).take(digits@.len() - i),
            decreases i,
        {
            i -= 1;
            out.append(hex_digit_str(digits[i]));
            proof {
                assert(out@ =~= rev_hex_digits(digits@).take(digits@.len() - i));
            }
        }
        proof {
            assert(rev_hex_digits(digits@).take(digits@.len() as int) =~= rev_hex_digits(digits@));
        }
        out
    }

    /// Reads a decimal numeral. The result is `None` when a character is not
    /// a digit or the number does not fit; the empty text reads as zero.
    pub fn from_dec_str(s: &str) -> (r: Option<U256>)
        ensures
            r.is_some() == (is_dec_text(s@) && dec_value(s@) < pow2_256()),
            r.is_some() ==> r.unwrap().value() == dec_value(s@),
    {
        let n: usize = s.unicode_len();
        let mut acc = U256::zero();
        let mut i: usize = 0;
        while i < n
            invariant
                i <= n,
                n == s@.len(),
                is_dec_text(s@.take(i as int)),
                acc.value() == dec_value(s@.take(i as int)),
            decreases n - i,
        {
            let c = s.get_char(i);
            let code: u32 = c as u32;
            if code < 48 || code > 57 {
                return None;
            }
            let d: u64 = (code - 48) as u64;
            proof {
                let next = s@.take(i + 1);
                assert(next.drop_last() =~= s@.take(i as int));
                assert(dec_value(next) == acc.value() * 10 + d);
                lemma_dec_value_prefix(s@, i + 1);
                assert forall|j: int| 0 <= j < next.len() implies is_digit(#[trigger] next[j]) by {
                    if j < i {
                        assert(next[j] == s@.take(i as int)[j]);
                    }
                }
            }
            let p = match acc.checked_mul_u64(10) {
                Some(p) => p,
                None => {
                    return None;
                },
            };
            let v = match p.checked_add(U256::from_u64(d)) {
                Some(v) => v,
                None => {
                    return None;
                },
            };
            acc = v;
            i += 1;
        }
        proof {
            assert(s@.take(i as int) =~= s@);
        }
        Some(acc)
    }

    /// The number of significant bits: 0 for zero, 256 at most.
    pub fn bits(&self) -> (r: usize)
        ensures
            r == bit_length(self.value()),
    {
        let mut rest = *self;
        let mut count: usize = 0;
        proof {
            self.lemma_value_bound();
            lemma_pow256_32();
            lemma_bit_length_bound(self.value(), 32);
        }
        while !rest.is_zero()
            invariant
                bit_length(self.value()) == count + bit_length(rest.value()),
                count + bit_length(rest.value()) <= 256,
            decreases rest.value(),
        {
            let (q, _m) = rest.div_mod_u64(2);
            rest = q;
            count += 1;
        }
        count
    }
}

} // verus!
