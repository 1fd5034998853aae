use crate::text::chars_of;
use cairo_vm::Felt252;
use vstd::arithmetic::div_mod::lemma_fundamental_div_mod_converse;
use vstd::arithmetic::power::pow;
use vstd::bytes::{spec_u64_to_le_bytes, u64_to_le_bytes};
use vstd::prelude::*;

verus! {

/// The prime of the machine's field: 2^251 + 17 * 2^192 + 1.
pub open spec fn field_prime() -> nat {
    0x800000000000011000000000000000000000000000000000000000000000001nat
}

/// The most significant 64-bit digit of the prime; its other digits are 0, 0 and 1.
pub const PRIME_TOP_DIGIT: u64 = 0x0800000000000011;

/// The number that four 64-bit digits stand for, most significant first.
pub open spec fn digits_value(d3: u64, d2: u64, d1: u64, d0: u64) -> nat {
    (d3 as nat) * 0x1_0000000000000000_0000000000000000_0000000000000000nat
        + (d2 as nat) * 0x1_0000000000000000_0000000000000000nat
        + (d1 as nat) * 0x1_0000000000000000nat
        + (d0 as nat)
}

/// The 64-bit digit of a number at the given place, counted from the least
/// significant.
pub open spec fn digit_at(n: nat, place: nat) -> u64 {
    if place == 0 {
        (n % 0x1_0000000000000000nat) as u64
    } else if place == 1 {
        ((n / 0x1_0000000000000000nat) % 0x1_0000000000000000nat) as u64
    } else if place == 2 {
        ((n / 0x1_0000000000000000_0000000000000000nat) % 0x1_0000000000000000nat) as u64
    } else {
        ((n / 0x1_0000000000000000_0000000000000000_0000000000000000nat)
            % 0x1_0000000000000000nat) as u64
    }
}

/// The 32 bytes of a number below 2^256, least significant first: its four
/// digits, each as eight bytes.
pub open spec fn le_bytes(n: nat) -> Seq<u8> {
    spec_u64_to_le_bytes(digit_at(n, 0)) + spec_u64_to_le_bytes(digit_at(n, 1))
        + spec_u64_to_le_bytes(digit_at(n, 2)) + spec_u64_to_le_bytes(digit_at(n, 3))
}

/// The digits of the number that four digits stand for are those four.
pub proof fn lemma_digit_at(d3: u64, d2: u64, d1: u64, d0: u64)
    ensures
        digit_at(digits_value(d3, d2, d1, d0), 0) == d0,
        digit_at(digits_value(d3, d2, d1, d0), 1) == d1,
        digit_at(digits_value(d3, d2, d1, d0), 2) == d2,
        digit_at(digits_value(d3, d2, d1, d0), 3) == d3,
{
    let n = digits_value(d3, d2, d1, d0) as int;
    let b = 0x1_0000000000000000int;
    let b2 = 0x1_0000000000000000_0000000000000000int;
    let b3 = 0x1_0000000000000000_0000000000000000_0000000000000000int;
    lemma_fundamental_div_mod_converse(n, b, d3 * b2 + d2 * b + d1, d0 as int);
    lemma_fundamental_div_mod_converse(d3 * b2 + d2 * b + d1, b, d3 * b + d2, d1 as int);
    lemma_fundamental_div_mod_converse(n, b2, d3 * b + d2, d1 * b + d0);
    lemma_fundamental_div_mod_converse(d3 * b + d2, b, d3 as int, d2 as int);
    lemma_fundamental_div_mod_converse(n, b3, d3 as int, d2 * b2 + d1 * b + d0);
    lemma_fundamental_div_mod_converse(d3 as int, b, 0, d3 as int);
}

/// An element of the field, held as the four 64-bit digits of its least
/// non-negative representative.
#[derive(Clone, Copy, Debug, PartialEq, Eq, Structural)]
pub struct Felt {
    d3: u64,
    d2: u64,
    d1: u64,
    d0: u64,
}

impl View for Felt {
    type V = nat;

    /// The representative, a number below the prime.
    closed spec fn view(&self) -> nat {
        digits_value(self.d3, self.d2, self.d1, self.d0)
    }
}

impl Felt {
    #[verifier::type_invariant]
    spec fn canonical(self) -> bool {
        digits_value(self.d3, self.d2, self.d1, self.d0) < field_prime()
    }

    /// The element that a machine word stands for.
    pub fn from_u64(n: u64) -> (r: Felt)
        ensures
            r@ == n,
    {
        Felt { d3: 0, d2: 0, d1: 0, d0: n }
    }

    /// The zero of the field.
    pub fn zero() -> (r: Felt)
        ensures
            r@ == 0,
    {
        Felt { d3: 0, d2: 0, d1: 0, d0: 0 }
    }

    /// The one of the field.
    pub fn one() -> (r: Felt)
        ensures
            r@ == 1,
    {
        Felt { d3: 0, d2: 0, d1: 0, d0: 1 }
    }

    /// The element with the given digits, most significant first, when they
    /// stand for a number below the prime.
    pub fn from_be_digits(d3: u64, d2: u64, d1: u64, d0: u64) -> (r: Option<Felt>)
        ensures
            match r {
                Some(f) => f@ == digits_value(d3, d2, d1, d0) && f@ < field_prime(),
                None => digits_value(d3, d2, d1, d0) >= field_prime(),
            },
    {
        if d3 < PRIME_TOP_DIGIT || (d3 == PRIME_TOP_DIGIT && d2 == 0 && d1 == 0 && d0 == 0) {
            Some(Felt { d3, d2, d1, d0 })
        } else {
            None
        }
    }

    /// The digits of the representative, most significant first.
    pub fn to_be_digits(&self) -> (r: (u64, u64, u64, u64))
        ensures
            digits_value(r.0, r.1, r.2, r.3) == self@,
            self@ < field_prime(),
    {
        proof {
            use_type_invariant(self);
        }
        (self.d3, self.d2, self.d1, self.d0)
    }

    /// The 32 bytes of the representative, least significant first.
    pub fn to_bytes_le(&self) -> (r: Vec<u8>)
        ensures
            r@ == le_bytes(self@),
    {
        proof {
            lemma_digit_at(self.d3, self.d2, self.d1, self.d0);
        }
        let mut bytes = u64_to_le_bytes(self.d0);
        let mut next = u64_to_le_bytes(self.d1);
        bytes.append(&mut next);
        let mut next = u64_to_le_bytes(self.d2);
        bytes.append(&mut next);
        let mut next = u64_to_le_bytes(self.d3);
        bytes.append(&mut next);
        bytes
    }

    /// Whether two elements are the same number.
    pub fn same(&self, other: &Felt) -> (b: bool)
        ensures
            b == (self@ == other@),
    {
        self.d3 == other.d3 && self.d2 == other.d2 && self.d1 == other.d1 && self.d0 == other.d0
    }
}

/// 2^64, the base of the digits.
pub open spec fn digit_base() -> nat {
    0x1_0000000000000000nat
}

/// 2^256, the first number that four digits cannot hold.
pub open spec fn digits_limit() -> nat {
    0x1_0000000000000000_0000000000000000_0000000000000000_0000000000000000nat
}

/// One digit times a small factor plus a carry: the low digit and the carry out.
fn scale_digit(d: u64, m: u64, carry: u64) -> (r: (u64, u64))
    ensures
        r.0 * digit_base() + r.1 == d * m + carry,
{
    assert(d * m <= 0xffff_ffff_ffff_ffff * 0xffff_ffff_ffff_ffff) by (nonlinear_arith)
        requires
            d <= 0xffff_ffff_ffff_ffff,
            m <= 0xffff_ffff_ffff_ffff,
    ;
    let t: u128 = (d as u128) * (m as u128) + (carry as u128);
    let high: u128 = t / 0x1_0000000000000000u128;
    let low: u128 = t % 0x1_0000000000000000u128;
    (high as u64, low as u64)
}

/// Four digits times a small factor plus a small addend: the carry out of the
/// top digit, then the four digits of the rest.
fn scale_add(d3: u64, d2: u64, d1: u64, d0: u64, m: u64, a: u64) -> (r: (
    u64,
    u64,
    u64,
    u64,
    u64,
))
    ensures
        r.0 * digits_limit() + digits_value(r.1, r.2, r.3, r.4) == digits_value(d3, d2, d1, d0)
            * m + a,
{
    let (c0, n0) = scale_digit(d0, m, a);
    let (c1, n1) = scale_digit(d1, m, c0);
    let (c2, n2) = scale_digit(d2, m, c1);
    let (c3, n3) = scale_digit(d3, m, c2);
    proof {
        let x3 = d3 * m;
        let x2 = d2 * m;
        let x1 = d1 * m;
        let x0 = d0 * m;
        assert(digits_value(d3, d2, d1, d0) * m == x3
            * 0x1_0000000000000000_0000000000000000_0000000000000000int + x2
            * 0x1_0000000000000000_0000000000000000int + x1 * 0x1_0000000000000000int + x0)
            by (nonlinear_arith)
            requires
                digits_value(d3, d2, d1, d0) == d3
                    * 0x1_0000000000000000_0000000000000000_0000000000000000int + d2
                    * 0x1_0000000000000000_0000000000000000int + d1 * 0x1_0000000000000000int + d0,
                x3 == d3 * m,
                x2 == d2 * m,
                x1 == d1 * m,
                x0 == d0 * m,
        ;
    }
    (c3, n3, n2, n1, n0)
}

/// The digit that a character stands for in a numeral: `0` to `9`, and `a` to
/// `f` in either case for ten to fifteen.
pub open spec fn char_digit(c: char) -> Option<nat> {
    if '0' <= c <= '9' {
        Some((c as u32 - '0' as u32) as nat)
    } else if 'a' <= c <= 'f' {
        Some((c as u32 - 'a' as u32 + 10) as nat)
    } else if 'A' <= c <= 'F' {
        Some((c as u32 - 'A' as u32 + 10) as nat)
    } else {
        None
    }
}

/// Whether a character is a digit of the given base.
pub open spec fn is_digit_of(c: char, base: nat) -> bool {
    char_digit(c) matches Some(d) && d < base
}

/// Whether a text is a numeral of the given base: one digit or more, and
/// nothing else.
pub open spec fn is_numeral(s: Seq<char>, base: nat) -> bool {
    s.len() > 0 && forall|i: int| 0 <= i < s.len() ==> is_digit_of(#[trigger] s[i], base)
}

/// The number that a numeral of the given base stands for.
pub open spec fn numeral_value(s: Seq<char>, base: nat) -> nat
    decreases s.len(),
{
    if s.len() == 0 {
        0
    } else {
        base * numeral_value(s.drop_last(), base) + char_digit(s.last()).unwrap()
    }
}

/// A longer numeral stands for no smaller a number than its beginning.
pub proof fn lemma_numeral_prefix(s: Seq<char>, n: int, base: nat)
    requires
        0 <= n <= s.len(),
        base >= 1,
    ensures
        numeral_value(s.take(n), base) <= numeral_value(s, base),
    decreases s.len(),
{
    if n == s.len() {
        assert(s.take(n) == s);
    } else {
        assert(s.drop_last().take(n) == s.take(n));
        lemma_numeral_prefix(s.drop_last(), n, base);
        assert(numeral_value(s.drop_last(), base) <= base * numeral_value(s.drop_last(), base))
            by (nonlinear_arith)
            requires
                base >= 1,
        ;
    }
}

/// Why a text is not the literal of a field element.
#[derive(Clone, Copy, Debug, PartialEq, Eq, Structural)]
pub enum LiteralError {
    /// The text is no numeral.
    Malformed,
    /// The text is a numeral with a minus sign before it.
    Negative,
    /// The numeral stands for a number that is not below the prime.
    OutOfRange,
}

fn digit_of_char(c: char) -> (r: Option<u64>)
    ensures
        match r {
            Some(d) => char_digit(c) == Some(d as nat),
            None => char_digit(c).is_none(),
        },
{
    if '0' <= c && c <= '9' {
        Some((c as u32 - '0' as u32) as u64)
    } else if 'a' <= c && c <= 'f' {
        Some((c as u32 - 'a' as u32 + 10) as u64)
    } else if 'A' <= c && c <= 'F' {
        Some((c as u32 - 'A' as u32 + 10) as u64)
    } else {
        None
    }
}

/// Reads the numeral that starts at `from` and runs to the end of `chars`.
fn parse_numeral(chars: &Vec<char>, from: usize, base: u64) -> (r: Result<
    (u64, u64, u64, u64),
    LiteralError,
>)
    requires
        from <= chars.len(),
        2 <= base <= 16,
    ensures
        match r {
            Ok(d) => is_numeral(chars@.skip(from as int), base as nat) && digits_value(
                d.0,
                d.1,
                d.2,
                d.3,
            ) == numeral_value(chars@.skip(from as int), base as nat),
            Err(LiteralError::Malformed) => !is_numeral(chars@.skip(from as int), base as nat),
            Err(LiteralError::OutOfRange) => is_numeral(chars@.skip(from as int), base as nat)
                && numeral_value(chars@.skip(from as int), base as nat) >= digits_limit(),
            Err(LiteralError::Negative) => false,
        },
{
    let ghost s = chars@.skip(from as int);
    if from == chars.len() {
        return Err(LiteralError::Malformed);
    }
    let mut d3: u64 = 0;
    let mut d2: u64 = 0;
    let mut d1: u64 = 0;
    let mut d0: u64 = 0;
    let mut too_big = false;
    let mut i: usize = from;
    while i < chars.len()
        invariant
            from <= i <= chars.len(),
            2 <= base <= 16,
            s == chars@.skip(from as int),
            forall|k: int| 0 <= k < i - from ==> is_digit_of(#[trigger] s[k], base as nat),
            !too_big ==> digits_value(d3, d2, d1, d0) == numeral_value(
                s.take(i - from),
                base as nat,
            ),
            too_big ==> numeral_value(s.take(i - from), base as nat) >= digits_limit(),
        decreases chars.len() - i,
    {
        let c = chars[i];
        let ghost prefix = s.take(i - from);
        let ghost longer = s.take(i - from + 1);
        proof {
            assert(s[i - from] == c);
            assert(longer.drop_last() == prefix);
            assert(longer.last() == c);
        }
        match digit_of_char(c) {
            Some(d) if d < base => {
                if !too_big {
                    let (carry, n3, n2, n1, n0) = scale_add(d3, d2, d1, d0, base, d);
                    if carry != 0 {
                        too_big = true;
                    } else {
                        d3 = n3;
                        d2 = n2;
                        d1 = n1;
                        d0 = n0;
                    }
                    proof {
                        assert(base as nat * numeral_value(prefix, base as nat)
                            == numeral_value(prefix, base as nat) * base) by (nonlinear_arith);
                    }
                } else {
                    proof {
                        lemma_numeral_prefix(longer, i - from, base as nat);
                        assert(longer.take(i - from) == prefix);
                    }
                }
            },
            _ => {
                proof {
                    assert(!is_digit_of(s[i - from], base as nat));
                }
                return Err(LiteralError::Malformed);
            },
        }
        i += 1;
    }
    proof {
        assert(s.take(i - from) == s);
    }
    if too_big {
        Err(LiteralError::OutOfRange)
    } else {
        Ok((d3, d2, d1, d0))
    }
}

/// What a decimal literal stands for in the field: the number it writes, when
/// it is a decimal numeral below the prime.
pub open spec fn decimal_felt(s: Seq<char>) -> Result<nat, LiteralError> {
    if !is_numeral(s, 10) {
        Err(LiteralError::Malformed)
    } else if numeral_value(s, 10) >= field_prime() {
        Err(LiteralError::OutOfRange)
    } else {
        Ok(numeral_value(s, 10))
    }
}

/// Whether a text is `0x` followed by a hexadecimal numeral.
pub open spec fn is_hex_literal(s: Seq<char>) -> bool {
    s.len() >= 2 && s[0] == '0' && s[1] == 'x' && is_numeral(s.skip(2), 16)
}

/// What a hexadecimal literal stands for in the field: the number written
/// after its `0x`, when that is a hexadecimal numeral below the prime.
pub open spec fn hex_felt(s: Seq<char>) -> Result<nat, LiteralError> {
    if !is_hex_literal(s) {
        Err(LiteralError::Malformed)
    } else if numeral_value(s.skip(2), 16) >= field_prime() {
        Err(LiteralError::OutOfRange)
    } else {
        Ok(numeral_value(s.skip(2), 16))
    }
}

/// What a literal without a sign stands for in the field: a hexadecimal
/// literal with its `0x`, or else a decimal literal.
pub open spec fn unsigned_felt(s: Seq<char>) -> Result<nat, LiteralError> {
    if is_hex_literal(s) {
        hex_felt(s)
    } else {
        decimal_felt(s)
    }
}

/// What a literal stands for in the field: a decimal or a hexadecimal
/// literal; one with a minus sign before it is negative and stands for
/// nothing.
pub open spec fn literal_felt(s: Seq<char>) -> Result<nat, LiteralError> {
    if s.len() > 0 && s[0] == '-' {
        match unsigned_felt(s.skip(1)) {
            Err(LiteralError::Malformed) => Err(LiteralError::Malformed),
            _ => Err(LiteralError::Negative),
        }
    } else {
        unsigned_felt(s)
    }
}

fn felt_of_numeral(chars: &Vec<char>, from: usize, base: u64) -> (r: Result<Felt, LiteralError>)
    requires
        from <= chars.len(),
        2 <= base <= 16,
    ensures
        match r {
            Ok(f) => is_numeral(chars@.skip(from as int), base as nat) && f@ == numeral_value(
                chars@.skip(from as int),
                base as nat,
            ) && f@ < field_prime(),
            Err(LiteralError::Malformed) => !is_numeral(chars@.skip(from as int), base as nat),
            Err(LiteralError::OutOfRange) => is_numeral(chars@.skip(from as int), base as nat)
                && numeral_value(chars@.skip(from as int), base as nat) >= field_prime(),
            Err(LiteralError::Negative) => false,
        },
{
    match parse_numeral(chars, from, base) {
        Ok((d3, d2, d1, d0)) => match Felt::from_be_digits(d3, d2, d1, d0) {
            Some(f) => Ok(f),
            None => Err(LiteralError::OutOfRange),
        },
        Err(e) => Err(e),
    }
}

impl Felt {
    /// Reads a decimal literal: digits only, standing for a number below the
    /// prime.
    pub fn from_decimal(text: &str) -> (r: Result<Felt, LiteralError>)
        ensures
            match r {
                Ok(f) => decimal_felt(text@) == Ok::<nat, LiteralError>(f@),
                Err(e) => decimal_felt(text@) == Err::<nat, LiteralError>(e),
            },
    {
        let chars = chars_of(text);
        proof {
            assert(chars@.skip(0) == chars@);
        }
        felt_of_numeral(&chars, 0, 10)
    }

    /// Reads a hexadecimal literal: `0x`, then hexadecimal digits in either
    /// case, standing for a number below the prime.
    pub fn from_hex_literal(text: &str) -> (r: Result<Felt, LiteralError>)
        ensures
            match r {
                Ok(f) => hex_felt(text@) == Ok::<nat, LiteralError>(f@),
                Err(e) => hex_felt(text@) == Err::<nat, LiteralError>(e),
            },
    {
        let chars = chars_of(text);
        if chars.len() < 2 || chars[0] != '0' || chars[1] != 'x' {
            return Err(LiteralError::Malformed);
        }
        felt_of_numeral(&chars, 2, 16)
    }

    /// Reads a literal: a decimal or a hexadecimal one, without a sign,
    /// standing for a number below the prime.
    pub fn from_literal(text: &str) -> (r: Result<Felt, LiteralError>)
        ensures
            match r {
                Ok(f) => literal_felt(text@) == Ok::<nat, LiteralError>(f@),
                Err(e) => literal_felt(text@) == Err::<nat, LiteralError>(e),
            },
    {
        let chars = chars_of(text);
        let negative = chars.len() > 0 && chars[0] == '-';
        let start: usize = if negative {
            1
        } else {
            0
        };
        let ghost body = chars@.skip(start as int);
        proof {
            assert(chars@.skip(0) == chars@);
        }
        let hex = chars.len() - start >= 2 && chars[start] == '0' && chars[start + 1] == 'x';
        let read = if hex {
            proof {
                assert(body[0] == '0' && body[1] == 'x');
                assert(body.skip(2) == chars@.skip(start + 2));
                assert(!is_digit_of(body[1], 10));
            }
            felt_of_numeral(&chars, start + 2, 16)
        } else {
            proof {
                if body.len() >= 2 {
                    assert(body[0] == chars@[start as int] && body[1] == chars@[start + 1]);
                }
            }
            felt_of_numeral(&chars, start, 10)
        };
        match read {
            Ok(f) => if negative {
                Err(LiteralError::Negative)
            } else {
                Ok(f)
            },
            Err(LiteralError::Malformed) => Err(LiteralError::Malformed),
            Err(e) => if negative {
                Err(LiteralError::Negative)
            } else {
                Err(e)
            },
        }
    }
}

/// The sum of two elements of the field.
pub open spec fn field_add(a: nat, b: nat) -> nat {
    (a + b) % field_prime()
}

/// The product of two elements of the field.
pub open spec fn field_mul(a: nat, b: nat) -> nat {
    (a * b) % field_prime()
}

/// A power of an element of the field.
pub open spec fn field_pow(a: nat, e: nat) -> nat {
    (pow(a as int, e) % (field_prime() as int)) as nat
}

/// `cairo_vm`'s `Felt252`, added with `+`: the sum in the field.
#[verifier::external_body]
pub(crate) fn felt_add(a: &Felt, b: &Felt) -> (r: Felt)
    ensures
        r@ == field_add(a@, b@),
{
    let a = [a.d3.to_be_bytes(), a.d2.to_be_bytes(), a.d1.to_be_bytes(), a.d0.to_be_bytes()];
    let b = [b.d3.to_be_bytes(), b.d2.to_be_bytes(), b.d1.to_be_bytes(), b.d0.to_be_bytes()];
    let sum = Felt252::from_bytes_be_slice(&a.concat()) + Felt252::from_bytes_be_slice(&b.concat());
    let d = sum.to_be_digits();
    Felt { d3: d[0], d2: d[1], d1: d[2], d0: d[3] }
}

/// `cairo_vm`'s `Felt252`, multiplied with `*`: the product in the field.
#[verifier::external_body]
pub(crate) fn felt_mul(a: &Felt, b: &Felt) -> (r: Felt)
    ensures
        r@ == field_mul(a@, b@),
{
    let a = [a.d3.to_be_bytes(), a.d2.to_be_bytes(), a.d1.to_be_bytes(), a.d0.to_be_bytes()];
    let b = [b.d3.to_be_bytes(), b.d2.to_be_bytes(), b.d1.to_be_bytes(), b.d0.to_be_bytes()];
    let product = Felt252::from_bytes_be_slice(&a.concat()) * Felt252::from_bytes_be_slice(
        &b.concat(),
    );
    let d = product.to_be_digits();
    Felt { d3: d[0], d2: d[1], d1: d[2], d0: d[3] }
}

/// `Felt252::pow_felt`: the element raised to the power that the
/// representative of `e` gives.
#[verifier::external_body]
pub(crate) fn felt_pow(a: &Felt, e: &Felt) -> (r: Felt)
    ensures
        r@ == field_pow(a@, e@),
{
    let a = [a.d3.to_be_bytes(), a.d2.to_be_bytes(), a.d1.to_be_bytes(), a.d0.to_be_bytes()];
    let e = [e.d3.to_be_bytes(), e.d2.to_be_bytes(), e.d1.to_be_bytes(), e.d0.to_be_bytes()];
    let power = Felt252::from_bytes_be_slice(&a.concat()).pow_felt(
        &Felt252::from_bytes_be_slice(&e.concat()),
    );
    let d = power.to_be_digits();
    Felt { d3: d[0], d2: d[1], d1: d[2], d0: d[3] }
}

/// `Felt252::sqrt`: the principal square root of the element, the lower of
/// the root and its negative, below the prime as every element is. The crate
/// tests the element by Euler's criterion first and gives no root only where
/// the power is neither 0 nor 1: an element whose power is 1 has its root
/// found.
#[verifier::external_body]
pub(crate) fn felt_sqrt(a: &Felt) -> (r: Option<Felt>)
    ensures
        r matches Some(root) ==> field_mul(root@, root@) == a@ && root@ < field_prime() && root@
            <= field_prime() - root@,
        field_pow(a@, ((field_prime() - 1) / 2) as nat) == 1 ==> r is Some,
{
    let a = [a.d3.to_be_bytes(), a.d2.to_be_bytes(), a.d1.to_be_bytes(), a.d0.to_be_bytes()];
    match Felt252::from_bytes_be_slice(&a.concat()).sqrt() {
        Some(root) => {
            let d = root.to_be_digits();
            Some(Felt { d3: d[0], d2: d[1], d1: d[2], d0: d[3] })
        },
        None => None,
    }
}

} // verus!
