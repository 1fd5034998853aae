use crate::felt::{
    digits_value, felt_add, felt_mul, felt_pow, felt_sqrt, field_pow, field_prime, Felt,
};
use ark_std::rand::rngs::StdRng;
use ark_std::rand::RngCore;
use vstd::arithmetic::div_mod::{lemma_add_mod_noop, lemma_mod_twice, lemma_mul_mod_noop_left};
use vstd::prelude::*;

verus! {

/// The constant term of the curve `y^2 = x^3 + x + beta`.
pub open spec fn curve_beta() -> nat {
    3141592653589793238462643383279502884197169399375105820974944592307816406665nat
}

/// Half the order of the field's multiplicative group: the exponent of
/// Euler's criterion.
pub open spec fn half_order() -> nat {
    1809251394333065606848661391547535052811553607665798349986546028067936010240nat
}

/// The right-hand side of the curve's equation at `x`, in the field.
pub open spec fn curve_rhs(x: nat) -> nat {
    (x * x * x + x + curve_beta()) % field_prime()
}

/// Whether `(x, y)` is a point of the curve: `y^2 = x^3 + x + beta` in the
/// field.
pub open spec fn on_curve(x: nat, y: nat) -> bool {
    (y * y) % field_prime() == curve_rhs(x)
}

/// Whether `y` is the principal one of the two roots `y` and `-y`: an element
/// of the field that is no greater than its negative.
pub open spec fn is_principal(y: nat) -> bool {
    y < field_prime() && y <= field_prime() - y
}

/// Euler's criterion: whether an element raised to half the group's order
/// gives 1.
pub open spec fn is_residue(r: nat) -> bool {
    field_pow(r, half_order()) == 1
}

/// Why no point was sampled.
#[derive(Clone, Copy, Debug, PartialEq, Eq, Structural)]
pub enum SamplingError {
    /// No root was found of an element that passed Euler's criterion. The
    /// root of such an element is always found, so no search ends with this.
    NoSquareRoot,
    /// None of the elements drawn passed Euler's criterion.
    NoResidue,
}

fn beta() -> (r: Felt)
    ensures
        r@ == curve_beta(),
{
    match Felt::from_be_digits(
        0x06f21413efbe40de,
        0x150e596d72f7a8c5,
        0x609ad26c15c915c1,
        0xf4cdfcb99cee9e89,
    ) {
        Some(f) => f,
        None => Felt::zero(),
    }
}

fn half_order_felt() -> (r: Felt)
    ensures
        r@ == half_order(),
{
    match Felt::from_be_digits(0x0400000000000008, 0x8000000000000000, 0, 0) {
        Some(f) => f,
        None => Felt::zero(),
    }
}

/// Computes `x^3 + x + beta` in the field.
pub fn eval_curve_rhs(x: &Felt) -> (r: Felt)
    ensures
        r@ == curve_rhs(x@),
{
    let square = felt_mul(x, x);
    let cube = felt_mul(&square, x);
    let sum = felt_add(&cube, x);
    let r = felt_add(&sum, &beta());
    proof {
        let p = field_prime() as int;
        let a = x@ as int;
        lemma_mul_mod_noop_left(a * a, a, p);
        assert(sum@ == (a * a * a + a) % p) by {
            lemma_add_mod_noop(a * a * a, a, p);
            lemma_mod_twice(a * a * a, p);
            lemma_add_mod_noop((a * a * a) % p, a, p);
        }
        assert(r@ == (a * a * a + a + curve_beta()) % p) by {
            lemma_add_mod_noop(a * a * a + a, curve_beta() as int, p);
            lemma_add_mod_noop((a * a * a + a) % p, curve_beta() as int, p);
            lemma_mod_twice(a * a * a + a, p);
        }
    }
    r
}

/// Tests an element by Euler's criterion.
pub fn is_quadratic_residue(r: &Felt) -> (b: bool)
    ensures
        b == is_residue(r@),
{
    let power = felt_pow(r, &half_order_felt());
    power.same(&Felt::one())
}

/// The point of the curve above `x`, where there is one to be had: the
/// right-hand side at `x` passes Euler's criterion exactly where a `y` is
/// returned, the principal root of it. The call never fails: the root of
/// an element that passes the criterion is always found.
pub fn ec_point_for(x: &Felt) -> (r: Result<Option<Felt>, SamplingError>)
    ensures
        match r {
            Ok(Some(y)) => is_residue(curve_rhs(x@)) && on_curve(x@, y@) && is_principal(y@),
            Ok(None) => !is_residue(curve_rhs(x@)),
            Err(_) => false,
        },
{
    let rhs = eval_curve_rhs(x);
    proof {
        assert(half_order() == (field_prime() - 1) / 2);
    }
    if is_quadratic_residue(&rhs) {
        match felt_sqrt(&rhs) {
            Some(y) => Ok(Some(y)),
            None => Err(SamplingError::NoSquareRoot),
        }
    } else {
        Ok(None)
    }
}

/// `StdRng` of `rand`, as `ark_std` hands it on: a generator of random
/// words that runs on its own state alone.
#[verifier::external_type_specification]
#[verifier::external_body]
pub struct ExStdRng(StdRng);

/// `RngCore::next_u64` of `StdRng`: the next word of the generator.
#[verifier::external_body]
fn random_word(source: &mut StdRng) -> u64 {
    source.next_u64()
}

/// The element of the field that four random words give, where they give
/// one: the top four bits are dropped, and a number that is not below the
/// prime gives none.
pub fn felt_of_words(w3: u64, w2: u64, w1: u64, w0: u64) -> (r: Option<Felt>)
    ensures
        match r {
            Some(f) => f@ == digits_value(w3 & 0x0fff_ffff_ffff_ffff, w2, w1, w0) && f@
                < field_prime(),
            None => digits_value(w3 & 0x0fff_ffff_ffff_ffff, w2, w1, w0) >= field_prime(),
        },
{
    Felt::from_be_digits(w3 & 0x0fff_ffff_ffff_ffff, w2, w1, w0)
}

/// The number that four drawn words stand for, the top four bits dropped.
pub open spec fn words_value(w: (u64, u64, u64, u64)) -> nat {
    digits_value(w.0 & 0x0fff_ffff_ffff_ffff, w.1, w.2, w.3)
}

/// Whether a draw is taken: its words stand for an element of the field, and
/// the right-hand side of the curve at that element passes Euler's
/// criterion.
pub open spec fn accepts(w: (u64, u64, u64, u64)) -> bool {
    words_value(w) < field_prime() && is_residue(curve_rhs(words_value(w)))
}

/// Whether a search that drew `draws`, in that order, ended with the point
/// `(x, y)`: the last draw is the first that is taken, `x` is its element,
/// and `y` is the principal root with `(x, y)` on the curve.
pub open spec fn sampled_point(draws: Seq<(u64, u64, u64, u64)>, x: nat, y: nat) -> bool {
    &&& 0 < draws.len() <= MAX_DRAWS
    &&& forall|i: int| 0 <= i < draws.len() - 1 ==> !accepts(#[trigger] draws[i])
    &&& accepts(draws.last())
    &&& x == words_value(draws.last())
    &&& is_principal(y)
    &&& on_curve(x, y)
}

/// Whether a search that drew `draws` ended without a point: it has made all
/// the draws that it is allowed, and none was taken.
pub open spec fn sampled_none(draws: Seq<(u64, u64, u64, u64)>) -> bool {
    &&& draws.len() == MAX_DRAWS
    &&& forall|i: int| 0 <= i < draws.len() ==> !accepts(#[trigger] draws[i])
}

/// Whether `r` is what a search that drew `draws`, in that order, ends with:
/// the point above the element of the first draw that is taken, or no
/// residue where none of all the draws allowed is taken. A search never ends
/// for want of a root.
pub open spec fn sampled(
    draws: Seq<(u64, u64, u64, u64)>,
    r: Result<(Felt, Felt), SamplingError>,
) -> bool {
    match r {
        Ok(point) => sampled_point(draws, point.0@, point.1@),
        Err(SamplingError::NoResidue) => sampled_none(draws),
        Err(SamplingError::NoSquareRoot) => false,
    }
}

/// The number of draws after which the search for a point is given up. About
/// one draw in four gives a point, so none ever gets that far.
pub const MAX_DRAWS: u64 = 1_000_000;

/// Draws elements of the field from the generator, four words each, until
/// the curve has a point above one of them, and returns that point: the
/// element of the first draw that is taken, and the principal root of the
/// curve's right-hand side there. Whatever is drawn, the result is what the
/// draws give.
pub fn sample_ec_point(source: &mut StdRng) -> (r: Result<(Felt, Felt), SamplingError>)
    ensures
        r matches Ok(point) ==> is_residue(curve_rhs(point.0@)) && on_curve(point.0@, point.1@),
        exists|draws: Seq<(u64, u64, u64, u64)>| sampled(draws, r),
{
    let ghost mut draws: Seq<(u64, u64, u64, u64)> = Seq::empty();
    let mut left: u64 = MAX_DRAWS;
    while left > 0
        invariant
            left <= MAX_DRAWS,
            draws.len() == MAX_DRAWS - left,
            forall|i: int| 0 <= i < draws.len() ==> !accepts(#[trigger] draws[i]),
        decreases left,
    {
        left -= 1;
        let w3 = random_word(source);
        let w2 = random_word(source);
        let w1 = random_word(source);
        let w0 = random_word(source);
        let ghost before = draws;
        proof {
            draws = before.push((w3, w2, w1, w0));
            assert(forall|i: int| 0 <= i < draws.len() - 1 ==> draws[i] == before[i]);
        }
        match felt_of_words(w3, w2, w1, w0) {
            Some(x) => match ec_point_for(&x) {
                Ok(Some(y)) => {
                    let r = Ok((x, y));
                    proof {
                        assert(sampled(draws, r));
                    }
                    return r;
                },
                Ok(None) => {},
                Err(e) => {
                    let r = Err(e);
                    proof {
                        assert(sampled(draws, r));
                    }
                    return r;
                },
            },
            None => {},
        }
    }
    let r = Err(SamplingError::NoResidue);
    proof {
        assert(sampled(draws, r));
    }
    r
}

} // verus!
