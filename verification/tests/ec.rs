use ark_std::rand::rngs::StdRng;
use ark_std::rand::{RngCore, SeedableRng};
use juvix_cairo_vm::ec::{
    ec_point_for, eval_curve_rhs, felt_of_words, is_quadratic_residue, sample_ec_point,
};
use juvix_cairo_vm::felt::Felt;
use num_bigint::BigUint;

fn prime() -> BigUint {
    BigUint::parse_bytes(
        b"3618502788666131213697322783095070105623107215331596699973092056135872020481",
        10,
    )
    .unwrap()
}

fn beta() -> BigUint {
    BigUint::parse_bytes(
        b"3141592653589793238462643383279502884197169399375105820974944592307816406665",
        10,
    )
    .unwrap()
}

fn number(f: &Felt) -> BigUint {
    let (d3, d2, d1, d0) = f.to_be_digits();
    (((BigUint::from(d3) << 64) + d2 << 64) + d1 << 64) + d0
}

fn element(text: &str) -> Felt {
    Felt::from_decimal(text).unwrap()
}

const GENERATOR_X: &str =
    "874739451078007766457464989774322083649278607533249481151382481072868806602";
const GENERATOR_Y: &str =
    "152666792071518830868575557812948353041420400780739481342941381225525861407";

#[test]
fn evaluates_the_curve() {
    assert_eq!(number(&eval_curve_rhs(&Felt::zero())), beta());
    assert_eq!(
        number(&eval_curve_rhs(&Felt::one())),
        (beta() + 2u32) % prime()
    );
    assert_eq!(
        number(&eval_curve_rhs(&Felt::from_u64(3))),
        (beta() + 30u32) % prime()
    );
    let x = element(GENERATOR_X);
    let y = number(&element(GENERATOR_Y));
    assert_eq!(number(&eval_curve_rhs(&x)), (&y * &y) % prime());
    let large = Felt::from_be_digits(0x0800000000000011, 0, 0, 0).unwrap();
    // the element before the prime is -1: -1 - 1 + beta
    assert_eq!(
        number(&eval_curve_rhs(&large)),
        (beta() + prime() - 2u32) % prime()
    );
}

#[test]
fn tells_residues_by_eulers_criterion() {
    assert!(is_quadratic_residue(&Felt::one()));
    assert!(is_quadratic_residue(&Felt::from_u64(4)));
    assert!(is_quadratic_residue(&Felt::from_u64(9)));
    assert!(!is_quadratic_residue(&Felt::zero()));
    // 3 generates the multiplicative group of the field
    assert!(!is_quadratic_residue(&Felt::from_u64(3)));
    assert!(!is_quadratic_residue(&Felt::from_u64(12)));
    for n in 1..50u64 {
        let square = number(&Felt::from_u64(n)).modpow(&BigUint::from(2u32), &prime());
        let digits = square.to_u64_digits();
        let f = Felt::from_be_digits(0, 0, 0, digits[0]).unwrap();
        assert!(is_quadratic_residue(&f));
        let euler = number(&Felt::from_u64(n)).modpow(&((prime() - 1u32) / 2u32), &prime());
        assert_eq!(
            is_quadratic_residue(&Felt::from_u64(n)),
            euler == BigUint::from(1u32)
        );
    }
}

#[test]
fn finds_the_point_above_the_generator() {
    let x = element(GENERATOR_X);
    let y = ec_point_for(&x).unwrap().unwrap();
    let p = prime();
    let found = number(&y);
    let known = number(&element(GENERATOR_Y));
    assert!(found == known || found == &p - &known);
    assert_eq!((&found * &found) % &p, number(&eval_curve_rhs(&x)));
}

#[test]
fn finds_a_point_exactly_where_the_curve_has_one() {
    let p = prime();
    let mut found = 0;
    for n in 0..200u64 {
        let x = Felt::from_u64(n);
        let rhs = number(&eval_curve_rhs(&x));
        let euler = rhs.modpow(&((&p - 1u32) / 2u32), &p);
        match ec_point_for(&x).unwrap() {
            Some(y) => {
                found += 1;
                assert_eq!(euler, BigUint::from(1u32));
                let y = number(&y);
                assert_eq!((&y * &y) % &p, rhs);
            }
            None => assert_ne!(euler, BigUint::from(1u32)),
        }
    }
    assert!(found > 50 && found < 150);
}

#[test]
fn makes_an_element_of_four_words() {
    assert_eq!(felt_of_words(0, 0, 0, 5), Some(Felt::from_u64(5)));
    assert_eq!(
        felt_of_words(0xf000000000000001, 2, 3, 4),
        Felt::from_be_digits(1, 2, 3, 4)
    );
    assert_eq!(
        felt_of_words(0xf800000000000011, 0, 0, 0),
        Felt::from_be_digits(0x0800000000000011, 0, 0, 0)
    );
    assert_eq!(felt_of_words(0x0800000000000011, 0, 0, 1), None);
    assert_eq!(felt_of_words(u64::MAX, u64::MAX, u64::MAX, u64::MAX), None);
}

#[test]
fn samples_points_of_the_curve() {
    let p = prime();
    let mut source = StdRng::seed_from_u64(3);
    let mut seen = Vec::new();
    for _ in 0..30 {
        let (x, y) = sample_ec_point(&mut source).unwrap();
        let (x, y) = (number(&x), number(&y));
        assert_eq!((&y * &y) % &p, (&x * &x * &x + &x + beta()) % &p);
        assert!(y <= &p - &y);
        seen.push(x);
    }
    seen.sort();
    seen.dedup();
    assert!(seen.len() > 1);
}

#[test]
fn takes_the_first_draw_that_gives_a_point() {
    let mut source = StdRng::seed_from_u64(11);
    let mut replay = source.clone();
    let (x, y) = sample_ec_point(&mut source).unwrap();
    loop {
        let (w3, w2, w1, w0) = (
            replay.next_u64(),
            replay.next_u64(),
            replay.next_u64(),
            replay.next_u64(),
        );
        if let Some(candidate) = felt_of_words(w3, w2, w1, w0) {
            if let Some(root) = ec_point_for(&candidate).unwrap() {
                assert_eq!((candidate, root), (x, y));
                break;
            }
        }
    }
    // the search has drawn no word beyond those of the draw that it took
    assert_eq!(source.next_u64(), replay.next_u64());
}

#[test]
fn returns_the_principal_root() {
    let p = prime();
    for n in 0..200u64 {
        if let Some(y) = ec_point_for(&Felt::from_u64(n)).unwrap() {
            let y = number(&y);
            assert!(y <= &p - &y);
        }
    }
}
