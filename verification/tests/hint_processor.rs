use ark_std::rand::rngs::StdRng;
use ark_std::rand::SeedableRng;
use cairo_vm::types::relocatable::{MaybeRelocatable, Relocatable};
use cairo_vm::vm::runners::cairo_runner::RunResources;
use cairo_vm::vm::vm_core::VirtualMachine;
use cairo_vm::Felt252;
use juvix_cairo_vm::ec::SamplingError;
use juvix_cairo_vm::felt::Felt;
use juvix_cairo_vm::juvix_hint_processor::hint::Hint;
use juvix_cairo_vm::juvix_hint_processor::hint_processor::{HintError, JuvixHintProcessor};
use juvix_cairo_vm::program_input::{ProgramInput, Value};
use num_bigint::BigUint;

fn machine() -> VirtualMachine {
    let mut vm = VirtualMachine::new(false, false);
    vm.add_memory_segment();
    vm.add_memory_segment();
    vm
}

fn set_ap(vm: &mut VirtualMachine, ap: usize) {
    vm.set_ap(ap);
}

fn cell(vm: &VirtualMachine, segment: isize, offset: usize) -> Option<MaybeRelocatable> {
    vm.get_maybe(&Relocatable::from((segment, offset)))
}

fn word(n: u64) -> Option<MaybeRelocatable> {
    Some(MaybeRelocatable::Int(Felt252::from(n)))
}

fn pointer(segment: isize, offset: usize) -> Option<MaybeRelocatable> {
    Some(MaybeRelocatable::RelocatableValue(Relocatable::from((
        segment, offset,
    ))))
}

fn felt(n: u64) -> Value {
    Value::ValueFelt(Felt::from_u64(n))
}

fn source(seed: u64) -> StdRng {
    StdRng::seed_from_u64(seed)
}

fn processor(json: &str) -> JuvixHintProcessor {
    JuvixHintProcessor::new(ProgramInput::from_json(json).unwrap(), source(1))
}

#[test]
fn the_first_allocation_adds_a_segment() {
    let mut vm = machine();
    let mut hints = processor("{}");
    hints.execute(&mut vm, &Hint::Alloc(10)).unwrap();
    assert_eq!(vm.segments.num_segments(), 3);
    assert_eq!(cell(&vm, 1, 0), pointer(2, 0));
}

#[test]
fn allocations_hand_out_the_sums_of_the_sizes_before() {
    let mut vm = machine();
    let mut hints = processor("{}");
    let sizes = [3usize, 1, 10, 7];
    let mut expected = 0;
    for (i, size) in sizes.iter().enumerate() {
        set_ap(&mut vm, i);
        hints.execute(&mut vm, &Hint::Alloc(*size)).unwrap();
        assert_eq!(cell(&vm, 1, i), pointer(2, expected));
        expected += size;
    }
    assert_eq!(vm.segments.num_segments(), 3);
}

#[test]
fn an_allocation_of_nothing_hands_out_the_same_address_again() {
    let mut vm = machine();
    let mut hints = processor("{}");
    hints.execute(&mut vm, &Hint::Alloc(0)).unwrap();
    set_ap(&mut vm, 1);
    hints.execute(&mut vm, &Hint::Alloc(4)).unwrap();
    set_ap(&mut vm, 2);
    hints.execute(&mut vm, &Hint::Alloc(0)).unwrap();
    assert_eq!(cell(&vm, 1, 0), pointer(2, 0));
    assert_eq!(cell(&vm, 1, 1), pointer(2, 0));
    assert_eq!(cell(&vm, 1, 2), pointer(2, 4));
}

#[test]
fn an_allocation_beyond_the_segment_fails_and_writes_nothing() {
    let mut vm = machine();
    let mut hints = processor("{}");
    hints.execute(&mut vm, &Hint::Alloc(usize::MAX)).unwrap();
    set_ap(&mut vm, 1);
    assert!(matches!(
        hints.execute(&mut vm, &Hint::Alloc(1)),
        Err(HintError::AddressOverflow)
    ));
    assert_eq!(cell(&vm, 1, 1), None);
    hints.execute(&mut vm, &Hint::Alloc(0)).unwrap();
    assert_eq!(cell(&vm, 1, 1), pointer(2, usize::MAX));
}

#[test]
fn an_allocation_that_the_memory_refuses_does_not_move_the_cursor() {
    let mut vm = machine();
    let mut hints = processor("{}");
    vm.insert_value(Relocatable::from((1, 0)), Felt252::from(1))
        .unwrap();
    assert!(matches!(
        hints.alloc_constant_size(&mut vm, 5),
        Err(HintError::Memory(_))
    ));
    set_ap(&mut vm, 1);
    hints.alloc_constant_size(&mut vm, 5).unwrap();
    assert_eq!(cell(&vm, 1, 1), pointer(2, 0));
    assert_eq!(vm.segments.num_segments(), 3);
}

#[test]
fn a_scalar_input_goes_into_the_output_cell() {
    let mut vm = machine();
    let mut hints = processor(r#"{"x": 17, "b": false}"#);
    set_ap(&mut vm, 3);
    hints
        .execute(&mut vm, &Hint::Input(String::from("x")))
        .unwrap();
    set_ap(&mut vm, 4);
    hints
        .execute(&mut vm, &Hint::Input(String::from("b")))
        .unwrap();
    assert_eq!(cell(&vm, 1, 3), word(17));
    assert_eq!(cell(&vm, 1, 4), word(1));
    assert_eq!(vm.segments.num_segments(), 2);
}

#[test]
fn a_structured_input_gets_a_segment_of_its_own() {
    let mut vm = machine();
    let mut hints = processor(r#"{"l": [1, 2], "r": {"a": 5, "b": true}}"#);
    hints
        .execute(&mut vm, &Hint::Input(String::from("l")))
        .unwrap();
    set_ap(&mut vm, 1);
    hints
        .execute(&mut vm, &Hint::Input(String::from("r")))
        .unwrap();
    assert_eq!(vm.segments.num_segments(), 4);
    assert_eq!(cell(&vm, 1, 0), pointer(2, 0));
    assert_eq!(cell(&vm, 2, 0), word(1));
    assert_eq!(cell(&vm, 2, 1), word(1));
    assert_eq!(cell(&vm, 2, 2), pointer(2, 3));
    assert_eq!(cell(&vm, 2, 3), word(1));
    assert_eq!(cell(&vm, 2, 4), word(2));
    assert_eq!(cell(&vm, 2, 5), pointer(2, 6));
    assert_eq!(cell(&vm, 2, 6), word(0));
    assert_eq!(cell(&vm, 2, 7), None);
    assert_eq!(cell(&vm, 1, 1), pointer(3, 0));
    assert_eq!(cell(&vm, 3, 0), word(0));
    assert_eq!(cell(&vm, 3, 1), word(5));
    assert_eq!(cell(&vm, 3, 2), word(0));
    assert_eq!(cell(&vm, 3, 3), None);
}

#[test]
fn an_input_that_the_program_lacks_fails_and_changes_nothing() {
    let mut vm = machine();
    let mut hints = processor(r#"{"x": 17}"#);
    match hints.execute(&mut vm, &Hint::Input(String::from("y"))) {
        Err(HintError::MissingInput(name)) => assert_eq!(name, "y"),
        other => panic!("{other:?}"),
    }
    assert_eq!(cell(&vm, 1, 0), None);
    assert_eq!(vm.segments.num_segments(), 2);
    let hints = JuvixHintProcessor::new(ProgramInput::new(Vec::new()), source(1));
    assert!(matches!(
        hints.read_program_input(&mut vm, &String::from("x")),
        Err(HintError::MissingInput(_))
    ));
}

#[test]
fn an_input_takes_the_last_entry_of_its_name() {
    let mut vm = machine();
    let hints = JuvixHintProcessor::new(
        ProgramInput::new(vec![
            (String::from("x"), felt(1)),
            (String::from("x"), felt(2)),
        ]),
        source(1),
    );
    hints
        .read_program_input(&mut vm, &String::from("x"))
        .unwrap();
    assert_eq!(cell(&vm, 1, 0), word(2));
}

fn prime() -> BigUint {
    BigUint::parse_bytes(
        b"3618502788666131213697322783095070105623107215331596699973092056135872020481",
        10,
    )
    .unwrap()
}

fn beta() -> BigUint {
    BigUint::parse_bytes(
        b"3141592653589793238462643383279502884197169399375105820974944592307816406665",
        10,
    )
    .unwrap()
}

fn number(cell: Option<MaybeRelocatable>) -> BigUint {
    match cell {
        Some(MaybeRelocatable::Int(f)) => f.to_biguint(),
        other => panic!("{other:?}"),
    }
}

#[test]
fn a_random_point_lies_on_the_curve() {
    let mut vm = machine();
    let mut hints = processor("{}");
    for i in 0..20 {
        set_ap(&mut vm, 2 * i);
        hints.execute(&mut vm, &Hint::RandomEcPoint).unwrap();
        let x = number(cell(&vm, 1, 2 * i));
        let y = number(cell(&vm, 1, 2 * i + 1));
        let p = prime();
        assert!(x < p && y < p);
        assert!(y <= &p - &y);
        assert_eq!((&y * &y) % &p, (&x * &x * &x + &x + beta()) % &p);
    }
    assert_eq!(vm.segments.num_segments(), 2);
}

fn points_of_a_run(seed: u64, count: usize) -> Vec<(BigUint, BigUint)> {
    let mut vm = machine();
    let mut hints = JuvixHintProcessor::new(ProgramInput::new(Vec::new()), source(seed));
    let mut points = Vec::new();
    for i in 0..count {
        set_ap(&mut vm, 2 * i);
        hints.execute(&mut vm, &Hint::RandomEcPoint).unwrap();
        points.push((
            number(cell(&vm, 1, 2 * i)),
            number(cell(&vm, 1, 2 * i + 1)),
        ));
    }
    points
}

#[test]
fn the_points_of_a_run_come_from_one_stream() {
    let points = points_of_a_run(7, 8);
    for i in 0..points.len() {
        for j in 0..i {
            assert_ne!(points[i], points[j]);
        }
    }
    assert_eq!(points_of_a_run(7, 8), points);
    assert_ne!(points_of_a_run(8, 8), points);
}

#[test]
fn a_point_at_the_end_of_the_segment_fails() {
    let mut vm = machine();
    let mut hints = processor("{}");
    set_ap(&mut vm, usize::MAX - 1);
    assert!(hints.execute(&mut vm, &Hint::RandomEcPoint).is_err());
    set_ap(&mut vm, usize::MAX);
    assert!(hints.execute(&mut vm, &Hint::RandomEcPoint).is_err());
    assert!(hints.execute(&mut vm, &Hint::Alloc(1)).is_err());
}

#[test]
fn writes_a_point_into_two_cells() {
    let mut vm = machine();
    set_ap(&mut vm, 5);
    JuvixHintProcessor::write_ec_point(&mut vm, &Felt::from_u64(3), &Felt::from_u64(4)).unwrap();
    assert_eq!(cell(&vm, 1, 4), None);
    assert_eq!(cell(&vm, 1, 5), word(3));
    assert_eq!(cell(&vm, 1, 6), word(4));
    assert_eq!(cell(&vm, 1, 7), None);
}

#[test]
fn a_point_that_the_memory_refuses_fails() {
    let mut vm = machine();
    vm.insert_value(Relocatable::from((1, 1)), Felt252::from(9))
        .unwrap();
    assert!(matches!(
        JuvixHintProcessor::write_ec_point(&mut vm, &Felt::from_u64(3), &Felt::from_u64(4)),
        Err(HintError::Memory(_))
    ));
    assert_eq!(cell(&vm, 1, 0), word(3));
    assert_eq!(cell(&vm, 1, 1), word(9));
}

#[test]
fn the_steps_are_not_counted() {
    let mut hints = processor("{}");
    assert!(!hints.consumed());
    assert_eq!(hints.get_n_steps(), None);
    hints.consume_step();
    assert!(!hints.consumed());
    assert_eq!(hints.get_n_steps(), None);
    assert_eq!(hints.run_resources(), &RunResources::default());
}

#[test]
fn sampling_errors_are_told_apart() {
    assert_ne!(SamplingError::NoSquareRoot, SamplingError::NoResidue);
}
