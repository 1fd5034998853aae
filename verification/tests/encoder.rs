use cairo_vm::types::relocatable::{MaybeRelocatable, Relocatable};
use cairo_vm::vm::vm_core::VirtualMachine;
use cairo_vm::Felt252;
use juvix_cairo_vm::felt::Felt;
use juvix_cairo_vm::juvix_hint_processor::hint_processor::{read_value_input, HintError};
use juvix_cairo_vm::memory::Address;
use juvix_cairo_vm::program_input::Value;

fn machine(segments: usize) -> VirtualMachine {
    let mut vm = VirtualMachine::new(false, false);
    for _ in 0..segments {
        vm.add_memory_segment();
    }
    vm
}

fn cell(vm: &VirtualMachine, segment: isize, offset: usize) -> Option<MaybeRelocatable> {
    vm.get_maybe(&Relocatable::from((segment, offset)))
}

fn word(n: u64) -> Option<MaybeRelocatable> {
    Some(MaybeRelocatable::Int(Felt252::from(n)))
}

fn pointer(segment: isize, offset: usize) -> Option<MaybeRelocatable> {
    Some(MaybeRelocatable::RelocatableValue(Relocatable::from((
        segment, offset,
    ))))
}

fn felt(n: u64) -> Value {
    Value::ValueFelt(Felt::from_u64(n))
}

fn field(name: &str, value: Value) -> (String, Value) {
    (String::from(name), value)
}

fn at(segment: isize, offset: usize) -> Address {
    Address { segment, offset }
}

#[test]
fn writes_a_field_element_into_one_cell() {
    let mut vm = machine(3);
    assert_eq!(read_value_input(&mut vm, at(2, 4), &felt(77)).unwrap(), 1);
    assert_eq!(cell(&vm, 2, 4), word(77));
    assert_eq!(cell(&vm, 2, 3), None);
    assert_eq!(cell(&vm, 2, 5), None);
}

#[test]
fn writes_a_large_field_element_exactly() {
    let mut vm = machine(1);
    let value = Felt::from_be_digits(0x0800000000000011, 0, 0, 0).unwrap();
    read_value_input(&mut vm, at(0, 0), &Value::ValueFelt(value)).unwrap();
    assert_eq!(
        cell(&vm, 0, 0),
        Some(MaybeRelocatable::Int(Felt252::MAX))
    );
    let mixed = Felt::from_be_digits(1, 2, 3, 4).unwrap();
    read_value_input(&mut vm, at(0, 1), &Value::ValueFelt(mixed)).unwrap();
    let expected = Felt252::from_hex(
        "0x0000000000000001000000000000000200000000000000030000000000000004",
    )
    .unwrap();
    assert_eq!(cell(&vm, 0, 1), Some(MaybeRelocatable::Int(expected)));
}

#[test]
fn writes_true_as_zero_and_false_as_one() {
    let mut vm = machine(1);
    assert_eq!(
        read_value_input(&mut vm, at(0, 0), &Value::ValueBool(true)).unwrap(),
        1
    );
    assert_eq!(
        read_value_input(&mut vm, at(0, 1), &Value::ValueBool(false)).unwrap(),
        1
    );
    assert_eq!(cell(&vm, 0, 0), word(0));
    assert_eq!(cell(&vm, 0, 1), word(1));
}

#[test]
fn writes_a_list_of_two_scalars_as_seven_cells() {
    let mut vm = machine(2);
    let list = Value::ValueList(vec![felt(1), felt(2)]);
    assert_eq!(read_value_input(&mut vm, at(1, 10), &list).unwrap(), 7);
    assert_eq!(cell(&vm, 1, 10), word(1));
    assert_eq!(cell(&vm, 1, 11), word(1));
    assert_eq!(cell(&vm, 1, 12), pointer(1, 13));
    assert_eq!(cell(&vm, 1, 13), word(1));
    assert_eq!(cell(&vm, 1, 14), word(2));
    assert_eq!(cell(&vm, 1, 15), pointer(1, 16));
    assert_eq!(cell(&vm, 1, 16), word(0));
    assert_eq!(cell(&vm, 1, 17), None);
    assert_eq!(cell(&vm, 1, 9), None);
}

#[test]
fn writes_an_empty_list_as_one_cell() {
    let mut vm = machine(1);
    assert_eq!(
        read_value_input(&mut vm, at(0, 0), &Value::ValueList(Vec::new())).unwrap(),
        1
    );
    assert_eq!(cell(&vm, 0, 0), word(0));
    assert_eq!(cell(&vm, 0, 1), None);
}

#[test]
fn writes_a_record_of_two_scalars_as_three_cells() {
    let mut vm = machine(1);
    let record = Value::ValueRecord(vec![
        field("a", felt(5)),
        field("b", Value::ValueBool(true)),
    ]);
    assert_eq!(read_value_input(&mut vm, at(0, 20), &record).unwrap(), 3);
    assert_eq!(cell(&vm, 0, 20), word(0));
    assert_eq!(cell(&vm, 0, 21), word(5));
    assert_eq!(cell(&vm, 0, 22), word(0));
    assert_eq!(cell(&vm, 0, 23), None);
}

#[test]
fn writes_an_empty_record_as_its_header() {
    let mut vm = machine(1);
    assert_eq!(
        read_value_input(&mut vm, at(0, 0), &Value::ValueRecord(Vec::new())).unwrap(),
        1
    );
    assert_eq!(cell(&vm, 0, 0), word(0));
    assert_eq!(cell(&vm, 0, 1), None);
}

#[test]
fn puts_the_bodies_of_a_record_after_its_fields() {
    let mut vm = machine(1);
    let record = Value::ValueRecord(vec![
        field("x", felt(9)),
        field("l", Value::ValueList(vec![felt(4)])),
        field("r", Value::ValueRecord(vec![field("y", Value::ValueBool(false))])),
        field("z", felt(8)),
    ]);
    // header, four fields, a list of four cells and a record of two
    assert_eq!(read_value_input(&mut vm, at(0, 0), &record).unwrap(), 11);
    assert_eq!(cell(&vm, 0, 0), word(0));
    assert_eq!(cell(&vm, 0, 1), word(9));
    assert_eq!(cell(&vm, 0, 2), pointer(0, 5));
    assert_eq!(cell(&vm, 0, 3), pointer(0, 9));
    assert_eq!(cell(&vm, 0, 4), word(8));
    // the list
    assert_eq!(cell(&vm, 0, 5), word(1));
    assert_eq!(cell(&vm, 0, 6), word(4));
    assert_eq!(cell(&vm, 0, 7), pointer(0, 8));
    assert_eq!(cell(&vm, 0, 8), word(0));
    // the record
    assert_eq!(cell(&vm, 0, 9), word(0));
    assert_eq!(cell(&vm, 0, 10), word(1));
    assert_eq!(cell(&vm, 0, 11), None);
}

#[test]
fn puts_the_body_of_an_item_after_its_node() {
    let mut vm = machine(1);
    let list = Value::ValueList(vec![
        Value::ValueList(vec![felt(7)]),
        felt(3),
        Value::ValueRecord(vec![field("a", felt(6))]),
    ]);
    // three nodes, a list of four cells, a record of two, and the end
    assert_eq!(read_value_input(&mut vm, at(0, 0), &list).unwrap(), 16);
    // first node, and the list that is its item
    assert_eq!(cell(&vm, 0, 0), word(1));
    assert_eq!(cell(&vm, 0, 1), pointer(0, 3));
    assert_eq!(cell(&vm, 0, 2), pointer(0, 7));
    assert_eq!(cell(&vm, 0, 3), word(1));
    assert_eq!(cell(&vm, 0, 4), word(7));
    assert_eq!(cell(&vm, 0, 5), pointer(0, 6));
    assert_eq!(cell(&vm, 0, 6), word(0));
    // second node
    assert_eq!(cell(&vm, 0, 7), word(1));
    assert_eq!(cell(&vm, 0, 8), word(3));
    assert_eq!(cell(&vm, 0, 9), pointer(0, 10));
    // third node, and the record that is its item
    assert_eq!(cell(&vm, 0, 10), word(1));
    assert_eq!(cell(&vm, 0, 11), pointer(0, 13));
    assert_eq!(cell(&vm, 0, 12), pointer(0, 15));
    assert_eq!(cell(&vm, 0, 13), word(0));
    assert_eq!(cell(&vm, 0, 14), word(6));
    // the end
    assert_eq!(cell(&vm, 0, 15), word(0));
    assert_eq!(cell(&vm, 0, 16), None);
}

#[test]
fn leaves_the_other_cells_alone() {
    let mut vm = machine(2);
    vm.insert_value(Relocatable::from((0, 1)), Felt252::from(42))
        .unwrap();
    vm.insert_value(Relocatable::from((1, 0)), Felt252::from(43))
        .unwrap();
    read_value_input(&mut vm, at(0, 2), &Value::ValueList(vec![felt(1)])).unwrap();
    assert_eq!(cell(&vm, 0, 0), None);
    assert_eq!(cell(&vm, 0, 1), word(42));
    assert_eq!(cell(&vm, 1, 0), word(43));
    assert_eq!(cell(&vm, 1, 1), None);
}

#[test]
fn fails_in_a_segment_that_the_memory_does_not_have() {
    let mut vm = machine(1);
    assert!(matches!(
        read_value_input(&mut vm, at(5, 0), &felt(1)),
        Err(HintError::Memory(_))
    ));
    assert!(matches!(
        read_value_input(&mut vm, at(1, 0), &Value::ValueList(vec![felt(1)])),
        Err(HintError::Memory(_))
    ));
}

#[test]
fn fails_on_a_cell_that_holds_something_else() {
    let mut vm = machine(1);
    vm.insert_value(Relocatable::from((0, 1)), Felt252::from(42))
        .unwrap();
    let record = Value::ValueRecord(vec![field("a", felt(5)), field("b", felt(6))]);
    assert!(matches!(
        read_value_input(&mut vm, at(0, 0), &record),
        Err(HintError::Memory(_))
    ));
    // the header was written before the write that failed, the rest was not
    assert_eq!(cell(&vm, 0, 0), word(0));
    assert_eq!(cell(&vm, 0, 1), word(42));
    assert_eq!(cell(&vm, 0, 2), None);
}

#[test]
fn takes_a_cell_that_holds_the_same_already() {
    let mut vm = machine(1);
    vm.insert_value(Relocatable::from((0, 0)), Felt252::from(5))
        .unwrap();
    assert_eq!(read_value_input(&mut vm, at(0, 0), &felt(5)).unwrap(), 1);
    assert_eq!(cell(&vm, 0, 0), word(5));
}

#[test]
fn fails_where_the_segment_ends() {
    let mut vm = machine(1);
    let list = Value::ValueList(vec![felt(1)]);
    assert!(matches!(
        read_value_input(&mut vm, at(0, usize::MAX - 1), &list),
        Err(HintError::AddressOverflow)
    ));
    let record = Value::ValueRecord(vec![field("a", felt(1))]);
    assert!(matches!(
        read_value_input(&mut vm, at(0, usize::MAX), &record),
        Err(HintError::Memory(_)) | Err(HintError::AddressOverflow)
    ));
}

#[test]
fn moves_an_address_within_its_segment() {
    assert_eq!(at(3, 4).add_offset(5), Some(at(3, 9)));
    assert_eq!(at(-1, 0).add_offset(0), Some(at(-1, 0)));
    assert_eq!(at(0, usize::MAX - 1).add_offset(1), Some(at(0, usize::MAX)));
    assert_eq!(at(0, usize::MAX).add_offset(1), None);
    assert_eq!(at(0, 1).add_offset(usize::MAX), None);
}
