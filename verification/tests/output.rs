use juvix_cairo_vm::felt::Felt;
use juvix_cairo_vm::output::{encode_memory, encode_trace, TraceEntry};

#[test]
fn encodes_a_trace_register_by_register() {
    assert_eq!(encode_trace(&Vec::new()), Vec::<u8>::new());
    let trace = vec![
        TraceEntry {
            pc: 1,
            ap: 0x0102,
            fp: 3,
        },
        TraceEntry {
            pc: 0x0a0b0c0d,
            ap: 5,
            fp: 6,
        },
    ];
    let mut expected = Vec::new();
    for word in [0x0102u64, 3, 1, 5, 6, 0x0a0b0c0d] {
        expected.extend_from_slice(&word.to_le_bytes());
    }
    assert_eq!(encode_trace(&trace), expected);
    assert_eq!(&expected[..8], &[2, 1, 0, 0, 0, 0, 0, 0]);
}

#[test]
fn encodes_the_cells_that_hold_something() {
    assert_eq!(encode_memory(&Vec::new()), Vec::<u8>::new());
    assert_eq!(encode_memory(&vec![None, None]), Vec::<u8>::new());
    let memory = vec![
        None,
        Some(Felt::from_u64(0x0102)),
        None,
        Some(Felt::from_be_digits(1, 2, 3, 4).unwrap()),
    ];
    let mut expected = Vec::new();
    expected.extend_from_slice(&1u64.to_le_bytes());
    expected.extend_from_slice(&[2, 1]);
    expected.extend_from_slice(&[0; 30]);
    expected.extend_from_slice(&3u64.to_le_bytes());
    for digit in [4u64, 3, 2, 1] {
        expected.extend_from_slice(&digit.to_le_bytes());
    }
    assert_eq!(encode_memory(&memory), expected);
    assert_eq!(expected.len(), 80);
}

#[test]
fn gives_the_bytes_of_an_element() {
    let mut expected = vec![0u8; 32];
    expected[0] = 7;
    assert_eq!(Felt::from_u64(7).to_bytes_le(), expected);
    let top = Felt::from_be_digits(0x0800000000000011, 0, 0, 0).unwrap();
    let mut expected = vec![0u8; 32];
    expected[24] = 0x11;
    expected[31] = 0x08;
    assert_eq!(top.to_bytes_le(), expected);
}
