use juvix_cairo_vm::Args;

fn args() -> Args {
    Args {
        filename: String::from("program.json"),
        program_input: None,
        trace_file: None,
        print_output: false,
        entrypoint: String::from("main"),
        memory_file: None,
        layout: String::from("plain"),
        proof_mode: false,
        secure_run: None,
        air_public_input: None,
        air_private_input: None,
        cairo_pie_output: None,
        allow_missing_builtins: None,
    }
}

#[test]
fn a_trace_file_or_a_public_input_asks_for_a_trace() {
    assert!(!args().trace_enabled());
    let mut with_trace = args();
    with_trace.trace_file = Some(String::from("trace"));
    assert!(with_trace.trace_enabled());
    assert!(!with_trace.relocate_mem());
    let mut with_public_input = args();
    with_public_input.air_public_input = Some(String::from("public"));
    assert!(with_public_input.trace_enabled());
    let mut with_memory = args();
    with_memory.memory_file = Some(String::from("memory"));
    assert!(!with_memory.trace_enabled());
}

#[test]
fn a_memory_file_or_a_public_input_asks_for_relocation() {
    assert!(!args().relocate_mem());
    let mut with_memory = args();
    with_memory.memory_file = Some(String::from("memory"));
    assert!(with_memory.relocate_mem());
    let mut with_public_input = args();
    with_public_input.air_public_input = Some(String::from("public"));
    assert!(with_public_input.relocate_mem());
    let mut with_private_input = args();
    with_private_input.air_private_input = Some(String::from("private"));
    assert!(!with_private_input.relocate_mem());
}
