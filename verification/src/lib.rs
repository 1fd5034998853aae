pub mod ec;
pub mod felt;
pub mod json;
pub mod juvix_hint_processor;
pub mod memory;
pub mod output;
pub mod program_input;
pub mod text;

use crate::text::same_text;
use vstd::prelude::*;
use vstd::string::StringExecFns;

verus! {

/// What the command line asks for.
#[derive(Debug)]
pub struct Args {
    pub filename: String,
    pub program_input: Option<String>,
    pub trace_file: Option<String>,
    pub print_output: bool,
    pub entrypoint: String,
    pub memory_file: Option<String>,
    pub layout: String,
    pub proof_mode: bool,
    pub secure_run: Option<bool>,
    pub air_public_input: Option<String>,
    pub air_private_input: Option<String>,
    pub cairo_pie_output: Option<String>,
    pub allow_missing_builtins: Option<bool>,
}

impl Args {
    /// Whether the run records a trace: a trace file or the public input of
    /// a proof needs one.
    pub fn trace_enabled(&self) -> (r: bool)
        ensures
            r == (self.trace_file.is_some() || self.air_public_input.is_some()),
    {
        self.trace_file.is_some() || self.air_public_input.is_some()
    }

    /// Whether the run relocates its memory: a memory file or the public
    /// input of a proof needs that.
    pub fn relocate_mem(&self) -> (r: bool)
        ensures
            r == (self.memory_file.is_some() || self.air_public_input.is_some()),
    {
        self.memory_file.is_some() || self.air_public_input.is_some()
    }
}

/// Whether a text names one of the machine's layouts.
pub open spec fn is_layout(name: Seq<char>) -> bool {
    ||| name == "plain"@
    ||| name == "small"@
    ||| name == "dex"@
    ||| name == "recursive"@
    ||| name == "starknet"@
    ||| name == "starknet_with_keccak"@
    ||| name == "recursive_large_output"@
    ||| name == "all_cairo"@
    ||| name == "all_solidity"@
    ||| name == "dynamic"@
}

/// The name of a layout, as it was given, or a message that says that the
/// text names none.
pub fn validate_layout(value: &str) -> (r: Result<String, String>)
    ensures
        match r {
            Ok(name) => is_layout(value@) && name@ == value@,
            Err(message) => !is_layout(value@) && message@ == value@ + " is not a valid layout"@,
        },
{
    if same_text(value, "plain") || same_text(value, "small") || same_text(value, "dex")
        || same_text(value, "recursive") || same_text(value, "starknet") || same_text(
        value,
        "starknet_with_keccak",
    ) || same_text(value, "recursive_large_output") || same_text(value, "all_cairo") || same_text(
        value,
        "all_solidity",
    ) || same_text(value, "dynamic") {
        Ok(value.to_owned())
    } else {
        Err(value.to_owned().concat(" is not a valid layout"))
    }
}

} // verus!
