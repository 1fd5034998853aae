use crate::felt::{le_bytes, Felt};
use vstd::bytes::{spec_u64_to_le_bytes, u64_to_le_bytes};
use vstd::prelude::*;

verus! {

/// One step of a relocated trace: the three registers of the machine.
#[derive(Clone, Copy, Debug, PartialEq, Eq, Structural)]
pub struct TraceEntry {
    pub pc: usize,
    pub ap: usize,
    pub fp: usize,
}

/// The bytes of one step: `ap`, `fp` and `pc`, each as eight bytes, least
/// significant first.
pub open spec fn entry_bytes(entry: TraceEntry) -> Seq<u8> {
    spec_u64_to_le_bytes(entry.ap as u64) + spec_u64_to_le_bytes(entry.fp as u64)
        + spec_u64_to_le_bytes(entry.pc as u64)
}

/// The bytes of the first `n` steps of a trace, one step after the other.
pub open spec fn trace_bytes(trace: Seq<TraceEntry>, n: nat) -> Seq<u8>
    decreases n,
{
    if n == 0 || n > trace.len() {
        Seq::empty()
    } else {
        trace_bytes(trace, (n - 1) as nat) + entry_bytes(trace[n - 1])
    }
}

/// The bytes of the first `n` cells of a relocated memory: for each cell
/// that holds something its index as eight bytes and its element as 32, least
/// significant first.
pub open spec fn memory_bytes(memory: Seq<Option<Felt>>, n: nat) -> Seq<u8>
    decreases n,
{
    if n == 0 || n > memory.len() {
        Seq::empty()
    } else {
        match memory[n - 1] {
            Some(value) => memory_bytes(memory, (n - 1) as nat) + spec_u64_to_le_bytes(
                (n - 1) as u64,
            ) + le_bytes(value@),
            None => memory_bytes(memory, (n - 1) as nat),
        }
    }
}

/// Encodes a relocated trace.
pub fn encode_trace(trace: &Vec<TraceEntry>) -> (r: Vec<u8>)
    ensures
        r@ == trace_bytes(trace@, trace@.len()),
{
    let mut output: Vec<u8> = Vec::with_capacity(3 * 1024 * 1024);
    let mut i: usize = 0;
    while i < trace.len()
        invariant
            i <= trace.len(),
            output@ == trace_bytes(trace@, i as nat),
        decreases trace.len() - i,
    {
        let entry = trace[i];
        let mut ap = u64_to_le_bytes(entry.ap as u64);
        let mut fp = u64_to_le_bytes(entry.fp as u64);
        let mut pc = u64_to_le_bytes(entry.pc as u64);
        output.append(&mut ap);
        output.append(&mut fp);
        output.append(&mut pc);
        proof {
            assert(output@ == trace_bytes(trace@, i as nat) + entry_bytes(entry));
        }
        i += 1;
    }
    output
}

/// Encodes a relocated memory.
pub fn encode_memory(memory: &Vec<Option<Felt>>) -> (r: Vec<u8>)
    ensures
        r@ == memory_bytes(memory@, memory@.len()),
{
    let mut output: Vec<u8> = Vec::with_capacity(1024 * 1024);
    let mut i: usize = 0;
    while i < memory.len()
        invariant
            i <= memory.len(),
            output@ == memory_bytes(memory@, i as nat),
        decreases memory.len() - i,
    {
        match &memory[i] {
            None => {},
            Some(value) => {
                let mut index = u64_to_le_bytes(i as u64);
                let mut bytes = value.to_bytes_le();
                output.append(&mut index);
                output.append(&mut bytes);
                proof {
                    assert(output@ == memory_bytes(memory@, i as nat) + spec_u64_to_le_bytes(
                        i as u64,
                    ) + le_bytes(value@));
                }
            },
        }
        i += 1;
    }
    output
}

} // verus!
