use crate::ec::{
    sample_ec_point, sampled, sampled_none, sampled_point, words_value, SamplingError,
};
use crate::felt::Felt;
use crate::juvix_hint_processor::encoding::{
    body_cells, body_size, extra_size, fields_cells, fields_extra, input_cells, is_scalar,
    items_span, lemma_fields_cells_grow, lemma_fields_extra_grows, lemma_items_span_grows,
    lemma_nodes_cells_grow, lemma_wrote_then, lemma_wrote_within, nodes_cells, point_cells,
    scalar_word, slot_cells,
};
use crate::juvix_hint_processor::hint::{Hint, HintView};
use crate::juvix_hint_processor::hint_parser::{
    error_message, parse_hint, parse_text, ParseFailure, ParseHintError,
};
use crate::memory::{
    covers, vm_add_memory_segment, vm_ap, vm_get_ap, vm_insert, vm_memory, vm_segments, wrote,
    Address, Cells, Word, WordView,
};
use crate::program_input::{
    fields_view, items_view, lemma_fields_view, lemma_items_view, ProgramInput, Value, ValueView,
};
use ark_std::rand::rngs::StdRng;
use cairo_vm::vm::errors::memory_errors::MemoryError;
use cairo_vm::vm::runners::cairo_runner::{ResourceTracker, RunResources};
use cairo_vm::vm::vm_core::VirtualMachine;
use vstd::prelude::*;

verus! {

/// Why a hint failed.
#[derive(Debug)]
pub enum HintError {
    /// The machine's memory refused a write; its own error.
    Memory(MemoryError),
    /// An address would lie beyond the end of its segment.
    AddressOverflow,
    /// The program has no input of that name.
    MissingInput(String),
    /// No point of the curve was found.
    Sampling(SamplingError),
}

/// Whether nothing but the cells of the machine's memory has changed.
pub open spec fn same_frame(before: VirtualMachine, after: VirtualMachine) -> bool {
    &&& vm_segments(after) == vm_segments(before)
    &&& vm_ap(after) == vm_ap(before)
}

/// Writes a field element into the cell at `addr`.
fn read_felt_input(vm: &mut VirtualMachine, addr: Address, v: &Felt) -> (r: Result<usize, HintError>)
    ensures
        wrote(
            vm_memory(*old(vm)),
            vm_memory(*final(vm)),
            map![addr@ => WordView::Felt(v@)],
            r is Ok,
        ),
        same_frame(*old(vm), *final(vm)),
        r matches Ok(n) ==> n == 1 && addr.offset + 1 <= usize::MAX,
        r matches Err(e) ==> e is Memory,
{
    match vm_insert(vm, addr, Word::Felt(*v)) {
        Ok(()) => Ok(1),
        Err(e) => Err(HintError::Memory(e)),
    }
}

/// Writes a boolean into the cell at `addr`: 0 for `true`, 1 for `false`.
fn read_bool_input(vm: &mut VirtualMachine, addr: Address, v: bool) -> (r: Result<usize, HintError>)
    ensures
        wrote(
            vm_memory(*old(vm)),
            vm_memory(*final(vm)),
            map![addr@ => scalar_word(ValueView::Bool(v))],
            r is Ok,
        ),
        same_frame(*old(vm), *final(vm)),
        r matches Ok(n) ==> n == 1 && addr.offset + 1 <= usize::MAX,
        r matches Err(e) ==> e is Memory,
{
    let word = if v {
        Felt::zero()
    } else {
        Felt::one()
    };
    match vm_insert(vm, addr, Word::Felt(word)) {
        Ok(()) => Ok(1),
        Err(e) => Err(HintError::Memory(e)),
    }
}

/// Writes the encoding of a value into the memory, from `addr` on, and
/// returns the number of cells that it takes.
///
/// An encoding that would run beyond the end of the segment fails; the
/// memory's own refusals apart, nothing else does.
pub fn read_value_input(vm: &mut VirtualMachine, addr: Address, val: &Value) -> (r: Result<
    usize,
    HintError,
>)
    ensures
        wrote(
            vm_memory(*old(vm)),
            vm_memory(*final(vm)),
            body_cells(val@, addr@.0, addr@.1),
            r is Ok,
        ),
        same_frame(*old(vm), *final(vm)),
        r matches Ok(n) ==> n == body_size(val@) && addr.offset + body_size(val@) <= usize::MAX,
        r matches Err(e) ==> e is Memory || (e is AddressOverflow && !is_scalar(val@)
            && addr.offset + body_size(val@) > usize::MAX),
    decreases val, 2nat,
{
    match val {
        Value::ValueFelt(v) => read_felt_input(vm, addr, v),
        Value::ValueBool(v) => read_bool_input(vm, addr, *v),
        Value::ValueRecord(v) => read_record_input(vm, addr, v),
        Value::ValueList(v) => read_list_input(vm, addr, v),
    }
}

/// Writes a record from `addr` on: the header, then each field in the
/// declared order, each body where the last one ended.
fn read_record_input(vm: &mut VirtualMachine, addr: Address, fields: &Vec<(String, Value)>) -> (r:
    Result<usize, HintError>)
    ensures
        wrote(
            vm_memory(*old(vm)),
            vm_memory(*final(vm)),
            body_cells(ValueView::Record(fields_view(fields@, fields@.len())), addr@.0, addr@.1),
            r is Ok,
        ),
        same_frame(*old(vm), *final(vm)),
        r matches Ok(n) ==> n == body_size(ValueView::Record(fields_view(fields@, fields@.len())))
            && addr.offset + n <= usize::MAX,
        r matches Err(e) ==> e is Memory || (e is AddressOverflow && addr.offset + body_size(
            ValueView::Record(fields_view(fields@, fields@.len())),
        ) > usize::MAX),
    decreases fields, 0nat,
{
    let ghost views = fields_view(fields@, fields@.len());
    let ghost m0 = vm_memory(*vm);
    let ghost seg = addr@.0;
    let ghost at = addr@.1;
    let ghost header: Cells = map![addr@ => WordView::Felt(0)];
    let ghost all = body_cells(ValueView::Record(views), seg, at);
    let n = fields.len();
    proof {
        lemma_fields_view(fields@, fields@.len());
        lemma_fields_extra_grows(views, 0, n as nat);
    }
    match vm_insert(vm, addr, Word::Felt(Felt::zero())) {
        Ok(()) => {},
        Err(e) => {
            proof {
                lemma_wrote_within(m0, vm_memory(*vm), header, all);
            }
            return Err(HintError::Memory(e));
        },
    }
    let first = match n.checked_add(1) {
        Some(k) => addr.add_offset(k),
        None => None,
    };
    let mut addr1 = match first {
        Some(a) => a,
        None => {
            proof {
                lemma_wrote_within(m0, vm_memory(*vm), header, all);
            }
            return Err(HintError::AddressOverflow);
        },
    };
    proof {
        assert(header.union_prefer_right(fields_cells(views, 0, seg, at)) =~= header);
    }
    let mut i: usize = 0;
    while i < n
        invariant
            i <= n,
            n == fields@.len(),
            views == fields_view(fields@, fields@.len()),
            views.len() == n,
            forall|k: int| 0 <= k < n ==> (#[trigger] views[k]) == (fields@[k].0@, fields@[k].1@),
            seg == addr@.0,
            at == addr@.1,
            header == map![addr@ => WordView::Felt(0)],
            all == body_cells(ValueView::Record(views), seg, at),
            m0 == vm_memory(*old(vm)),
            same_frame(*old(vm), *vm),
            wrote(
                m0,
                vm_memory(*vm),
                header.union_prefer_right(fields_cells(views, i as nat, seg, at)),
                true,
            ),
            addr1@ == (seg, at + 1 + n + fields_extra(views, i as nat)),
        decreases n - i,
    {
        let ghost m1 = vm_memory(*vm);
        let ghost done = header.union_prefer_right(fields_cells(views, i as nat, seg, at));
        let ghost step = slot_cells(views[i as int].1, seg, at + i + 1, addr1@.1);
        proof {
            lemma_fields_extra_grows(views, (i + 1) as nat, n as nat);
            lemma_fields_cells_grow(views, (i + 1) as nat, n as nat, seg, at);
            assert(done.union_prefer_right(step) =~= header.union_prefer_right(
                fields_cells(views, (i + 1) as nat, seg, at),
            ));
        }
        let addr0 = match addr.add_offset(i + 1) {
            Some(a) => a,
            None => {
                proof {
                    lemma_fields_cells_grow(views, i as nat, n as nat, seg, at);
                    lemma_wrote_within(m0, m1, done, all);
                }
                return Err(HintError::AddressOverflow);
            },
        };
        match read_pointer_value_input(vm, addr0, addr1, &fields[i].1) {
            Ok(a) => {
                proof {
                    lemma_wrote_then(m0, m1, vm_memory(*vm), done, step, true);
                }
                addr1 = a;
            },
            Err(e) => {
                proof {
                    lemma_wrote_then(m0, m1, vm_memory(*vm), done, step, false);
                    lemma_wrote_within(m0, vm_memory(*vm), done.union_prefer_right(step), all);
                }
                return Err(e);
            },
        }
        i += 1;
    }
    Ok(addr1.offset - addr.offset)
}

/// Writes a list from `addr` on: for each item a node of three cells and,
/// where the item is no scalar, its body; then the cell that ends the list.
fn read_list_input(vm: &mut VirtualMachine, addr: Address, elems: &Vec<Value>) -> (r: Result<
    usize,
    HintError,
>)
    ensures
        wrote(
            vm_memory(*old(vm)),
            vm_memory(*final(vm)),
            body_cells(ValueView::List(items_view(elems@, elems@.len())), addr@.0, addr@.1),
            r is Ok,
        ),
        same_frame(*old(vm), *final(vm)),
        r matches Ok(n) ==> n == body_size(ValueView::List(items_view(elems@, elems@.len())))
            && addr.offset + n <= usize::MAX,
        r matches Err(e) ==> e is Memory || (e is AddressOverflow && addr.offset + body_size(
            ValueView::List(items_view(elems@, elems@.len())),
        ) > usize::MAX),
    decreases elems, 0nat,
{
    let ghost views = items_view(elems@, elems@.len());
    let ghost m0 = vm_memory(*vm);
    let ghost seg = addr@.0;
    let ghost at = addr@.1;
    let ghost all = body_cells(ValueView::List(views), seg, at);
    let n = elems.len();
    proof {
        lemma_items_view(elems@, elems@.len());
    }
    let mut addr1 = addr;
    proof {
        assert(m0.union_prefer_right(nodes_cells(views, 0, seg, at)) =~= m0);
    }
    let mut i: usize = 0;
    while i < n
        invariant
            i <= n,
            n == elems@.len(),
            views == items_view(elems@, elems@.len()),
            views.len() == n,
            forall|k: int| 0 <= k < n ==> (#[trigger] views[k]) == elems@[k]@,
            seg == addr@.0,
            at == addr@.1,
            all == body_cells(ValueView::List(views), seg, at),
            m0 == vm_memory(*old(vm)),
            same_frame(*old(vm), *vm),
            wrote(m0, vm_memory(*vm), nodes_cells(views, i as nat, seg, at), true),
            addr1@ == (seg, at + items_span(views, i as nat)),
        decreases n - i,
    {
        let ghost m1 = vm_memory(*vm);
        let ghost done = nodes_cells(views, i as nat, seg, at);
        let ghost c = addr1@.1;
        let ghost tag: Cells = map![(seg, c) => WordView::Felt(1)];
        let ghost item = slot_cells(views[i as int], seg, c + 1, c + 3);
        let ghost next: Cells = map![(seg, c + 2) => WordView::Pointer(
            seg,
            at + items_span(views, (i + 1) as nat),
        )];
        let ghost node = done.union_prefer_right(tag).union_prefer_right(item).union_prefer_right(
            next,
        );
        proof {
            lemma_items_span_grows(views, (i + 1) as nat, n as nat);
            lemma_items_span_grows(views, i as nat, n as nat);
            lemma_nodes_cells_grow(views, i as nat, n as nat, seg, at);
            lemma_nodes_cells_grow(views, (i + 1) as nat, n as nat, seg, at);
            assert(node == nodes_cells(views, (i + 1) as nat, seg, at));
            assert(covers(node, done.union_prefer_right(tag)));
            assert(covers(node, done.union_prefer_right(tag).union_prefer_right(item)));
        }
        let addr2 = match addr1.add_offset(3) {
            Some(a) => a,
            None => {
                proof {
                    lemma_wrote_within(m0, m1, done, all);
                }
                return Err(HintError::AddressOverflow);
            },
        };
        match vm_insert(vm, addr1, Word::Felt(Felt::one())) {
            Ok(()) => {},
            Err(e) => {
                proof {
                    lemma_wrote_then(m0, m1, vm_memory(*vm), done, tag, false);
                    lemma_wrote_within(m0, vm_memory(*vm), done.union_prefer_right(tag), all);
                }
                return Err(HintError::Memory(e));
            },
        }
        let ghost m2 = vm_memory(*vm);
        proof {
            lemma_wrote_then(m0, m1, m2, done, tag, true);
        }
        let slot = match addr1.add_offset(1) {
            Some(a) => a,
            None => {
                proof {
                    lemma_wrote_within(m0, m2, done.union_prefer_right(tag), all);
                }
                return Err(HintError::AddressOverflow);
            },
        };
        let addr3 = match read_pointer_value_input(vm, slot, addr2, &elems[i]) {
            Ok(a) => a,
            Err(e) => {
                proof {
                    lemma_wrote_then(
                        m0,
                        m2,
                        vm_memory(*vm),
                        done.union_prefer_right(tag),
                        item,
                        false,
                    );
                    lemma_wrote_within(
                        m0,
                        vm_memory(*vm),
                        done.union_prefer_right(tag).union_prefer_right(item),
                        all,
                    );
                }
                return Err(e);
            },
        };
        let ghost m3 = vm_memory(*vm);
        proof {
            lemma_wrote_then(m0, m2, m3, done.union_prefer_right(tag), item, true);
        }
        let link = match addr1.add_offset(2) {
            Some(a) => a,
            None => {
                proof {
                    lemma_wrote_within(
                        m0,
                        m3,
                        done.union_prefer_right(tag).union_prefer_right(item),
                        all,
                    );
                }
                return Err(HintError::AddressOverflow);
            },
        };
        match vm_insert(vm, link, Word::Pointer(addr3)) {
            Ok(()) => {},
            Err(e) => {
                proof {
                    lemma_wrote_then(
                        m0,
                        m3,
                        vm_memory(*vm),
                        done.union_prefer_right(tag).union_prefer_right(item),
                        next,
                        false,
                    );
                    lemma_wrote_within(m0, vm_memory(*vm), node, all);
                }
                return Err(HintError::Memory(e));
            },
        }
        proof {
            lemma_wrote_then(
                m0,
                m3,
                vm_memory(*vm),
                done.union_prefer_right(tag).union_prefer_right(item),
                next,
                true,
            );
        }
        addr1 = addr3;
        i += 1;
    }
    let ghost m4 = vm_memory(*vm);
    let ghost nodes = nodes_cells(views, n as nat, seg, at);
    let ghost end: Cells = map![addr1@ => WordView::Felt(0)];
    match vm_insert(vm, addr1, Word::Felt(Felt::zero())) {
        Ok(()) => {},
        Err(e) => {
            proof {
                lemma_wrote_then(m0, m4, vm_memory(*vm), nodes, end, false);
            }
            return Err(HintError::Memory(e));
        },
    }
    proof {
        lemma_wrote_then(m0, m4, vm_memory(*vm), nodes, end, true);
    }
    match (addr1.offset - addr.offset).checked_add(1) {
        Some(size) => Ok(size),
        None => Err(HintError::AddressOverflow),
    }
}

/// Writes a value that the cell at `addr1` refers to: a scalar into that
/// cell; for any other the address `addr2` into it and the body from `addr2`
/// on. Returns the address after what was written from `addr2` on.
fn read_pointer_value_input(
    vm: &mut VirtualMachine,
    addr1: Address,
    addr2: Address,
    val: &Value,
) -> (r: Result<Address, HintError>)
    requires
        addr1.segment == addr2.segment,
    ensures
        wrote(
            vm_memory(*old(vm)),
            vm_memory(*final(vm)),
            slot_cells(val@, addr1@.0, addr1@.1, addr2@.1),
            r is Ok,
        ),
        same_frame(*old(vm), *final(vm)),
        r matches Ok(a) ==> a@ == (addr2@.0, addr2@.1 + extra_size(val@)),
        r matches Err(e) ==> e is Memory || (e is AddressOverflow && addr2.offset + extra_size(val@)
            > usize::MAX),
    decreases val, 3nat,
{
    let ghost m0 = vm_memory(*vm);
    let ghost link: Cells = map![addr1@ => WordView::Pointer(addr2@.0, addr2@.1)];
    match val {
        Value::ValueRecord(_) | Value::ValueList(_) => {
            match vm_insert(vm, addr1, Word::Pointer(addr2)) {
                Ok(()) => {},
                Err(e) => {
                    proof {
                        lemma_wrote_within(
                            m0,
                            vm_memory(*vm),
                            link,
                            slot_cells(val@, addr1@.0, addr1@.1, addr2@.1),
                        );
                    }
                    return Err(HintError::Memory(e));
                },
            }
            let ghost m1 = vm_memory(*vm);
            match read_value_input(vm, addr2, val) {
                Ok(n) => {
                    proof {
                        lemma_wrote_then(
                            m0,
                            m1,
                            vm_memory(*vm),
                            link,
                            body_cells(val@, addr2@.0, addr2@.1),
                            true,
                        );
                    }
                    match addr2.add_offset(n) {
                        Some(a) => Ok(a),
                        None => Err(HintError::AddressOverflow),
                    }
                },
                Err(e) => {
                    proof {
                        lemma_wrote_then(
                            m0,
                            m1,
                            vm_memory(*vm),
                            link,
                            body_cells(val@, addr2@.0, addr2@.1),
                            false,
                        );
                    }
                    Err(e)
                },
            }
        },
        Value::ValueFelt(v) => match read_felt_input(vm, addr1, v) {
            Ok(_) => Ok(addr2),
            Err(e) => Err(e),
        },
        Value::ValueBool(v) => match read_bool_input(vm, addr1, *v) {
            Ok(_) => Ok(addr2),
            Err(e) => Err(e),
        },
    }
}

/// The address that an allocation hands out: the cursor, or the start of a
/// new segment where there is no cursor yet.
pub open spec fn alloc_base(cursor: Option<(int, int)>, segments: nat) -> (int, int) {
    match cursor {
        Some(a) => a,
        None => (segments as int, 0),
    }
}

/// `cairo_vm`'s count of the steps left to a run.
#[verifier::external_type_specification]
#[verifier::external_body]
pub struct ExRunResources(RunResources);

/// The steps left that a count holds, where it counts them.
pub uninterp spec fn steps_left(resources: RunResources) -> Option<usize>;

/// `RunResources::default`: a count that counts no steps.
#[verifier::external_body]
fn resources_default() -> (r: RunResources)
    ensures
        steps_left(r) is None,
{
    RunResources::default()
}

/// `consumed` of `RunResources`: whether the count holds no step more.
#[verifier::external_body]
fn resources_consumed(resources: &RunResources) -> (r: bool)
    ensures
        r == (steps_left(*resources) == Some(0usize)),
{
    resources.consumed()
}

/// `consume_step` of `RunResources`: one step less where steps are counted
/// and one is left; else nothing changes.
#[verifier::external_body]
fn resources_consume_step(resources: &mut RunResources)
    ensures
        steps_left(*final(resources)) == match steps_left(*old(resources)) {
            Some(n) => Some(
                if n > 0 {
                    (n - 1) as usize
                } else {
                    0usize
                },
            ),
            None => None,
        },
{
    resources.consume_step()
}

/// `get_n_steps` of `RunResources`: the steps that the count holds.
#[verifier::external_body]
fn resources_get_n_steps(resources: &RunResources) -> (r: Option<usize>)
    ensures
        r == steps_left(*resources),
{
    resources.get_n_steps()
}

/// Runs the hints of one program: holds the program's inputs, the cursor of
/// the segment that allocations are made in, the machine's count of the
/// steps left to the run, and the generator that the points of one run are
/// drawn from.
#[derive(Debug)]
pub struct JuvixHintProcessor {
    program_input: ProgramInput,
    next_address: Option<Address>,
    run_resources: RunResources,
    source: StdRng,
}

impl JuvixHintProcessor {
    /// The program's inputs, by name.
    pub closed spec fn inputs(&self) -> Map<Seq<char>, ValueView> {
        self.program_input@
    }

    /// The first free address of the segment that allocations are made in,
    /// once there is one.
    pub closed spec fn cursor(&self) -> Option<(int, int)> {
        match self.next_address {
            Some(a) => Some(a@),
            None => None,
        }
    }

    /// The steps left to the run, where they are counted.
    pub closed spec fn steps(&self) -> Option<usize> {
        steps_left(self.run_resources)
    }

    /// What an allocation of `size` cells does: the address that it hands out
    /// goes into the cell that the allocation pointer points to, and the
    /// cursor moves on by `size`. The first allocation of a run adds the
    /// segment. Where the cursor cannot move on, the allocation fails for
    /// that, and nothing is written.
    pub open spec fn alloc_post(
        self,
        after: Self,
        vm: VirtualMachine,
        vm_after: VirtualMachine,
        size: usize,
        r: Result<(), HintError>,
    ) -> bool {
        let base = alloc_base(self.cursor(), vm_segments(vm));
        &&& after.inputs() == self.inputs()
        &&& after.steps() == self.steps()
        &&& vm_ap(vm_after) == vm_ap(vm)
        &&& vm_segments(vm_after) == vm_segments(vm) + if self.cursor() is None {
            1nat
        } else {
            0nat
        }
        &&& wrote(
            vm_memory(vm),
            vm_memory(vm_after),
            map![vm_ap(vm) => WordView::Pointer(base.0, base.1)],
            r is Ok,
        )
        &&& match r {
            Ok(_) => after.cursor() == Some((base.0, base.1 + size)),
            Err(e) => after.cursor() == Some(base) && (e is Memory || (e is AddressOverflow
                && base.1 + size > usize::MAX)),
        }
        &&& base.1 + size > usize::MAX ==> (r matches Err(HintError::AddressOverflow))
            && vm_memory(vm_after) == vm_memory(vm)
        &&& vm_ap(vm).1 + 1 > usize::MAX ==> r is Err
    }

    /// What the hint for an input does: where the program has no input of
    /// that name it fails and nothing changes; a scalar goes into the cell
    /// that the allocation pointer points to; any other input gets a segment
    /// of its own, whose first address goes into that cell. An input that
    /// does not fit its segment fails, and so does one for which the cell
    /// that the allocation pointer points to lies beyond its segment.
    pub open spec fn input_post(
        self,
        vm: VirtualMachine,
        vm_after: VirtualMachine,
        name: Seq<char>,
        r: Result<(), HintError>,
    ) -> bool {
        if self.inputs().dom().contains(name) {
            let v = self.inputs()[name];
            &&& vm_ap(vm_after) == vm_ap(vm)
            &&& vm_segments(vm_after) == vm_segments(vm) + if is_scalar(v) {
                0nat
            } else {
                1nat
            }
            &&& wrote(
                vm_memory(vm),
                vm_memory(vm_after),
                input_cells(v, vm_ap(vm), vm_segments(vm) as int),
                r is Ok,
            )
            &&& r matches Err(e) ==> e is Memory || (e is AddressOverflow && body_size(v)
                > usize::MAX)
            &&& vm_ap(vm).1 + 1 > usize::MAX ==> r is Err
            &&& !is_scalar(v) && body_size(v) > usize::MAX ==> r is Err
        } else {
            &&& r matches Err(HintError::MissingInput(missing)) && missing@ == name
            &&& vm_memory(vm_after) == vm_memory(vm)
            &&& same_frame(vm, vm_after)
        }
    }

    /// How the hint for a random point ends where its search drew `draws`
    /// and found `y`. Where a draw was taken, the point of its element and
    /// `y`, the principal root there, goes into the cell that the allocation
    /// pointer points to and the one after it, in that order; where the two
    /// cells do not lie inside the segment, the hint fails. Where none of all the draws allowed was taken, the
    /// hint fails for want of a residue and nothing is written.
    pub open spec fn point_drawn(
        draws: Seq<(u64, u64, u64, u64)>,
        y: nat,
        vm: VirtualMachine,
        vm_after: VirtualMachine,
        r: Result<(), HintError>,
    ) -> bool {
        match r {
            Err(HintError::Sampling(e)) => {
                &&& e == SamplingError::NoResidue
                &&& sampled_none(draws)
                &&& vm_memory(vm_after) == vm_memory(vm)
            },
            _ => {
                let x = words_value(draws.last());
                &&& sampled_point(draws, x, y)
                &&& wrote(
                    vm_memory(vm),
                    vm_memory(vm_after),
                    point_cells(vm_ap(vm), x, y),
                    r is Ok,
                )
                &&& r matches Err(e) ==> e is Memory || (e is AddressOverflow && vm_ap(vm).1 + 1
                    > usize::MAX)
                &&& vm_ap(vm).1 + 2 > usize::MAX ==> r is Err
            },
        }
    }

    /// What the hint for a random point does: it searches for a point of the
    /// curve and writes the point that the draws give; nothing but the cells
    /// of the memory changes.
    pub open spec fn point_post(
        vm: VirtualMachine,
        vm_after: VirtualMachine,
        r: Result<(), HintError>,
    ) -> bool {
        &&& same_frame(vm, vm_after)
        &&& exists|draws: Seq<(u64, u64, u64, u64)>, y: nat| #[trigger]
            Self::point_drawn(draws, y, vm, vm_after, r)
    }

    /// Whether `after` is this processor with nothing changed but the state
    /// of its generator.
    pub open spec fn same_run(self, after: Self) -> bool {
        &&& after.inputs() == self.inputs()
        &&& after.cursor() == self.cursor()
        &&& after.steps() == self.steps()
    }

    /// A processor for a program with the given inputs, at the start of a
    /// run: nothing is allocated yet, the steps are not counted, and the
    /// points are drawn from the given generator.
    pub fn new(program_input: ProgramInput, source: StdRng) -> (r: Self)
        ensures
            r.inputs() == program_input@,
            r.cursor() is None,
            r.steps() is None,
    {
        JuvixHintProcessor {
            program_input,
            next_address: None,
            run_resources: resources_default(),
            source,
        }
    }

    /// Runs one hint.
    pub fn execute(&mut self, vm: &mut VirtualMachine, hint: &Hint) -> (r: Result<(), HintError>)
        ensures
            match hint {
                Hint::Alloc(size) => old(self).alloc_post(
                    *final(self),
                    *old(vm),
                    *final(vm),
                    *size,
                    r,
                ),
                Hint::Input(var) => *final(self) == *old(self) && old(self).input_post(
                    *old(vm),
                    *final(vm),
                    var@,
                    r,
                ),
                Hint::RandomEcPoint => old(self).same_run(*final(self)) && Self::point_post(
                    *old(vm),
                    *final(vm),
                    r,
                ),
            },
    {
        match hint {
            Hint::Alloc(size) => self.alloc_constant_size(vm, *size),
            Hint::Input(var) => self.read_program_input(vm, var),
            Hint::RandomEcPoint => self.random_ec_point(vm),
        }
    }

    /// Hands out a block of `size` cells of the segment kept for such
    /// blocks.
    pub fn alloc_constant_size(&mut self, vm: &mut VirtualMachine, size: usize) -> (r: Result<
        (),
        HintError,
    >)
        ensures
            old(self).alloc_post(*final(self), *old(vm), *final(vm), size, r),
    {
        let base = match self.next_address {
            Some(a) => a,
            None => {
                let a = vm_add_memory_segment(vm);
                self.next_address = Some(a);
                a
            },
        };
        let next = match base.add_offset(size) {
            Some(a) => a,
            None => {
                return Err(HintError::AddressOverflow);
            },
        };
        let out = vm_get_ap(vm);
        match vm_insert(vm, out, Word::Pointer(base)) {
            Ok(()) => {
                self.next_address = Some(next);
                Ok(())
            },
            Err(e) => Err(HintError::Memory(e)),
        }
    }

    /// Writes the program's input of the given name into the memory.
    pub fn read_program_input(&self, vm: &mut VirtualMachine, var: &String) -> (r: Result<
        (),
        HintError,
    >)
        ensures
            self.input_post(*old(vm), *final(vm), var@, r),
    {
        let val = match self.program_input.get(var.as_str()) {
            Some(val) => val,
            None => {
                return Err(HintError::MissingInput(var.clone()));
            },
        };
        let ghost m0 = vm_memory(*vm);
        let out = vm_get_ap(vm);
        let addr = match val {
            Value::ValueFelt(_) | Value::ValueBool(_) => out,
            Value::ValueRecord(_) | Value::ValueList(_) => {
                let segment = vm_add_memory_segment(vm);
                match vm_insert(vm, out, Word::Pointer(segment)) {
                    Ok(()) => {},
                    Err(e) => {
                        proof {
                            lemma_wrote_within(
                                m0,
                                vm_memory(*vm),
                                map![out@ => WordView::Pointer(segment@.0, segment@.1)],
                                input_cells(val@, out@, segment@.0),
                            );
                        }
                        return Err(HintError::Memory(e));
                    },
                }
                segment
            },
        };
        let ghost m1 = vm_memory(*vm);
        match read_value_input(vm, addr, val) {
            Ok(_) => {
                proof {
                    if !is_scalar(val@) {
                        lemma_wrote_then(
                            m0,
                            m1,
                            vm_memory(*vm),
                            map![out@ => WordView::Pointer(addr@.0, addr@.1)],
                            body_cells(val@, addr@.0, addr@.1),
                            true,
                        );
                    }
                }
                Ok(())
            },
            Err(e) => {
                proof {
                    if !is_scalar(val@) {
                        lemma_wrote_then(
                            m0,
                            m1,
                            vm_memory(*vm),
                            map![out@ => WordView::Pointer(addr@.0, addr@.1)],
                            body_cells(val@, addr@.0, addr@.1),
                            false,
                        );
                    }
                }
                Err(e)
            },
        }
    }

    /// Writes a point into the cell that the allocation pointer points to and
    /// the one after it: first `x`, then `y`.
    pub fn write_ec_point(vm: &mut VirtualMachine, x: &Felt, y: &Felt) -> (r: Result<
        (),
        HintError,
    >)
        ensures
            same_frame(*old(vm), *final(vm)),
            wrote(
                vm_memory(*old(vm)),
                vm_memory(*final(vm)),
                point_cells(vm_ap(*old(vm)), x@, y@),
                r is Ok,
            ),
            r matches Err(e) ==> e is Memory || (e is AddressOverflow && vm_ap(*old(vm)).1 + 1
                > usize::MAX),
            vm_ap(*old(vm)).1 + 2 > usize::MAX ==> r is Err,
    {
        let ghost m0 = vm_memory(*vm);
        let ghost all = point_cells(vm_ap(*vm), x@, y@);
        let ap = vm_get_ap(vm);
        let ghost first: Cells = map![ap@ => WordView::Felt(x@)];
        match vm_insert(vm, ap, Word::Felt(*x)) {
            Ok(()) => {},
            Err(e) => {
                proof {
                    lemma_wrote_within(m0, vm_memory(*vm), first, all);
                }
                return Err(HintError::Memory(e));
            },
        }
        let ghost m1 = vm_memory(*vm);
        let second = match ap.add_offset(1) {
            Some(a) => a,
            None => {
                proof {
                    lemma_wrote_within(m0, m1, first, all);
                }
                return Err(HintError::AddressOverflow);
            },
        };
        match vm_insert(vm, second, Word::Felt(*y)) {
            Ok(()) => {
                proof {
                    lemma_wrote_then(
                        m0,
                        m1,
                        vm_memory(*vm),
                        first,
                        map![second@ => WordView::Felt(y@)],
                        true,
                    );
                }
                Ok(())
            },
            Err(e) => {
                proof {
                    lemma_wrote_then(
                        m0,
                        m1,
                        vm_memory(*vm),
                        first,
                        map![second@ => WordView::Felt(y@)],
                        false,
                    );
                }
                Err(HintError::Memory(e))
            },
        }
    }

    /// Samples a point of the curve from the generator of the run and writes
    /// it for the program.
    pub fn random_ec_point(&mut self, vm: &mut VirtualMachine) -> (r: Result<(), HintError>)
        ensures
            old(self).same_run(*final(self)),
            Self::point_post(*old(vm), *final(vm), r),
    {
        let sample = sample_ec_point(&mut self.source);
        let ghost draws = choose|draws: Seq<(u64, u64, u64, u64)>| sampled(draws, sample);
        match sample {
            Ok((x, y)) => {
                let r = Self::write_ec_point(vm, &x, &y);
                proof {
                    assert(Self::point_drawn(draws, y@, *old(vm), *vm, r));
                }
                r
            },
            Err(e) => {
                let r = Err(HintError::Sampling(e));
                proof {
                    assert(Self::point_drawn(draws, 0, *old(vm), *vm, r));
                }
                r
            },
        }
    }

    /// Reads the text of a hint once, for all the times that the hint is
    /// run.
    pub fn compile_hint(&self, hint_code: &str) -> (r: Result<Hint, ParseHintError>)
        ensures
            match r {
                Ok(h) => parse_text(hint_code@) == Ok::<HintView, ParseFailure>(h@),
                Err(e) => parse_text(hint_code@) matches Err(failure) && e.message@
                    == error_message(hint_code@, failure),
            },
    {
        parse_hint(hint_code)
    }

    /// Whether the run has no step left.
    pub fn consumed(&self) -> (r: bool)
        ensures
            r == (self.steps() == Some(0usize)),
    {
        resources_consumed(&self.run_resources)
    }

    /// Takes one step from those left to the run, where they are counted and
    /// one is left.
    pub fn consume_step(&mut self)
        ensures
            final(self).inputs() == old(self).inputs(),
            final(self).cursor() == old(self).cursor(),
            final(self).steps() == match old(self).steps() {
                Some(n) => Some(
                    if n > 0 {
                        (n - 1) as usize
                    } else {
                        0usize
                    },
                ),
                None => None,
            },
    {
        resources_consume_step(&mut self.run_resources);
    }

    /// The steps left to the run, where they are counted.
    pub fn get_n_steps(&self) -> (r: Option<usize>)
        ensures
            r == self.steps(),
    {
        resources_get_n_steps(&self.run_resources)
    }

    /// The machine's count of the steps left to the run.
    pub fn run_resources(&self) -> (r: &RunResources)
        ensures
            steps_left(*r) == self.steps(),
    {
        &self.run_resources
    }
}

/// The sum of the first `n` sizes.
pub open spec fn sizes_sum(sizes: Seq<usize>, n: nat) -> nat
    decreases n,
{
    if n == 0 || n > sizes.len() {
        0
    } else {
        sizes_sum(sizes, (n - 1) as nat) + sizes[n - 1] as nat
    }
}

/// Whether `states` are the states of a processor through a run of
/// allocations of the given sizes that all went through, the `i`-th of them
/// on the machine `vms[i]`.
pub open spec fn is_alloc_run(
    states: Seq<JuvixHintProcessor>,
    vms: Seq<VirtualMachine>,
    vms_after: Seq<VirtualMachine>,
    sizes: Seq<usize>,
) -> bool {
    &&& states.len() == sizes.len() + 1
    &&& vms.len() == sizes.len()
    &&& vms_after.len() == sizes.len()
    &&& forall|i: int|
        0 <= i < sizes.len() ==> (#[trigger] states[i]).alloc_post(
            states[i + 1],
            vms[i],
            vms_after[i],
            sizes[i],
            Ok(()),
        )
}

/// In a run of allocations that went through, the `i`-th hands out the
/// address that lies beyond the first one by the sum of the sizes before it:
/// that address is what it writes into the cell that the allocation pointer
/// points to, and it leaves the cursor beyond it by its own size. Where the
/// run starts without a cursor, the first address is the start of the
/// segment that the first allocation adds.
pub proof fn lemma_alloc_address(
    states: Seq<JuvixHintProcessor>,
    vms: Seq<VirtualMachine>,
    vms_after: Seq<VirtualMachine>,
    sizes: Seq<usize>,
    i: nat,
)
    requires
        is_alloc_run(states, vms, vms_after, sizes),
        i < sizes.len(),
    ensures
        ({
            let first = alloc_base(states[0].cursor(), vm_segments(vms[0]));
            let handed = (first.0, first.1 + sizes_sum(sizes, i));
            &&& states[0].cursor() is None ==> first == (vm_segments(vms[0]) as int, 0int)
            &&& alloc_base(states[i as int].cursor(), vm_segments(vms[i as int])) == handed
            &&& vm_memory(vms_after[i as int]).dom().contains(vm_ap(vms[i as int]))
            &&& vm_memory(vms_after[i as int])[vm_ap(vms[i as int])] == WordView::Pointer(
                handed.0,
                handed.1,
            )
            &&& states[i as int + 1].cursor() == Some(
                (first.0, first.1 + sizes_sum(sizes, i + 1)),
            )
        }),
    decreases i,
{
    assert(states[i as int].alloc_post(
        states[i as int + 1],
        vms[i as int],
        vms_after[i as int],
        sizes[i as int],
        Ok(()),
    ));
    if i > 0 {
        lemma_alloc_address(states, vms, vms_after, sizes, (i - 1) as nat);
    }
}

/// In a run of allocations of sizes that are not 0, a later allocation hands
/// out a higher address of the same segment.
pub proof fn lemma_alloc_increasing(
    states: Seq<JuvixHintProcessor>,
    vms: Seq<VirtualMachine>,
    vms_after: Seq<VirtualMachine>,
    sizes: Seq<usize>,
    i: nat,
    j: nat,
)
    requires
        is_alloc_run(states, vms, vms_after, sizes),
        i < j < sizes.len(),
        forall|k: int| 0 <= k < sizes.len() ==> #[trigger] sizes[k] > 0,
    ensures
        alloc_base(states[i as int].cursor(), vm_segments(vms[i as int])).0 == alloc_base(
            states[j as int].cursor(),
            vm_segments(vms[j as int]),
        ).0,
        alloc_base(states[i as int].cursor(), vm_segments(vms[i as int])).1 < alloc_base(
            states[j as int].cursor(),
            vm_segments(vms[j as int]),
        ).1,
{
    lemma_alloc_address(states, vms, vms_after, sizes, i);
    lemma_alloc_address(states, vms, vms_after, sizes, j);
    lemma_sizes_sum_increasing(sizes, i, j);
}

/// The sums of sizes that are not 0 grow.
pub proof fn lemma_sizes_sum_increasing(sizes: Seq<usize>, i: nat, j: nat)
    requires
        i < j <= sizes.len(),
        forall|k: int| 0 <= k < sizes.len() ==> #[trigger] sizes[k] > 0,
    ensures
        sizes_sum(sizes, i) < sizes_sum(sizes, j),
    decreases j,
{
    if i + 1 < j {
        lemma_sizes_sum_increasing(sizes, i, (j - 1) as nat);
    }
}

/// After a run of allocations that went through, one more allocation hands
/// out the first address moved on by the sum of all the sizes of the run. It
/// fails for want of room exactly where the cursor cannot move on by its
/// size; where it goes through, that address is what it writes, and it
/// leaves the cursor beyond it by its size. Where no size of the run is 0,
/// the address lies above every address that the run handed out.
pub proof fn lemma_alloc_next(
    states: Seq<JuvixHintProcessor>,
    vms: Seq<VirtualMachine>,
    vms_after: Seq<VirtualMachine>,
    sizes: Seq<usize>,
    after: JuvixHintProcessor,
    vm: VirtualMachine,
    vm_after: VirtualMachine,
    size: usize,
    r: Result<(), HintError>,
)
    requires
        is_alloc_run(states, vms, vms_after, sizes),
        sizes.len() > 0,
        states.last().alloc_post(after, vm, vm_after, size, r),
    ensures
        ({
            let first = alloc_base(states[0].cursor(), vm_segments(vms[0]));
            let handed = (first.0, first.1 + sizes_sum(sizes, sizes.len()));
            &&& alloc_base(states.last().cursor(), vm_segments(vm)) == handed
            &&& (r matches Err(HintError::AddressOverflow)) <==> handed.1 + size > usize::MAX
            &&& r is Ok ==> vm_memory(vm_after).dom().contains(vm_ap(vm)) && vm_memory(
                vm_after,
            )[vm_ap(vm)] == WordView::Pointer(handed.0, handed.1) && after.cursor() == Some(
                (handed.0, handed.1 + size),
            )
            &&& (forall|k: int| 0 <= k < sizes.len() ==> #[trigger] sizes[k] > 0) ==> forall|
                i: int,
            |
                0 <= i < sizes.len() ==> (#[trigger] alloc_base(
                    states[i].cursor(),
                    vm_segments(vms[i]),
                )).0 == handed.0 && alloc_base(states[i].cursor(), vm_segments(vms[i])).1
                    < handed.1
        }),
{
    let n = sizes.len();
    lemma_alloc_address(states, vms, vms_after, sizes, (n - 1) as nat);
    if forall|k: int| 0 <= k < sizes.len() ==> #[trigger] sizes[k] > 0 {
        assert forall|i: int| 0 <= i < sizes.len() implies (#[trigger] alloc_base(
            states[i].cursor(),
            vm_segments(vms[i]),
        )).0 == alloc_base(states[0].cursor(), vm_segments(vms[0])).0 && alloc_base(
            states[i].cursor(),
            vm_segments(vms[i]),
        ).1 < alloc_base(states[0].cursor(), vm_segments(vms[0])).1 + sizes_sum(sizes, n) by {
            lemma_alloc_address(states, vms, vms_after, sizes, i as nat);
            lemma_sizes_sum_increasing(sizes, i as nat, n);
        }
    }
}

} // verus!
