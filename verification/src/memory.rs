use crate::felt::Felt;
use cairo_vm::types::relocatable::{MaybeRelocatable, Relocatable};
use cairo_vm::vm::errors::memory_errors::MemoryError;
use cairo_vm::vm::vm_core::VirtualMachine;
use cairo_vm::Felt252;
use vstd::prelude::*;

verus! {

/// A relocatable address: a segment of the machine's memory and an offset
/// inside it.
#[derive(Clone, Copy, Debug, PartialEq, Eq, Structural)]
pub struct Address {
    pub segment: isize,
    pub offset: usize,
}

impl View for Address {
    type V = (int, int);

    open spec fn view(&self) -> (int, int) {
        (self.segment as int, self.offset as int)
    }
}

impl Address {
    /// The address `n` cells further on in the same segment, or `None` where
    /// the offset would leave the machine's range.
    pub fn add_offset(self, n: usize) -> (r: Option<Address>)
        ensures
            match r {
                Some(a) => a@ == (self.segment as int, self.offset + n),
                None => self.offset + n > usize::MAX,
            },
    {
        match self.offset.checked_add(n) {
            Some(offset) => Some(Address { segment: self.segment, offset }),
            None => None,
        }
    }
}

/// What a cell of the machine's memory holds: a field element or an address.
#[derive(Clone, Copy, Debug, PartialEq, Eq, Structural)]
pub enum Word {
    Felt(Felt),
    Pointer(Address),
}

/// What a [`Word`] stands for.
pub enum WordView {
    Felt(nat),
    Pointer(int, int),
}

impl View for Word {
    type V = WordView;

    open spec fn view(&self) -> WordView {
        match self {
            Word::Felt(f) => WordView::Felt(f@),
            Word::Pointer(a) => WordView::Pointer(a.segment as int, a.offset as int),
        }
    }
}

/// The cells of a memory that hold something, by segment and offset.
pub type Cells = Map<(int, int), WordView>;

/// How a memory that only ever grows stands after an attempt to write `cells`
/// into it: what it held it still holds, nothing was written outside the
/// addresses of `cells`, and where the attempt went through, all of `cells`
/// is there.
pub open spec fn wrote(before: Cells, after: Cells, cells: Cells, done: bool) -> bool {
    &&& forall|k: (int, int)| #[trigger]
        before.dom().contains(k) ==> after.dom().contains(k) && after[k] == before[k]
    &&& forall|k: (int, int)| #[trigger]
        after.dom().contains(k) ==> before.dom().contains(k) || cells.dom().contains(k)
    &&& done ==> after == before.union_prefer_right(cells)
}

/// Whether every address of `part` is an address of `all`.
pub open spec fn covers(all: Cells, part: Cells) -> bool {
    forall|k: (int, int)| #[trigger] part.dom().contains(k) ==> all.dom().contains(k)
}

/// `cairo_vm`'s machine, whose memory the hints write into.
#[verifier::external_type_specification]
#[verifier::external_body]
pub struct ExVirtualMachine(VirtualMachine);

/// `cairo_vm`'s report of a write that the memory refused.
#[verifier::external_type_specification]
#[verifier::external_body]
pub struct ExMemoryError(MemoryError);

/// The cells of the machine's memory that hold something.
pub uninterp spec fn vm_memory(vm: VirtualMachine) -> Cells;

/// The number of segments of the machine's memory.
pub uninterp spec fn vm_segments(vm: VirtualMachine) -> nat;

/// The address to which the machine's allocation pointer points: the cell
/// that the hint now running writes its result to.
pub uninterp spec fn vm_ap(vm: VirtualMachine) -> (int, int);

/// `VirtualMachine::insert_value`: stores a word in a cell. The memory only
/// grows: a cell that holds something keeps it, and the call fails where the
/// word differs from it. A failed call has written nothing, or the word and
/// then found it refused by a rule of the segment. Nothing else changes. No
/// segment reaches the last offset that the machine can count: a call for a
/// cell there fails.
#[verifier::external_body]
pub(crate) fn vm_insert(vm: &mut VirtualMachine, key: Address, val: Word) -> (r: Result<
    (),
    MemoryError,
>)
    ensures
        wrote(vm_memory(*old(vm)), vm_memory(*final(vm)), map![key@ => val@], r is Ok),
        key.offset == usize::MAX ==> r is Err,
        vm_segments(*final(vm)) == vm_segments(*old(vm)),
        vm_ap(*final(vm)) == vm_ap(*old(vm)),
{
    let word = match val {
        Word::Felt(f) => {
            let d = f.to_be_digits();
            let bytes = [d.0.to_be_bytes(), d.1.to_be_bytes(), d.2.to_be_bytes(), d.3.to_be_bytes()];
            MaybeRelocatable::Int(Felt252::from_bytes_be_slice(&bytes.concat()))
        },
        Word::Pointer(a) => MaybeRelocatable::RelocatableValue(
            Relocatable { segment_index: a.segment, offset: a.offset },
        ),
    };
    vm.insert_value(Relocatable { segment_index: key.segment, offset: key.offset }, word)
}

/// `VirtualMachine::add_memory_segment`: adds an empty segment after the
/// others and returns its first address. No cell changes.
#[verifier::external_body]
pub(crate) fn vm_add_memory_segment(vm: &mut VirtualMachine) -> (r: Address)
    ensures
        r@ == (vm_segments(*old(vm)) as int, 0int),
        vm_segments(*final(vm)) == vm_segments(*old(vm)) + 1,
        vm_memory(*final(vm)) == vm_memory(*old(vm)),
        vm_ap(*final(vm)) == vm_ap(*old(vm)),
{
    let base = vm.add_memory_segment();
    Address { segment: base.segment_index, offset: base.offset }
}

/// `VirtualMachine::get_ap`: the address to which the allocation pointer
/// points.
#[verifier::external_body]
pub(crate) fn vm_get_ap(vm: &VirtualMachine) -> (r: Address)
    ensures
        r@ == vm_ap(*vm),
{
    let ap = vm.get_ap();
    Address { segment: ap.segment_index, offset: ap.offset }
}

} // verus!
