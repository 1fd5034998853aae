use vstd::prelude::*;

verus! {

/// A hint: what the program asks of the machine at one point of its run.
#[derive(Debug, PartialEq, Eq)]
pub enum Hint {
    /// A block of that many cells in the segment kept for such blocks.
    Alloc(usize),
    /// The program's input of that name, written into the memory.
    Input(String),
    /// A random point of the curve.
    RandomEcPoint,
}

/// What a [`Hint`] stands for.
pub enum HintView {
    Alloc(nat),
    Input(Seq<char>),
    RandomEcPoint,
}

impl View for Hint {
    type V = HintView;

    open spec fn view(&self) -> HintView {
        match self {
            Hint::Alloc(size) => HintView::Alloc(*size as nat),
            Hint::Input(name) => HintView::Input(name@),
            Hint::RandomEcPoint => HintView::RandomEcPoint,
        }
    }
}

impl Clone for Hint {
    fn clone(&self) -> (r: Self)
        ensures
            r@ == self@,
    {
        match self {
            Hint::Alloc(size) => Hint::Alloc(*size),
            Hint::Input(name) => Hint::Input(name.clone()),
            Hint::RandomEcPoint => Hint::RandomEcPoint,
        }
    }
}

} // verus!
