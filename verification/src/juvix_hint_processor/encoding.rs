use crate::memory::{covers, wrote, Cells, WordView};
use crate::program_input::ValueView;
use vstd::prelude::*;

verus! {

/// Whether a value takes one cell and is written where it is referred to.
pub open spec fn is_scalar(v: ValueView) -> bool {
    v is Felt || v is Bool
}

/// The word that a scalar is written as: a field element as itself, `true`
/// as 0 and `false` as 1.
pub open spec fn scalar_word(v: ValueView) -> WordView {
    match v {
        ValueView::Felt(n) => WordView::Felt(n),
        ValueView::Bool(b) => WordView::Felt(
            if b {
                0
            } else {
                1
            },
        ),
        _ => WordView::Felt(0),
    }
}

/// The number of cells that the encoding of a value takes: one for a scalar;
/// for a record one header, one cell for each field and the bodies of the
/// fields that are no scalars; for a list three cells for each item, the
/// bodies of the items that are no scalars, and one cell that ends it.
pub open spec fn body_size(v: ValueView) -> nat
    decreases v, 0nat,
{
    match v {
        ValueView::Felt(_) => 1,
        ValueView::Bool(_) => 1,
        ValueView::Record(fields) => 1 + fields.len() + fields_extra(fields, fields.len()),
        ValueView::List(items) => items_span(items, items.len()) + 1,
    }
}

/// The number of cells that a value takes beside the cell that refers to it:
/// none for a scalar, its body for any other.
pub open spec fn extra_size(v: ValueView) -> nat
    decreases v, 1nat,
{
    if is_scalar(v) {
        0
    } else {
        body_size(v)
    }
}

/// The number of cells that the bodies of the first `n` fields take.
pub open spec fn fields_extra(fields: Seq<(Seq<char>, ValueView)>, n: nat) -> nat
    decreases fields, n,
{
    if n == 0 || n > fields.len() {
        0
    } else {
        fields_extra(fields, (n - 1) as nat) + extra_size(fields[n - 1].1)
    }
}

/// The number of cells that the first `n` items of a list take, bodies
/// included.
pub open spec fn items_span(items: Seq<ValueView>, n: nat) -> nat
    decreases items, n,
{
    if n == 0 || n > items.len() {
        0
    } else {
        items_span(items, (n - 1) as nat) + 3 + extra_size(items[n - 1])
    }
}

/// The cells of the encoding of a value that starts at offset `at` of segment
/// `seg`.
///
/// A scalar is one cell. A record is a header that holds 0, then one cell for
/// each field in the declared order, then the bodies of the fields that are
/// no scalars, in that order. A list is a chain of nodes of three cells, each
/// followed by the body of its item where that is no scalar, and a last cell
/// that holds 0.
pub open spec fn body_cells(v: ValueView, seg: int, at: int) -> Cells
    decreases v, 0nat,
{
    match v {
        ValueView::Felt(_) => map![(seg, at) => scalar_word(v)],
        ValueView::Bool(_) => map![(seg, at) => scalar_word(v)],
        ValueView::Record(fields) => map![(seg, at) => WordView::Felt(0)].union_prefer_right(
            fields_cells(fields, fields.len(), seg, at),
        ),
        ValueView::List(items) => nodes_cells(items, items.len(), seg, at).union_prefer_right(
            map![(seg, at + items_span(items, items.len())) => WordView::Felt(0)],
        ),
    }
}

/// The cells of a value that the cell at `slot` refers to: the scalar itself
/// in that cell, or the address `free` in it and the body of the value from
/// `free` on.
pub open spec fn slot_cells(v: ValueView, seg: int, slot: int, free: int) -> Cells
    decreases v, 1nat,
{
    if is_scalar(v) {
        map![(seg, slot) => scalar_word(v)]
    } else {
        map![(seg, slot) => WordView::Pointer(seg, free)].union_prefer_right(
            body_cells(v, seg, free),
        )
    }
}

/// The cells of the first `n` fields of a record that starts at `at`: field
/// `i` is referred to from `at + 1 + i`, and the bodies follow the cells of
/// all the fields.
pub open spec fn fields_cells(
    fields: Seq<(Seq<char>, ValueView)>,
    n: nat,
    seg: int,
    at: int,
) -> Cells
    decreases fields, n,
{
    if n == 0 || n > fields.len() {
        Map::empty()
    } else {
        fields_cells(fields, (n - 1) as nat, seg, at).union_prefer_right(
            slot_cells(
                fields[n - 1].1,
                seg,
                at + n,
                at + 1 + fields.len() + fields_extra(fields, (n - 1) as nat),
            ),
        )
    }
}

/// The cells of the first `n` nodes of a list that starts at `at`. A node at
/// `c` holds 1 at `c`, its item at `c + 1` and the address of what follows
/// the node and its item's body at `c + 2`.
pub open spec fn nodes_cells(items: Seq<ValueView>, n: nat, seg: int, at: int) -> Cells
    decreases items, n,
{
    if n == 0 || n > items.len() {
        Map::empty()
    } else {
        let c = at + items_span(items, (n - 1) as nat);
        nodes_cells(items, (n - 1) as nat, seg, at).union_prefer_right(
            map![(seg, c) => WordView::Felt(1)],
        ).union_prefer_right(slot_cells(items[n - 1], seg, c + 1, c + 3)).union_prefer_right(
            map![(seg, c + 2) => WordView::Pointer(seg, at + items_span(items, n))],
        )
    }
}

/// Two attempts in a row, the first of which went through, are one attempt
/// to write the cells of both.
pub proof fn lemma_wrote_then(
    m0: Cells,
    m1: Cells,
    m2: Cells,
    c1: Cells,
    c2: Cells,
    done: bool,
)
    requires
        wrote(m0, m1, c1, true),
        wrote(m1, m2, c2, done),
    ensures
        wrote(m0, m2, c1.union_prefer_right(c2), done),
{
    if done {
        assert(m2 =~= m0.union_prefer_right(c1.union_prefer_right(c2)));
    }
}

/// An attempt that stopped early is an attempt at any cells that cover its
/// addresses.
pub proof fn lemma_wrote_within(m0: Cells, m: Cells, c: Cells, all: Cells)
    requires
        wrote(m0, m, c, false),
        covers(all, c),
    ensures
        wrote(m0, m, all, false),
{
}

/// The bodies of more fields take no fewer cells.
pub proof fn lemma_fields_extra_grows(fields: Seq<(Seq<char>, ValueView)>, k: nat, n: nat)
    requires
        k <= n <= fields.len(),
    ensures
        fields_extra(fields, k) <= fields_extra(fields, n),
    decreases n,
{
    if k < n {
        lemma_fields_extra_grows(fields, k, (n - 1) as nat);
    }
}

/// More items of a list take more cells.
pub proof fn lemma_items_span_grows(items: Seq<ValueView>, k: nat, n: nat)
    requires
        k <= n <= items.len(),
    ensures
        items_span(items, k) + 3 * (n - k) <= items_span(items, n),
    decreases n,
{
    if k < n {
        lemma_items_span_grows(items, k, (n - 1) as nat);
    }
}

/// The cells of more fields cover the cells of fewer.
pub proof fn lemma_fields_cells_grow(
    fields: Seq<(Seq<char>, ValueView)>,
    k: nat,
    n: nat,
    seg: int,
    at: int,
)
    requires
        k <= n <= fields.len(),
    ensures
        covers(fields_cells(fields, n, seg, at), fields_cells(fields, k, seg, at)),
    decreases n,
{
    if k < n {
        lemma_fields_cells_grow(fields, k, (n - 1) as nat, seg, at);
    }
}

/// The cells of more nodes cover the cells of fewer.
pub proof fn lemma_nodes_cells_grow(items: Seq<ValueView>, k: nat, n: nat, seg: int, at: int)
    requires
        k <= n <= items.len(),
    ensures
        covers(nodes_cells(items, n, seg, at), nodes_cells(items, k, seg, at)),
    decreases n,
{
    if k < n {
        lemma_nodes_cells_grow(items, k, (n - 1) as nat, seg, at);
    }
}

/// The cells of a program input that is handed to the program through the
/// cell `out`: a scalar in that cell; for any other the first address of the
/// segment `fresh` in it, and the encoding from there on.
pub open spec fn input_cells(v: ValueView, out: (int, int), fresh: int) -> Cells {
    if is_scalar(v) {
        map![out => scalar_word(v)]
    } else {
        map![out => WordView::Pointer(fresh, 0)].union_prefer_right(body_cells(v, fresh, 0))
    }
}

/// The cells of a point that is handed to the program from the cell `out`
/// on: first `x`, then `y`.
pub open spec fn point_cells(out: (int, int), x: nat, y: nat) -> Cells {
    map![out => WordView::Felt(x)].union_prefer_right(
        map![(out.0, out.1 + 1) => WordView::Felt(y)],
    )
}

/// Whether an address lies in the given segment, from `from` up to but not
/// including `to`.
pub open spec fn in_range(a: (int, int), seg: int, from: int, to: int) -> bool {
    a.0 == seg && from <= a.1 < to
}

/// The encoding of a value takes the cells from its start on, as many as its
/// size says, and no others.
pub proof fn lemma_body_cells_range(v: ValueView, seg: int, at: int)
    ensures
        forall|a: (int, int)| #[trigger]
            body_cells(v, seg, at).dom().contains(a) <==> in_range(a, seg, at, at + body_size(v)),
    decreases v, 0nat,
{
    match v {
        ValueView::Record(fields) => {
            let rest = fields_cells(fields, fields.len(), seg, at);
            lemma_fields_cells_range(fields, fields.len(), seg, at);
            assert forall|a: (int, int)| #[trigger]
                body_cells(v, seg, at).dom().contains(a) <==> in_range(
                    a,
                    seg,
                    at,
                    at + body_size(v),
                ) by {
                assert(body_cells(v, seg, at).dom().contains(a) <==> a == (seg, at)
                    || rest.dom().contains(a));
            }
        },
        ValueView::List(items) => {
            let nodes = nodes_cells(items, items.len(), seg, at);
            let end = (seg, at + items_span(items, items.len()));
            lemma_nodes_cells_range(items, items.len(), seg, at);
            assert forall|a: (int, int)| #[trigger]
                body_cells(v, seg, at).dom().contains(a) <==> in_range(
                    a,
                    seg,
                    at,
                    at + body_size(v),
                ) by {
                assert(body_cells(v, seg, at).dom().contains(a) <==> a == end
                    || nodes.dom().contains(a));
            }
        },
        _ => {
            assert forall|a: (int, int)| #[trigger]
                body_cells(v, seg, at).dom().contains(a) <==> in_range(
                    a,
                    seg,
                    at,
                    at + body_size(v),
                ) by {
                assert(body_cells(v, seg, at).dom().contains(a) <==> a == (seg, at));
            }
        },
    }
}

/// A value that a cell refers to takes that cell and, from the free address
/// on, as many cells as its body has.
pub proof fn lemma_slot_cells_range(v: ValueView, seg: int, slot: int, free: int)
    ensures
        forall|a: (int, int)| #[trigger]
            slot_cells(v, seg, slot, free).dom().contains(a) <==> a == (seg, slot) || in_range(
                a,
                seg,
                free,
                free + extra_size(v),
            ),
    decreases v, 1nat,
{
    if is_scalar(v) {
        assert forall|a: (int, int)| #[trigger]
            slot_cells(v, seg, slot, free).dom().contains(a) <==> a == (seg, slot) || in_range(
                a,
                seg,
                free,
                free + extra_size(v),
            ) by {
            assert(slot_cells(v, seg, slot, free).dom().contains(a) <==> a == (seg, slot));
        }
    } else {
        let body = body_cells(v, seg, free);
        lemma_body_cells_range(v, seg, free);
        assert forall|a: (int, int)| #[trigger]
            slot_cells(v, seg, slot, free).dom().contains(a) <==> a == (seg, slot) || in_range(
                a,
                seg,
                free,
                free + extra_size(v),
            ) by {
            assert(slot_cells(v, seg, slot, free).dom().contains(a) <==> a == (seg, slot)
                || body.dom().contains(a));
        }
    }
}

/// The first `n` fields of a record take their `n` cells after the header
/// and, after the cells of all the fields, as many cells as their bodies
/// have.
pub proof fn lemma_fields_cells_range(
    fields: Seq<(Seq<char>, ValueView)>,
    n: nat,
    seg: int,
    at: int,
)
    requires
        n <= fields.len(),
    ensures
        forall|a: (int, int)| #[trigger]
            fields_cells(fields, n, seg, at).dom().contains(a) <==> in_range(
                a,
                seg,
                at + 1,
                at + 1 + n,
            ) || in_range(
                a,
                seg,
                at + 1 + fields.len(),
                at + 1 + fields.len() + fields_extra(fields, n),
            ),
    decreases fields, n,
{
    if n > 0 {
        let free = at + 1 + fields.len() + fields_extra(fields, (n - 1) as nat);
        let before = fields_cells(fields, (n - 1) as nat, seg, at);
        let step = slot_cells(fields[n - 1].1, seg, at + n, free);
        lemma_fields_cells_range(fields, (n - 1) as nat, seg, at);
        lemma_slot_cells_range(fields[n - 1].1, seg, at + n, free);
        assert forall|a: (int, int)| #[trigger]
            fields_cells(fields, n, seg, at).dom().contains(a) <==> in_range(
                a,
                seg,
                at + 1,
                at + 1 + n,
            ) || in_range(
                a,
                seg,
                at + 1 + fields.len(),
                at + 1 + fields.len() + fields_extra(fields, n),
            ) by {
            assert(fields_cells(fields, n, seg, at).dom().contains(a) <==> before.dom().contains(a)
                || step.dom().contains(a));
        }
    } else {
        assert forall|a: (int, int)| #[trigger]
            fields_cells(fields, n, seg, at).dom().contains(a) <==> in_range(
                a,
                seg,
                at + 1,
                at + 1 + n,
            ) || in_range(
                a,
                seg,
                at + 1 + fields.len(),
                at + 1 + fields.len() + fields_extra(fields, n),
            ) by {
            assert(!fields_cells(fields, n, seg, at).dom().contains(a));
        }
    }
}

/// The first `n` nodes of a list take the cells from its start on, as many
/// as their span says.
pub proof fn lemma_nodes_cells_range(items: Seq<ValueView>, n: nat, seg: int, at: int)
    requires
        n <= items.len(),
    ensures
        forall|a: (int, int)| #[trigger]
            nodes_cells(items, n, seg, at).dom().contains(a) <==> in_range(
                a,
                seg,
                at,
                at + items_span(items, n),
            ),
    decreases items, n,
{
    if n > 0 {
        let c = at + items_span(items, (n - 1) as nat);
        let before = nodes_cells(items, (n - 1) as nat, seg, at);
        let item = slot_cells(items[n - 1], seg, c + 1, c + 3);
        lemma_nodes_cells_range(items, (n - 1) as nat, seg, at);
        lemma_slot_cells_range(items[n - 1], seg, c + 1, c + 3);
        assert forall|a: (int, int)| #[trigger]
            nodes_cells(items, n, seg, at).dom().contains(a) <==> in_range(
                a,
                seg,
                at,
                at + items_span(items, n),
            ) by {
            assert(nodes_cells(items, n, seg, at).dom().contains(a) <==> before.dom().contains(a)
                || a == (seg, c) || item.dom().contains(a) || a == (seg, c + 2));
        }
    } else {
        assert forall|a: (int, int)| #[trigger]
            nodes_cells(items, n, seg, at).dom().contains(a) <==> in_range(
                a,
                seg,
                at,
                at + items_span(items, n),
            ) by {
            assert(!nodes_cells(items, n, seg, at).dom().contains(a));
        }
    }
}

} // verus!
