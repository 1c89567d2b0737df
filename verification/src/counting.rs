//! Counting over the cells of a maze.

use crate::direction::{Direction, DirectionBits};
use vstd::prelude::*;

verus! {

/// The sum of `weight` over all `cells`.
pub open spec fn tally(cells: Seq<DirectionBits>, weight: spec_fn(DirectionBits) -> nat) -> nat
    decreases cells.len(),
{
    if cells.len() == 0 {
        0
    } else {
        tally(cells.drop_last(), weight) + weight(cells.last())
    }
}

/// One for a cell with an opening, nothing for a cell without any.
pub open spec fn filled_weight() -> spec_fn(DirectionBits) -> nat {
    |cell: DirectionBits|
        if cell.bits != 0 {
            1nat
        } else {
            0nat
        }
}

/// The number of passages that a cell owns: the one to its east and the
/// one to its south. Counted like this, every passage of a maze with
/// paired openings has exactly one owner.
pub open spec fn passage_weight() -> spec_fn(DirectionBits) -> nat {
    |cell: DirectionBits|
        (if cell.has(Direction::E) {
            1nat
        } else {
            0nat
        }) + (if cell.has(Direction::S) {
            1nat
        } else {
            0nat
        })
}

/// The number of cells that have an opening.
pub open spec fn count_filled(cells: Seq<DirectionBits>) -> nat {
    tally(cells, filled_weight())
}

/// The number of passages between the cells.
pub open spec fn count_passages(cells: Seq<DirectionBits>) -> nat {
    tally(cells, passage_weight())
}

/// Replacing one cell changes the sum by the difference of the two weights.
pub proof fn lemma_tally_update(
    cells: Seq<DirectionBits>,
    weight: spec_fn(DirectionBits) -> nat,
    i: int,
    cell: DirectionBits,
)
    requires
        0 <= i < cells.len(),
    ensures
        tally(cells.update(i, cell), weight) + weight(cells[i]) == tally(cells, weight) + weight(
            cell,
        ),
    decreases cells.len(),
{
    let changed = cells.update(i, cell);
    if i == cells.len() - 1 {
        assert(changed.drop_last() =~= cells.drop_last());
    } else {
        assert(changed.drop_last() =~= cells.drop_last().update(i, cell));
        lemma_tally_update(cells.drop_last(), weight, i, cell);
    }
}

/// Cells that all weigh the same weigh that much times their number.
pub proof fn lemma_tally_uniform(
    cells: Seq<DirectionBits>,
    weight: spec_fn(DirectionBits) -> nat,
    each: nat,
)
    requires
        forall|i: int| 0 <= i < cells.len() ==> weight(#[trigger] cells[i]) == each,
    ensures
        tally(cells, weight) == each * cells.len(),
    decreases cells.len(),
{
    if cells.len() > 0 {
        let rest = cells.drop_last();
        assert forall|i: int| 0 <= i < rest.len() implies weight(#[trigger] rest[i]) == each by {
            assert(rest[i] == cells[i]);
        }
        lemma_tally_uniform(rest, weight, each);
        assert(each * cells.len() == each * rest.len() + each) by (nonlinear_arith)
            requires
                cells.len() == rest.len() + 1,
        ;
    } else {
        assert(each * cells.len() == 0) by (nonlinear_arith)
            requires
                cells.len() == 0,
        ;
    }
}

/// No more cells have an opening than there are cells.
pub proof fn lemma_count_filled_bound(cells: Seq<DirectionBits>)
    ensures
        count_filled(cells) <= cells.len(),
    decreases cells.len(),
{
    if cells.len() > 0 {
        lemma_count_filled_bound(cells.drop_last());
    }
}

} // verus!
