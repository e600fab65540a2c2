//! The order in which a collection hands out its members, read as a set
//! that grows by one member with every step of a loop.

use vstd::prelude::*;

verus! {

/// `cell` is one of the first `count` entries of `order`.
pub open spec fn among_first(order: Seq<&usize>, count: int, cell: usize) -> bool {
    exists|j: int| 0 <= j < count && *#[trigger] order[j] == cell
}

/// The first `count` entries of `order`, as a set.
pub open spec fn taken(order: Seq<&usize>, count: int) -> Set<usize> {
    Set::new(|cell: usize| among_first(order, count, cell))
}

/// Nothing is taken before the first step.
pub proof fn lemma_taken_none(order: Seq<&usize>)
    ensures
        taken(order, 0) == Set::<usize>::empty(),
{
    assert(taken(order, 0) =~= Set::<usize>::empty());
}

/// A step takes the next entry, and nothing else.
pub proof fn lemma_taken_step(order: Seq<&usize>, count: int)
    requires
        0 <= count < order.len(),
    ensures
        taken(order, count + 1) == taken(order, count).insert(*order[count]),
{
    let next = *order[count];
    assert forall|cell: usize|
        taken(order, count + 1).contains(cell) <==> taken(order, count).insert(next).contains(
            cell,
        ) by {
        if among_first(order, count + 1, cell) {
            let j = choose|j: int| 0 <= j < count + 1 && *#[trigger] order[j] == cell;
            if j < count {
                assert(0 <= j < count && *order[j] == cell);
            }
        }
        if cell == next {
            assert(0 <= count < count + 1 && *order[count] == cell);
        }
        if among_first(order, count, cell) {
            let j = choose|j: int| 0 <= j < count && *#[trigger] order[j] == cell;
            assert(0 <= j < count + 1 && *order[j] == cell);
        }
    }
    assert(taken(order, count + 1) =~= taken(order, count).insert(next));
}

/// Once every entry is taken, the members of the collection are.
pub proof fn lemma_taken_all(order: Seq<&usize>, members: Set<usize>)
    requires
        order.unref().to_set() == members,
    ensures
        taken(order, order.len() as int) == members,
{
    assert forall|cell: usize| members.contains(cell) <==> taken(
        order,
        order.len() as int,
    ).contains(cell) by {
        if members.contains(cell) {
            let j = choose|j: int| 0 <= j < order.unref().len() && order.unref()[j] == cell;
            assert(*order[j] == cell);
        }
        if among_first(order, order.len() as int, cell) {
            let j = choose|j: int| 0 <= j < order.len() && *#[trigger] order[j] == cell;
            assert(order.unref()[j] == cell);
        }
    }
    assert(taken(order, order.len() as int) =~= members);
}

} // verus!
