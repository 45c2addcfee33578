//! The nodes that stand for a colour, kept in order of importance.

use crate::octree_model::{candidates, is_candidate, is_least};
use crate::octree_node::{precedes, Node};
use vstd::prelude::*;

verus! {

/// Every node knows its place and is no deeper than 8 levels.
pub open spec fn ids_in_place(nodes: Seq<Node>) -> bool {
    forall|i: int| 0 <= i < nodes.len() ==> (#[trigger] nodes[i]).node_id.0 == i && nodes[i].level <= 8
}

/// The queue names nodes of the list, each more important than those after it.
pub open spec fn ordered(nodes: Seq<Node>, queue: Seq<usize>) -> bool {
    &&& forall|a: int| 0 <= a < queue.len() ==> #[trigger] queue[a] < nodes.len()
    &&& forall|a: int, b: int|
        #![trigger queue[a], queue[b]]
        0 <= a < b < queue.len() ==> precedes(nodes[queue[b] as int], nodes[queue[a] as int])
}

/// The queue names node `i`.
pub open spec fn in_queue(queue: Seq<usize>, i: int) -> bool {
    exists|a: int| 0 <= a < queue.len() && #[trigger] queue[a] == i
}

/// The queue is in order and names exactly the nodes that stand for a colour.
pub open spec fn queue_holds(nodes: Seq<Node>, queue: Seq<usize>) -> bool {
    &&& ordered(nodes, queue)
    &&& forall|i: int| #[trigger] is_candidate(nodes, i) <==> in_queue(queue, i)
}

/// A queue in order names no node twice.
pub proof fn ordered_is_distinct(nodes: Seq<Node>, queue: Seq<usize>)
    requires
        ordered(nodes, queue),
    ensures
        queue.no_duplicates(),
{
    assert forall|a: int, b: int| 0 <= a < queue.len() && 0 <= b < queue.len() && a != b implies queue[a]
        != queue[b] by {
        if a < b {
            assert(precedes(nodes[queue[b] as int], nodes[queue[a] as int]));
        } else {
            assert(precedes(nodes[queue[a] as int], nodes[queue[b] as int]));
        }
    }
}

/// A queue that holds the candidates is as long as there are candidates.
pub proof fn queue_counts_candidates(nodes: Seq<Node>, queue: Seq<usize>)
    requires
        queue_holds(nodes, queue),
    ensures
        candidates(nodes) == queue.to_set(),
        candidates(nodes).finite(),
        candidates(nodes).len() == queue.len(),
{
    ordered_is_distinct(nodes, queue);
    queue.unique_seq_to_set();
    vstd::seq_lib::seq_to_set_is_finite(queue);
    assert forall|i: usize| candidates(nodes).contains(i) == queue.to_set().contains(i) by {
        if queue.contains(i) {
            let a = choose|a: int| 0 <= a < queue.len() && queue[a] == i;
            assert(queue[a] == i as int);
            assert(in_queue(queue, i as int));
            assert(is_candidate(nodes, i as int));
        }
        if is_candidate(nodes, i as int) {
            assert(in_queue(queue, i as int));
            let a = choose|a: int| 0 <= a < queue.len() && #[trigger] queue[a] == i as int;
            assert(queue[a] == i);
        }
    }
    assert(candidates(nodes) =~= queue.to_set());
}

/// The last node of the queue is the least important candidate.
pub proof fn last_is_least(nodes: Seq<Node>, queue: Seq<usize>)
    requires
        queue_holds(nodes, queue),
        queue.len() > 0,
    ensures
        is_least(nodes, queue.last() as int),
{
    let last = queue.len() - 1;
    let m = queue[last] as int;
    assert(in_queue(queue, m));
    assert forall|j: int| #[trigger] is_candidate(nodes, j) && j != m implies precedes(
        nodes[m],
        nodes[j],
    ) by {
        assert(in_queue(queue, j));
        let a = choose|a: int| 0 <= a < queue.len() && #[trigger] queue[a] == j;
        assert(precedes(nodes[queue[last] as int], nodes[queue[a] as int]));
    }
}

/// The same queue stays in order when the nodes it names stay as they are.
pub proof fn order_survives(before: Seq<Node>, after: Seq<Node>, queue: Seq<usize>)
    requires
        ordered(before, queue),
        before.len() == after.len(),
        forall|a: int| 0 <= a < queue.len() ==> after[#[trigger] queue[a] as int] == before[queue[a] as int],
    ensures
        ordered(after, queue),
{
    assert forall|a: int, b: int|
        #![trigger queue[a], queue[b]]
        0 <= a < b < queue.len() implies precedes(
        after[queue[b] as int],
        after[queue[a] as int],
    ) by {
        assert(precedes(before[queue[b] as int], before[queue[a] as int]));
    }
}

/// A queue without one of its nodes is in order, and names the others.
pub proof fn removal_keeps_order(nodes: Seq<Node>, queue: Seq<usize>, position: int)
    requires
        ordered(nodes, queue),
        0 <= position < queue.len(),
    ensures
        ordered(nodes, queue.remove(position)),
        forall|i: int|
            #[trigger] in_queue(queue.remove(position), i) <==> in_queue(queue, i) && i
                != queue[position],
{
    let shorter = queue.remove(position);
    ordered_is_distinct(nodes, queue);
    assert forall|a: int| 0 <= a < shorter.len() implies #[trigger] shorter[a] < nodes.len() by {
        if a < position {
            assert(shorter[a] == queue[a]);
        } else {
            assert(shorter[a] == queue[a + 1]);
        }
    }
    assert forall|a: int, b: int|
        #![trigger shorter[a], shorter[b]]
        0 <= a < b < shorter.len() implies precedes(
        nodes[shorter[b] as int],
        nodes[shorter[a] as int],
    ) by {
        let from_a = if a < position { a } else { a + 1 };
        let from_b = if b < position { b } else { b + 1 };
        assert(shorter[a] == queue[from_a]);
        assert(shorter[b] == queue[from_b]);
        assert(precedes(nodes[queue[from_b] as int], nodes[queue[from_a] as int]));
    }
    assert forall|i: int| #[trigger]
        in_queue(shorter, i) <==> in_queue(queue, i) && i != queue[position] by {
        if in_queue(shorter, i) {
            let a = choose|a: int| 0 <= a < shorter.len() && #[trigger] shorter[a] == i;
            let from_a = if a < position { a } else { a + 1 };
            assert(shorter[a] == queue[from_a]);
            assert(queue[from_a] != queue[position]);
        }
        if in_queue(queue, i) && i != queue[position] {
            let a = choose|a: int| 0 <= a < queue.len() && #[trigger] queue[a] == i;
            let to_a = if a < position { a } else { a - 1 };
            assert(shorter[to_a] == queue[a]);
        }
    }
}

/// A queue that takes a node in at its place is in order, and names it
/// besides the others.
pub proof fn insertion_keeps_order(nodes: Seq<Node>, queue: Seq<usize>, position: int, id: usize)
    requires
        ordered(nodes, queue),
        ids_in_place(nodes),
        id < nodes.len(),
        !in_queue(queue, id as int),
        0 <= position <= queue.len(),
        forall|a: int| 0 <= a < position ==> precedes(nodes[id as int], nodes[#[trigger] queue[a] as int]),
        forall|a: int|
            position <= a < queue.len() ==> !precedes(nodes[id as int], nodes[#[trigger] queue[a] as int]),
    ensures
        ordered(nodes, queue.insert(position, id)),
        forall|i: int|
            #[trigger] in_queue(queue.insert(position, id), i) <==> in_queue(queue, i) || i == id,
{
    let longer = queue.insert(position, id);
    assert forall|a: int| 0 <= a < longer.len() implies #[trigger] longer[a] < nodes.len() by {
        if a < position {
            assert(longer[a] == queue[a]);
        } else if a > position {
            assert(longer[a] == queue[a - 1]);
        }
    }
    assert forall|a: int, b: int|
        #![trigger longer[a], longer[b]]
        0 <= a < b < longer.len() implies precedes(
        nodes[longer[b] as int],
        nodes[longer[a] as int],
    ) by {
        let from_a = if a < position { a } else { a - 1 };
        let from_b = if b < position { b } else { b - 1 };
        if a == position {
            assert(longer[b] == queue[from_b]);
            assert(!precedes(nodes[id as int], nodes[queue[from_b] as int]));
            assert(in_queue(queue, queue[from_b] as int));
            assert(queue[from_b] != id);
        } else if b == position {
            assert(longer[a] == queue[from_a]);
            assert(precedes(nodes[id as int], nodes[queue[from_a] as int]));
        } else {
            assert(longer[a] == queue[from_a]);
            assert(longer[b] == queue[from_b]);
            assert(precedes(nodes[queue[from_b] as int], nodes[queue[from_a] as int]));
        }
    }
    assert forall|i: int| #[trigger] in_queue(longer, i) <==> in_queue(queue, i) || i == id by {
        if in_queue(longer, i) {
            let a = choose|a: int| 0 <= a < longer.len() && #[trigger] longer[a] == i;
            if a < position {
                assert(longer[a] == queue[a]);
            } else if a > position {
                assert(longer[a] == queue[a - 1]);
            }
        }
        if in_queue(queue, i) {
            let a = choose|a: int| 0 <= a < queue.len() && #[trigger] queue[a] == i;
            let to_a = if a < position { a } else { a + 1 };
            assert(longer[to_a] == queue[a]);
        }
        if i == id {
            assert(longer[position] == id);
        }
    }
}

/// The number of nodes in the queue that are more important than node `id`:
/// the place of the node in the queue, and the place to put it if it is not
/// there.
pub fn position_in(nodes: &Vec<Node>, queue: &Vec<usize>, id: usize) -> (position: usize)
    requires
        ordered(nodes@, queue@),
        ids_in_place(nodes@),
        id < nodes@.len(),
    ensures
        position <= queue@.len(),
        forall|a: int| 0 <= a < position ==> precedes(nodes@[id as int], nodes@[#[trigger] queue@[a] as int]),
        forall|a: int|
            position <= a < queue@.len() ==> !precedes(
                nodes@[id as int],
                nodes@[#[trigger] queue@[a] as int],
            ),
        in_queue(queue@, id as int) ==> position < queue@.len() && queue@[position as int] == id,
{
    let mut low: usize = 0;
    let mut high: usize = queue.len();
    while low < high
        invariant
            ordered(nodes@, queue@),
            ids_in_place(nodes@),
            id < nodes@.len(),
            low <= high <= queue@.len(),
            forall|a: int| 0 <= a < low ==> precedes(nodes@[id as int], nodes@[#[trigger] queue@[a] as int]),
            forall|a: int|
                high <= a < queue@.len() ==> !precedes(
                    nodes@[id as int],
                    nodes@[#[trigger] queue@[a] as int],
                ),
        decreases high - low,
    {
        let middle: usize = low + (high - low) / 2;
        let probe: usize = queue[middle];
        assert(queue@[middle as int] < nodes@.len());
        if nodes[id].is_less_important(&nodes[probe]) {
            proof {
                assert forall|a: int| 0 <= a < middle + 1 implies precedes(
                    nodes@[id as int],
                    nodes@[#[trigger] queue@[a] as int],
                ) by {
                    if a < middle {
                        assert(precedes(nodes@[queue@[middle as int] as int], nodes@[queue@[a] as int]));
                    }
                }
            }
            low = middle + 1;
        } else {
            proof {
                assert forall|a: int| middle <= a < queue@.len() implies !precedes(
                    nodes@[id as int],
                    nodes@[#[trigger] queue@[a] as int],
                ) by {
                    if a > middle {
                        assert(precedes(nodes@[queue@[a] as int], nodes@[queue@[middle as int] as int]));
                    }
                }
            }
            high = middle;
        }
    }
    proof {
        if in_queue(queue@, id as int) {
            let a = choose|a: int| 0 <= a < queue@.len() && #[trigger] queue@[a] == id;
            if a < low {
                assert(precedes(nodes@[id as int], nodes@[queue@[a] as int]));
            }
            if a > low {
                assert(precedes(nodes@[queue@[a] as int], nodes@[queue@[low as int] as int]));
                assert(!precedes(nodes@[id as int], nodes@[queue@[low as int] as int]));
            }
        }
    }
    low
}

} // verus!
