//! What the sums of a colour octree stand for: the pixels that were routed
//! through each node, whatever was inserted and folded.

use crate::octree_model::{
    built, candidates, child_ok, descended, empty_tree, empty_tree_is_wf, folded,
    folding_keeps_tree, grown, growing_keeps_tree, insert_inv, inserted, inserting_keeps_tree,
    is_candidate, is_least, is_live, least, least_is_a_leaf, least_is_unique, links_ok, place,
    reduced, stepping_keeps_tree, tally_of, tally_of_color, total, tree_inv, tree_wf,
    two_candidates, with_pixel, Tally,
};
use crate::octree_node::{
    color_index, count_children, ColorAccumulator, Node, NodeId, PIXEL_CAPACITY,
};
use vstd::prelude::*;

verus! {

/// Node `j` lies on the way of `color`: from the root down to `j`, each
/// node fills the slot of its parent that the bits of the colour name.
pub open spec fn on_way(nodes: Seq<Node>, j: int, color: [u8; 4]) -> bool
    decreases j,
{
    if j <= 0 {
        j == 0
    } else {
        let parent = place(nodes[j].parent);
        nodes[j].parent is Some && parent < j && nodes[j].color_index == color_index(
            color,
            nodes[parent].level as u8,
        ) && on_way(nodes, parent, color)
    }
}

/// The sum of a tally over the pixels whose way leads through node `j`.
pub open spec fn routed(pixels: Seq<[u8; 4]>, nodes: Seq<Node>, j: int, tally: Tally) -> nat
    decreases pixels.len(),
{
    if pixels.len() == 0 {
        0
    } else {
        routed(pixels.drop_last(), nodes, j, tally) + if on_way(nodes, j, pixels.last()) {
            tally_of_color(pixels.last(), tally)
        } else {
            0
        }
    }
}

/// The sum of a tally over the subtree that hangs in slot `slot` of node `i`.
pub open spec fn under(nodes: Seq<Node>, i: int, slot: int, tally: Tally) -> nat
    decreases nodes.len() - i, 0nat,
{
    match nodes[i].children[slot] {
        Some(child) => if 0 <= i < child.0 < nodes.len() {
            below(nodes, child.0 as int, tally)
        } else {
            0
        },
        None => 0,
    }
}

/// The sum of a tally over node `i` and all that hangs under it.
pub open spec fn below(nodes: Seq<Node>, i: int, tally: Tally) -> nat
    decreases nodes.len() - i, 1nat,
{
    if 0 <= i < nodes.len() {
        tally_of(nodes[i].accumulator, tally) + under(nodes, i, 0, tally) + under(
            nodes,
            i,
            1,
            tally,
        ) + under(nodes, i, 2, tally) + under(nodes, i, 3, tally) + under(nodes, i, 4, tally)
            + under(nodes, i, 5, tally) + under(nodes, i, 6, tally) + under(nodes, i, 7, tally)
    } else {
        0
    }
}

/// Every node of the tree holds, together with what hangs under it, the
/// pixels of `pixels` whose way leads through it, and no others.
pub open spec fn sums_hold(pixels: Seq<[u8; 4]>, nodes: Seq<Node>) -> bool {
    forall|i: int, tally: Tally|
        0 <= i < nodes.len() && is_live(nodes, i) ==> #[trigger] below(nodes, i, tally) == routed(
            pixels,
            nodes,
            i,
            tally,
        )
}

/// What a node holds with its subtree is what it holds itself and what
/// hangs in its eight slots.
pub proof fn below_unfolds(nodes: Seq<Node>, i: int, tally: Tally)
    requires
        0 <= i < nodes.len(),
    ensures
        below(nodes, i, tally) == tally_of(nodes[i].accumulator, tally) + under(
            nodes,
            i,
            0,
            tally,
        ) + under(nodes, i, 1, tally) + under(nodes, i, 2, tally) + under(nodes, i, 3, tally)
            + under(nodes, i, 4, tally) + under(nodes, i, 5, tally) + under(nodes, i, 6, tally)
            + under(nodes, i, 7, tally),
{
}

/// A node without children holds what it and its subtree hold.
pub proof fn childless_holds_itself(nodes: Seq<Node>, i: int, tally: Tally)
    requires
        0 <= i < nodes.len(),
        count_children(nodes[i].children) == 0,
    ensures
        below(nodes, i, tally) == tally_of(nodes[i].accumulator, tally),
{
    assert(forall|slot: int| 0 <= slot < 8 ==> under(nodes, i, slot, tally) == 0);
}

// ---------------------------------------------------------------------------
// Folding

/// Folding a node leaves the ways of the nodes that stay in the tree as they were.
proof fn folding_keeps_ways(nodes: Seq<Node>, m: int, other: int, i: int, color: [u8; 4])
    requires
        tree_inv(nodes, -1),
        is_least(nodes, m),
        is_candidate(nodes, other),
        other != m,
        0 <= i < nodes.len(),
        is_live(folded(nodes, m), i),
    ensures
        on_way(folded(nodes, m), i, color) == on_way(nodes, i, color),
    decreases i,
{
    let after = folded(nodes, m);
    folding_keeps_tree(nodes, m, other);
    least_is_a_leaf(nodes, m, other);
    if i > 0 {
        assert(links_ok(nodes, i));
        assert(links_ok(after, i));
        let p = place(nodes[i].parent);
        assert(after[i].parent == nodes[i].parent);
        assert(links_ok(nodes, p));
        assert(after[p].level == nodes[p].level);
        folding_keeps_ways(nodes, m, other, p, color);
    }
}

/// What folding node `m` does to slot `slot` of a node that stays in the
/// tree: the slot of the folded node is emptied, every other slot keeps its
/// child, and that child stays in the tree.
#[verifier::rlimit(50)]
proof fn folding_keeps_slots(nodes: Seq<Node>, m: int, other: int, i: int, slot: int)
    requires
        tree_inv(nodes, -1),
        is_least(nodes, m),
        is_candidate(nodes, other),
        other != m,
        0 <= i < nodes.len(),
        is_live(folded(nodes, m), i),
        0 <= slot < 8,
    ensures
        i != m,
        folded(nodes, m).len() == nodes.len(),
        i == place(nodes[m].parent) && slot == nodes[m].color_index ==> folded(
            nodes,
            m,
        )[i].children[slot] is None && nodes[i].children[slot] is Some && place(
            nodes[i].children[slot],
        ) == m,
        !(i == place(nodes[m].parent) && slot == nodes[m].color_index) ==> folded(
            nodes,
            m,
        )[i].children[slot] == nodes[i].children[slot],
        nodes[i].children[slot] is Some ==> i < place(nodes[i].children[slot]) < nodes.len(),
        nodes[i].children[slot] is Some && place(nodes[i].children[slot]) != m ==> is_live(
            folded(nodes, m),
            place(nodes[i].children[slot]),
        ),
        place(nodes[i].children[slot]) == m && nodes[i].children[slot] is Some ==> i == place(
            nodes[m].parent,
        ) && slot == nodes[m].color_index,
{
    let after = folded(nodes, m);
    folding_keeps_tree(nodes, m, other);
    let p = place(nodes[m].parent);
    let gone = nodes[m].color_index as int;
    assert(links_ok(nodes, i));
    assert(links_ok(nodes, m));
    assert(is_live(nodes, i));
    assert(child_ok(nodes, i, slot));
    if i == p {
        assert(after[p].children@ == nodes[p].children@.update(gone, None));
        if slot != gone {
            assert(after[p].children[slot] == nodes[p].children[slot]);
        }
    } else {
        assert(after[i] == nodes[i]);
    }
    if nodes[i].children[slot] is Some {
        let child = place(nodes[i].children[slot]);
        assert(links_ok(nodes, child));
    }
}

/// What the parent holds after it took in the folded node.
proof fn parent_holds_the_folded(nodes: Seq<Node>, m: int, other: int, i: int, tally: Tally)
    requires
        tree_inv(nodes, -1),
        is_least(nodes, m),
        is_candidate(nodes, other),
        other != m,
        0 <= i < nodes.len(),
        is_live(folded(nodes, m), i),
    ensures
        tally_of(folded(nodes, m)[i].accumulator, tally) == tally_of(nodes[i].accumulator, tally)
            + if i == place(nodes[m].parent) {
            tally_of(nodes[m].accumulator, tally)
        } else {
            0
        },
        below(nodes, m, tally) == tally_of(nodes[m].accumulator, tally),
        0 <= m < nodes.len(),
        0 <= nodes[m].color_index < 8,
        folded(nodes, m).len() == nodes.len(),
{
    folding_keeps_tree(nodes, m, other);
    least_is_a_leaf(nodes, m, other);
    assert(links_ok(nodes, m));
    childless_holds_itself(nodes, m, tally);
    let p = place(nodes[m].parent);
    if i != p {
        assert(folded(nodes, m)[i] == nodes[i]);
    }
}

/// Folding a node leaves what each node of the tree holds, with its
/// subtree, as it was: the parent holds itself what the folded node held.
#[verifier::rlimit(50)]
proof fn folding_keeps_subtrees(nodes: Seq<Node>, m: int, other: int, i: int, tally: Tally)
    requires
        tree_inv(nodes, -1),
        is_least(nodes, m),
        is_candidate(nodes, other),
        other != m,
        0 <= i < nodes.len(),
        is_live(folded(nodes, m), i),
    ensures
        below(folded(nodes, m), i, tally) == below(nodes, i, tally),
    decreases nodes.len() - i,
{
    let after = folded(nodes, m);
    let p = place(nodes[m].parent);
    let gone = nodes[m].color_index as int;
    parent_holds_the_folded(nodes, m, other, i, tally);
    assert forall|slot: int| 0 <= slot < 8 implies #[trigger] under(after, i, slot, tally) == (if i
        == p && slot == gone {
        0
    } else {
        under(nodes, i, slot, tally)
    }) by {
        folding_keeps_slots(nodes, m, other, i, slot);
        if !(i == p && slot == gone) && nodes[i].children[slot] is Some {
            folding_keeps_subtrees(nodes, m, other, place(nodes[i].children[slot]), tally);
        }
    }
    if i == p {
        folding_keeps_slots(nodes, m, other, i, gone);
        assert(under(nodes, p, gone, tally) == below(nodes, place(nodes[p].children[gone]), tally));
    }
    below_unfolds(nodes, i, tally);
    below_unfolds(after, i, tally);
}

/// What a tally adds up to over the same pixels is the same in two trees in
/// which the ways through the node are the same.
proof fn routed_alike(
    pixels: Seq<[u8; 4]>,
    before: Seq<Node>,
    after: Seq<Node>,
    i: int,
    tally: Tally,
)
    requires
        forall|k: int| 0 <= k < pixels.len() ==> on_way(after, i, #[trigger] pixels[k]) == on_way(
            before,
            i,
            pixels[k],
        ),
    ensures
        routed(pixels, after, i, tally) == routed(pixels, before, i, tally),
    decreases pixels.len(),
{
    if pixels.len() > 0 {
        let rest = pixels.drop_last();
        assert forall|k: int| 0 <= k < rest.len() implies on_way(after, i, #[trigger] rest[k])
            == on_way(before, i, rest[k]) by {
            assert(rest[k] == pixels[k]);
        }
        routed_alike(rest, before, after, i, tally);
        assert(pixels.last() == pixels[pixels.len() - 1]);
    }
}

/// Folding the least important node keeps the sums: every node of the tree
/// still holds, with its subtree, the pixels routed through it.
pub proof fn folding_keeps_sums(pixels: Seq<[u8; 4]>, nodes: Seq<Node>, m: int, other: int)
    requires
        tree_inv(nodes, -1),
        is_least(nodes, m),
        is_candidate(nodes, other),
        other != m,
        sums_hold(pixels, nodes),
    ensures
        sums_hold(pixels, folded(nodes, m)),
{
    let after = folded(nodes, m);
    folding_keeps_tree(nodes, m, other);
    assert forall|i: int, tally: Tally| 0 <= i < after.len() && is_live(after, i) implies #[trigger] below(
        after,
        i,
        tally,
    ) == routed(pixels, after, i, tally) by {
        folding_keeps_subtrees(nodes, m, other, i, tally);
        assert forall|k: int| 0 <= k < pixels.len() implies on_way(after, i, #[trigger] pixels[k])
            == on_way(nodes, i, pixels[k]) by {
            folding_keeps_ways(nodes, m, other, i, pixels[k]);
        }
        routed_alike(pixels, nodes, after, i, tally);
        assert(is_live(nodes, i));
        assert(below(nodes, i, tally) == routed(pixels, nodes, i, tally));
    }
}

// ---------------------------------------------------------------------------
// Inserting

/// While `color` is on its way down, every node on its way still owes it:
/// with the colour added, each node holds the pixels routed through it.
pub open spec fn owing(pixels: Seq<[u8; 4]>, color: [u8; 4], nodes: Seq<Node>) -> bool {
    forall|i: int, tally: Tally|
        0 <= i < nodes.len() && is_live(nodes, i) ==> #[trigger] below(nodes, i, tally) + (
        if on_way(nodes, i, color) {
            tally_of_color(color, tally)
        } else {
            0
        }) == routed(pixels.push(color), nodes, i, tally)
}

/// The sum of a tally over the pixels whose way leads through node `at`
/// and on into its slot `slot`.
pub open spec fn slot_share(
    pixels: Seq<[u8; 4]>,
    nodes: Seq<Node>,
    at: int,
    slot: int,
    tally: Tally,
) -> nat
    decreases pixels.len(),
{
    if pixels.len() == 0 {
        0
    } else {
        slot_share(pixels.drop_last(), nodes, at, slot, tally) + if on_way(
            nodes,
            at,
            pixels.last(),
        ) && color_index(pixels.last(), nodes[at].level as u8) == slot {
            tally_of_color(pixels.last(), tally)
        } else {
            0
        }
    }
}

/// The pixels routed through a node go on into one of its eight slots.
proof fn routed_splits_by_slot(pixels: Seq<[u8; 4]>, nodes: Seq<Node>, at: int, tally: Tally)
    ensures
        routed(pixels, nodes, at, tally) == slot_share(pixels, nodes, at, 0, tally) + slot_share(
            pixels,
            nodes,
            at,
            1,
            tally,
        ) + slot_share(pixels, nodes, at, 2, tally) + slot_share(pixels, nodes, at, 3, tally)
            + slot_share(pixels, nodes, at, 4, tally) + slot_share(pixels, nodes, at, 5, tally)
            + slot_share(pixels, nodes, at, 6, tally) + slot_share(pixels, nodes, at, 7, tally),
    decreases pixels.len(),
{
    if pixels.len() > 0 {
        routed_splits_by_slot(pixels.drop_last(), nodes, at, tally);
        assert(color_index(pixels.last(), nodes[at].level as u8) < 8);
    }
}

/// The pixels routed through a child are those routed through its parent
/// and on into the slot of the child.
proof fn routed_through_child(
    pixels: Seq<[u8; 4]>,
    nodes: Seq<Node>,
    at: int,
    child: int,
    tally: Tally,
)
    requires
        0 <= at < child < nodes.len(),
        nodes[child].parent is Some,
        place(nodes[child].parent) == at,
    ensures
        routed(pixels, nodes, child, tally) == slot_share(
            pixels,
            nodes,
            at,
            nodes[child].color_index as int,
            tally,
        ),
    decreases pixels.len(),
{
    if pixels.len() > 0 {
        routed_through_child(pixels.drop_last(), nodes, at, child, tally);
    }
}

/// Where no pixel goes into a slot, nothing adds up there.
proof fn empty_slot_adds_nothing(
    pixels: Seq<[u8; 4]>,
    nodes: Seq<Node>,
    at: int,
    slot: int,
    tally: Tally,
)
    requires
        slot_share(pixels, nodes, at, slot, Tally::Pixels) == 0,
    ensures
        slot_share(pixels, nodes, at, slot, tally) == 0,
    decreases pixels.len(),
{
    if pixels.len() > 0 {
        empty_slot_adds_nothing(pixels.drop_last(), nodes, at, slot, tally);
    }
}

/// A node appended under `at` leaves the ways of the other nodes as they were.
pub proof fn growing_keeps_ways(nodes: Seq<Node>, at: int, slot: int, i: int, color: [u8; 4])
    requires
        0 <= at < nodes.len(),
        0 <= i < nodes.len(),
        nodes.len() <= usize::MAX,
    ensures
        on_way(grown(nodes, at, slot), i, color) == on_way(nodes, i, color),
    decreases i,
{
    let after = grown(nodes, at, slot);
    if i > 0 {
        assert(after[i].parent == nodes[i].parent);
        assert(after[i].color_index == nodes[i].color_index);
        let p = place(nodes[i].parent);
        if nodes[i].parent is Some && p < i {
            assert(after[p].level == nodes[p].level);
            growing_keeps_ways(nodes, at, slot, p, color);
        }
    }
}

/// A node appended under `at` leaves what the other nodes hold, with their
/// subtrees, as it was; the new node holds nothing.
#[verifier::rlimit(50)]
proof fn growing_keeps_subtrees(nodes: Seq<Node>, at: int, slot: int, i: int, tally: Tally)
    requires
        insert_inv(nodes, at),
        nodes[at].level < 8,
        0 <= slot < 8,
        nodes[at].children[slot] is None,
        nodes.len() <= usize::MAX,
        0 <= i < nodes.len(),
    ensures
        below(grown(nodes, at, slot), i, tally) == below(nodes, i, tally),
        below(grown(nodes, at, slot), nodes.len() as int, tally) == 0,
    decreases nodes.len() - i,
{
    let after = grown(nodes, at, slot);
    let id = nodes.len() as int;
    childless_holds_itself(after, id, tally);
    assert(links_ok(nodes, i));
    assert(is_live(nodes, i));
    assert(after[at].children@ == nodes[at].children@.update(slot, Some(NodeId(id as usize))));
    assert forall|s: int| 0 <= s < 8 implies #[trigger] under(after, i, s, tally) == under(
        nodes,
        i,
        s,
        tally,
    ) by {
        assert(child_ok(nodes, i, s));
        if i == at && s == slot {
            assert(after[at].children[slot] == Some(NodeId(id as usize)));
        } else {
            assert(after[i].children[s] == nodes[i].children[s]);
            if nodes[i].children[s] is Some {
                growing_keeps_subtrees(nodes, at, slot, place(nodes[i].children[s]), tally);
            }
        }
    }
    below_unfolds(nodes, i, tally);
    below_unfolds(after, i, tally);
    assert(after[i].accumulator == nodes[i].accumulator);
}

/// No pixel inserted before goes into a slot that is still empty.
#[verifier::rlimit(50)]
proof fn empty_slot_has_no_pixel(
    pixels: Seq<[u8; 4]>,
    color: [u8; 4],
    nodes: Seq<Node>,
    at: int,
    slot: int,
)
    requires
        insert_inv(nodes, at),
        nodes[at].level < 8,
        slot == color_index(color, nodes[at].level as u8),
        nodes[at].children[slot] is None,
        on_way(nodes, at, color),
        owing(pixels, color, nodes),
    ensures
        slot_share(pixels, nodes, at, slot, Tally::Pixels) == 0,
{
    let tally = Tally::Pixels;
    assert(links_ok(nodes, at));
    assert(is_live(nodes, at));
    assert(pixels.push(color).drop_last() =~= pixels);
    assert(below(nodes, at, tally) == routed(pixels, nodes, at, tally));
    routed_splits_by_slot(pixels, nodes, at, tally);
    assert(nodes[at].accumulator == ColorAccumulator::zero());
    assert forall|s: int| 0 <= s < 8 implies #[trigger] under(nodes, at, s, tally) == (
    if nodes[at].children[s] is Some {
        slot_share(pixels, nodes, at, s, tally)
    } else {
        0
    }) by {
        assert(child_ok(nodes, at, s));
        if nodes[at].children[s] is Some {
            let child = place(nodes[at].children[s]);
            assert(is_live(nodes, child));
            assert(!on_way(nodes, child, color));
            assert(below(nodes, child, tally) + 0 == routed(pixels.push(color), nodes, child, tally));
            assert(below(nodes, child, tally) == routed(pixels, nodes, child, tally));
            routed_through_child(pixels, nodes, at, child, tally);
        }
    }
    below_unfolds(nodes, at, tally);
}

/// Growing the node that the colour needs next keeps what every node owes.
#[verifier::rlimit(50)]
proof fn growing_keeps_owing(
    pixels: Seq<[u8; 4]>,
    color: [u8; 4],
    nodes: Seq<Node>,
    at: int,
    slot: int,
)
    requires
        insert_inv(nodes, at),
        nodes[at].level < 8,
        slot == color_index(color, nodes[at].level as u8),
        nodes[at].children[slot] is None,
        nodes.len() <= usize::MAX,
        on_way(nodes, at, color),
        owing(pixels, color, nodes),
    ensures
        owing(pixels, color, grown(nodes, at, slot)),
        on_way(grown(nodes, at, slot), nodes.len() as int, color),
{
    let after = grown(nodes, at, slot);
    let id = nodes.len() as int;
    let all = pixels.push(color);
    growing_keeps_tree(nodes, at, slot);
    empty_slot_has_no_pixel(pixels, color, nodes, at, slot);
    growing_keeps_ways(nodes, at, slot, at, color);
    assert(on_way(after, id, color));
    assert(all.drop_last() =~= pixels);
    assert forall|i: int, tally: Tally| 0 <= i < after.len() && is_live(after, i) implies #[trigger] below(
        after,
        i,
        tally,
    ) + (if on_way(after, i, color) {
        tally_of_color(color, tally)
    } else {
        0
    }) == routed(all, after, i, tally) by {
        if i < id {
            growing_keeps_subtrees(nodes, at, slot, i, tally);
            growing_keeps_ways(nodes, at, slot, i, color);
            assert forall|k: int| 0 <= k < all.len() implies on_way(after, i, #[trigger] all[k])
                == on_way(nodes, i, all[k]) by {
                growing_keeps_ways(nodes, at, slot, i, all[k]);
            }
            routed_alike(all, nodes, after, i, tally);
            assert(is_live(nodes, i));
            assert(below(nodes, i, tally) + (if on_way(nodes, i, color) {
                tally_of_color(color, tally)
            } else {
                0
            }) == routed(all, nodes, i, tally));
        } else {
            growing_keeps_subtrees(nodes, at, slot, at, tally);
            empty_slot_adds_nothing(pixels, nodes, at, slot, tally);
            new_node_has_no_pixel(pixels, nodes, at, slot, tally);
        }
    }
}

/// The pixels routed through the new node are those that went into its slot
/// before: none.
proof fn new_node_has_no_pixel(
    pixels: Seq<[u8; 4]>,
    nodes: Seq<Node>,
    at: int,
    slot: int,
    tally: Tally,
)
    requires
        0 <= at < nodes.len(),
        nodes.len() <= usize::MAX,
        0 <= slot < 8,
    ensures
        routed(pixels, grown(nodes, at, slot), nodes.len() as int, tally) == slot_share(
            pixels,
            nodes,
            at,
            slot,
            tally,
        ),
    decreases pixels.len(),
{
    if pixels.len() > 0 {
        new_node_has_no_pixel(pixels.drop_last(), nodes, at, slot, tally);
        growing_keeps_ways(nodes, at, slot, at, pixels.last());
    }
}

/// Two nodes of the same level on the way of one colour are one node.
pub proof fn one_node_per_level(nodes: Seq<Node>, open: int, color: [u8; 4], i: int, j: int)
    requires
        insert_inv(nodes, open),
        0 <= i < nodes.len(),
        0 <= j < nodes.len(),
        on_way(nodes, i, color),
        on_way(nodes, j, color),
        nodes[i].level == nodes[j].level,
    ensures
        i == j,
    decreases i,
{
    assert(links_ok(nodes, i));
    assert(links_ok(nodes, j));
    if i > 0 && j > 0 {
        let p = place(nodes[i].parent);
        let q = place(nodes[j].parent);
        one_node_per_level(nodes, open, color, p, q);
    }
}

/// Above a node on the way of a colour, there is a node on that way at
/// every level in between.
proof fn ancestor_at_level(nodes: Seq<Node>, open: int, color: [u8; 4], from: int, level: int) -> (found:
    int)
    requires
        insert_inv(nodes, open),
        0 <= from < nodes.len(),
        on_way(nodes, from, color),
        0 <= level <= nodes[from].level,
    ensures
        0 <= found < nodes.len(),
        on_way(nodes, found, color),
        nodes[found].level == level,
    decreases from,
{
    assert(links_ok(nodes, from));
    if nodes[from].level == level {
        from
    } else {
        ancestor_at_level(nodes, open, color, place(nodes[from].parent), level)
    }
}

/// A node on the way of a colour, above the node of level 8 on that way,
/// has the next node of the way in the slot that the colour names.
proof fn next_on_way(nodes: Seq<Node>, open: int, color: [u8; 4], leaf: int, i: int) -> (next: int)
    requires
        insert_inv(nodes, open),
        0 <= leaf < nodes.len(),
        on_way(nodes, leaf, color),
        nodes[leaf].level == 8,
        0 <= i < nodes.len(),
        on_way(nodes, i, color),
        nodes[i].level < 8,
    ensures
        i < next < nodes.len(),
        nodes[i].children[color_index(color, nodes[i].level as u8) as int] == Some(
            NodeId(next as usize),
        ),
        on_way(nodes, next, color),
{
    let next = ancestor_at_level(nodes, open, color, leaf, nodes[i].level + 1);
    assert(links_ok(nodes, next));
    let p = place(nodes[next].parent);
    one_node_per_level(nodes, open, color, p, i);
    next
}

/// The slot of node `i` through which the way of the colour goes on, or -1
/// where the way does not lead through `i` or ends there.
pub open spec fn paid_slot(nodes: Seq<Node>, i: int, color: [u8; 4]) -> int {
    if on_way(nodes, i, color) && nodes[i].level < 8 {
        color_index(color, nodes[i].level as u8) as int
    } else {
        -1
    }
}

/// Of the children of a node, the one in the paid slot is on the way of
/// the colour, and no other.
proof fn way_goes_through_paid_slot(nodes: Seq<Node>, leaf: int, color: [u8; 4], i: int, slot: int)
    requires
        insert_inv(nodes, leaf),
        nodes[leaf].level == 8,
        on_way(nodes, leaf, color),
        0 <= i < nodes.len(),
        0 <= slot < 8,
    ensures
        nodes[i].children[slot] is Some ==> i < place(nodes[i].children[slot]) < nodes.len()
            && on_way(nodes, place(nodes[i].children[slot]), color) == (slot == paid_slot(
            nodes,
            i,
            color,
        )),
        nodes[i].children[slot] is None ==> slot != paid_slot(nodes, i, color),
{
    assert(links_ok(nodes, i));
    assert(is_live(nodes, i));
    assert(child_ok(nodes, i, slot));
    if on_way(nodes, i, color) && nodes[i].level < 8 {
        let next = next_on_way(nodes, leaf, color, leaf, i);
    }
    if nodes[i].children[slot] is Some {
        let child = place(nodes[i].children[slot]);
        assert(links_ok(nodes, child));
        if on_way(nodes, child, color) {
            assert(nodes[i].level < 8);
        }
    }
}

/// The node that counts one more pixel holds that pixel more.
proof fn leaf_gains_the_color(nodes: Seq<Node>, leaf: int, color: [u8; 4], tally: Tally)
    requires
        insert_inv(nodes, leaf),
        total(nodes, Tally::Pixels) < PIXEL_CAPACITY,
    ensures
        tally_of(with_pixel(nodes[leaf], color).accumulator, tally) == tally_of(
            nodes[leaf].accumulator,
            tally,
        ) + tally_of_color(color, tally),
{
    assert(links_ok(nodes, leaf));
    assert(is_live(nodes, leaf));
    crate::octree_model::one_share_fits(nodes, Tally::Pixels, nodes.len(), leaf);
}

/// Counting the colour at the node of level 8 on its way adds the colour to
/// what each node on the way holds with its subtree, and to no other.
#[verifier::rlimit(50)]
proof fn counting_pays_the_way(
    nodes: Seq<Node>,
    leaf: int,
    color: [u8; 4],
    i: int,
    tally: Tally,
)
    requires
        insert_inv(nodes, leaf),
        nodes[leaf].level == 8,
        total(nodes, Tally::Pixels) < PIXEL_CAPACITY,
        on_way(nodes, leaf, color),
        0 <= i < nodes.len(),
    ensures
        below(nodes.update(leaf, with_pixel(nodes[leaf], color)), i, tally) == below(
            nodes,
            i,
            tally,
        ) + if on_way(nodes, i, color) {
            tally_of_color(color, tally)
        } else {
            0
        },
    decreases nodes.len() - i,
{
    let after = nodes.update(leaf, with_pixel(nodes[leaf], color));
    let paid = paid_slot(nodes, i, color);
    below_unfolds(nodes, i, tally);
    below_unfolds(after, i, tally);
    assert(after[i].children == nodes[i].children);
    assert forall|s: int| 0 <= s < 8 implies #[trigger] under(after, i, s, tally) == under(
        nodes,
        i,
        s,
        tally,
    ) + if s == paid {
        tally_of_color(color, tally)
    } else {
        0
    } by {
        way_goes_through_paid_slot(nodes, leaf, color, i, s);
        if nodes[i].children[s] is Some {
            counting_pays_the_way(nodes, leaf, color, place(nodes[i].children[s]), tally);
        }
    }
    let gain = if on_way(nodes, i, color) {
        tally_of_color(color, tally)
    } else {
        0
    };
    assert(links_ok(nodes, i));
    assert(0 <= color_index(color, nodes[i].level as u8) < 8);
    if i != leaf {
        assert(after[i] == nodes[i]);
        if on_way(nodes, i, color) && nodes[i].level == 8 {
            one_node_per_level(nodes, leaf, color, i, leaf);
        }
        assert(tally_of(after[i].accumulator, tally) == tally_of(nodes[i].accumulator, tally));
        assert(0 <= paid < 8 <==> on_way(nodes, i, color));
    } else {
        leaf_gains_the_color(nodes, leaf, color, tally);
        assert(paid == -1);
        assert(tally_of(after[i].accumulator, tally) == tally_of(nodes[i].accumulator, tally)
            + gain);
    }
    assert(under(after, i, 0, tally) + under(after, i, 1, tally) + under(after, i, 2, tally)
        + under(after, i, 3, tally) + under(after, i, 4, tally) + under(after, i, 5, tally)
        + under(after, i, 6, tally) + under(after, i, 7, tally) == under(nodes, i, 0, tally)
        + under(nodes, i, 1, tally) + under(nodes, i, 2, tally) + under(nodes, i, 3, tally)
        + under(nodes, i, 4, tally) + under(nodes, i, 5, tally) + under(nodes, i, 6, tally)
        + under(nodes, i, 7, tally) + if 0 <= paid < 8 {
        tally_of_color(color, tally)
    } else {
        0
    });
}

/// Counting the colour at the end of its way settles what every node owes.
proof fn counting_settles_sums(
    pixels: Seq<[u8; 4]>,
    color: [u8; 4],
    nodes: Seq<Node>,
    leaf: int,
)
    requires
        insert_inv(nodes, leaf),
        nodes[leaf].level == 8,
        total(nodes, Tally::Pixels) < PIXEL_CAPACITY,
        on_way(nodes, leaf, color),
        owing(pixels, color, nodes),
    ensures
        sums_hold(pixels.push(color), nodes.update(leaf, with_pixel(nodes[leaf], color))),
{
    let after = nodes.update(leaf, with_pixel(nodes[leaf], color));
    let all = pixels.push(color);
    assert forall|i: int, tally: Tally| 0 <= i < after.len() && is_live(after, i) implies #[trigger] below(
        after,
        i,
        tally,
    ) == routed(all, after, i, tally) by {
        counting_pays_the_way(nodes, leaf, color, i, tally);
        assert forall|k: int| 0 <= k < all.len() implies on_way(after, i, #[trigger] all[k])
            == on_way(nodes, i, all[k]) by {
            counting_keeps_ways(nodes, leaf, color, i, all[k]);
        }
        routed_alike(all, nodes, after, i, tally);
        assert(is_live(nodes, i));
        assert(below(nodes, i, tally) + (if on_way(nodes, i, color) {
            tally_of_color(color, tally)
        } else {
            0
        }) == routed(all, nodes, i, tally));
    }
}

/// Counting a colour leaves the ways as they were.
pub proof fn counting_keeps_ways(nodes: Seq<Node>, leaf: int, color: [u8; 4], i: int, other: [u8; 4])
    requires
        0 <= leaf < nodes.len(),
        0 <= i < nodes.len(),
    ensures
        on_way(nodes.update(leaf, with_pixel(nodes[leaf], color)), i, other) == on_way(
            nodes,
            i,
            other,
        ),
    decreases i,
{
    let after = nodes.update(leaf, with_pixel(nodes[leaf], color));
    if i > 0 {
        assert(after[i].parent == nodes[i].parent);
        let p = place(nodes[i].parent);
        if nodes[i].parent is Some && p < i {
            assert(after[p].level == nodes[p].level);
            counting_keeps_ways(nodes, leaf, color, p, other);
        }
    }
}

/// A colour that goes down from a node on its way leaves a tree in which
/// every node holds, with its subtree, the pixels routed through it.
proof fn descending_keeps_sums(
    pixels: Seq<[u8; 4]>,
    color: [u8; 4],
    nodes: Seq<Node>,
    at: int,
    level: nat,
)
    requires
        insert_inv(nodes, at),
        nodes[at].level == level,
        nodes.len() + 8 - level <= usize::MAX,
        total(nodes, Tally::Pixels) < PIXEL_CAPACITY,
        on_way(nodes, at, color),
        owing(pixels, color, nodes),
    ensures
        sums_hold(pixels.push(color), descended(nodes, color, at, level)),
    decreases 8 - level,
{
    assert(links_ok(nodes, at));
    if level >= 8 {
        counting_settles_sums(pixels, color, nodes, at);
    } else {
        let slot = color_index(color, level as u8) as int;
        match nodes[at].children[slot] {
            Some(child) => {
                stepping_keeps_tree(nodes, at, slot);
                assert(child_ok(nodes, at, slot));
                assert(is_live(nodes, at));
                assert(on_way(nodes, child.0 as int, color));
                descending_keeps_sums(pixels, color, nodes, child.0 as int, level + 1);
            },
            None => {
                growing_keeps_tree(nodes, at, slot);
                growing_keeps_owing(pixels, color, nodes, at, slot);
                descending_keeps_sums(
                    pixels,
                    color,
                    grown(nodes, at, slot),
                    nodes.len() as int,
                    level + 1,
                );
            },
        }
    }
}

/// Inserting a colour keeps the sums: every node holds, with its subtree,
/// the pixels routed through it, the new one among them.
pub proof fn inserting_keeps_sums(pixels: Seq<[u8; 4]>, nodes: Seq<Node>, color: [u8; 4])
    requires
        tree_wf(nodes),
        nodes.len() + 8 <= usize::MAX,
        total(nodes, Tally::Pixels) < PIXEL_CAPACITY,
        sums_hold(pixels, nodes),
    ensures
        sums_hold(pixels.push(color), inserted(nodes, color)),
{
    assert(links_ok(nodes, 0));
    assert((pixels.push(color)).drop_last() =~= pixels);
    assert forall|i: int, tally: Tally| 0 <= i < nodes.len() && is_live(nodes, i) implies #[trigger] below(
        nodes,
        i,
        tally,
    ) + (if on_way(nodes, i, color) {
        tally_of_color(color, tally)
    } else {
        0
    }) == routed(pixels.push(color), nodes, i, tally) by {
        assert(below(nodes, i, tally) == routed(pixels, nodes, i, tally));
    }
    descending_keeps_sums(pixels, color, nodes, 0, 0);
}

// ---------------------------------------------------------------------------
// Whole trees

/// A colour that goes down makes at most one node for each level still to go.
proof fn descending_makes_few_nodes(nodes: Seq<Node>, color: [u8; 4], at: int, level: nat)
    requires
        insert_inv(nodes, at),
        nodes[at].level == level,
        nodes.len() + 8 - level <= usize::MAX,
    ensures
        nodes.len() <= descended(nodes, color, at, level).len() <= nodes.len() + 8 - level,
    decreases 8 - level,
{
    assert(links_ok(nodes, at));
    if level < 8 {
        let slot = color_index(color, level as u8) as int;
        match nodes[at].children[slot] {
            Some(child) => {
                stepping_keeps_tree(nodes, at, slot);
                descending_makes_few_nodes(nodes, color, child.0 as int, level + 1);
            },
            None => {
                growing_keeps_tree(nodes, at, slot);
                descending_makes_few_nodes(
                    grown(nodes, at, slot),
                    color,
                    nodes.len() as int,
                    level + 1,
                );
            },
        }
    }
}

/// The tree built from a list of pixels is a tree of at most eight nodes
/// for each pixel and a root; it adds up to the pixels; and every node
/// holds, with its subtree, the pixels routed through it.
pub proof fn built_tree_holds_sums(pixels: Seq<[u8; 4]>)
    requires
        pixels.len() <= PIXEL_CAPACITY,
        8 * pixels.len() + 1 <= usize::MAX,
    ensures
        tree_wf(built(pixels)),
        built(pixels).len() <= 8 * pixels.len() + 1,
        forall|tally: Tally| #[trigger]
            total(built(pixels), tally) == crate::octree_model::color_sum(pixels, tally),
        sums_hold(pixels, built(pixels)),
    decreases pixels.len(),
{
    if pixels.len() == 0 {
        empty_tree_is_wf();
        let list = empty_tree();
        assert forall|i: int, tally: Tally| 0 <= i < list.len() && is_live(list, i) implies #[trigger] below(
            list,
            i,
            tally,
        ) == routed(pixels, list, i, tally) by {
            childless_holds_itself(list, 0, tally);
        }
    } else {
        let before = pixels.drop_last();
        let color = pixels.last();
        built_tree_holds_sums(before);
        let tree = built(before);
        assert(total(tree, Tally::Pixels) == crate::octree_model::color_sum(before, Tally::Pixels));
        pixels_count_themselves(before);
        inserting_keeps_tree(tree, color);
        inserting_keeps_sums(before, tree, color);
        assert(links_ok(tree, 0));
        descending_makes_few_nodes(tree, color, 0, 0);
        assert(pixels =~= before.push(color));
        assert forall|tally: Tally| #[trigger]
            total(built(pixels), tally) == crate::octree_model::color_sum(pixels, tally) by {
            assert(total(tree, tally) == crate::octree_model::color_sum(before, tally));
        }
    }
}

/// The pixels of a list are as many as the list is long.
proof fn pixels_count_themselves(pixels: Seq<[u8; 4]>)
    ensures
        crate::octree_model::color_sum(pixels, Tally::Pixels) == pixels.len(),
    decreases pixels.len(),
{
    if pixels.len() > 0 {
        pixels_count_themselves(pixels.drop_last());
    }
}

/// Folding a tree down to `k` colours, or part of the way, keeps the sums:
/// every node left in the tree holds, with its subtree, the pixels routed
/// through it.
pub proof fn reduction_keeps_sums(pixels: Seq<[u8; 4]>, nodes: Seq<Node>, k: nat, fuel: nat)
    requires
        tree_inv(nodes, -1),
        sums_hold(pixels, nodes),
        k >= 1,
    ensures
        tree_inv(reduced(nodes, k, fuel), -1),
        sums_hold(pixels, reduced(nodes, k, fuel)),
    decreases fuel,
{
    if fuel == 0 || candidates(nodes).len() <= k {
    } else {
        let (m, other) = two_candidates(nodes);
        least_is_unique(nodes, m, least(nodes));
        folding_keeps_tree(nodes, m, other);
        folding_keeps_sums(pixels, nodes, m, other);
        reduction_keeps_sums(pixels, folded(nodes, m), k, (fuel - 1) as nat);
    }
}

/// Before a tree is folded, a node of level 8 holds the pixels routed to
/// it: it counts them, and adds up each of their channels.
pub proof fn leaf_holds_its_pixels(pixels: Seq<[u8; 4]>, nodes: Seq<Node>, leaf: int, tally: Tally)
    requires
        tree_wf(nodes),
        sums_hold(pixels, nodes),
        0 <= leaf < nodes.len(),
        nodes[leaf].level == 8,
    ensures
        tally_of(nodes[leaf].accumulator, tally) == routed(pixels, nodes, leaf, tally),
{
    assert(links_ok(nodes, leaf));
    assert(is_live(nodes, leaf));
    childless_holds_itself(nodes, leaf, tally);
    assert(below(nodes, leaf, tally) == routed(pixels, nodes, leaf, tally));
}

/// The root holds, with all that hangs under it, every pixel.
pub proof fn root_holds_every_pixel(pixels: Seq<[u8; 4]>, nodes: Seq<Node>, tally: Tally)
    requires
        nodes.len() >= 1,
        sums_hold(pixels, nodes),
    ensures
        below(nodes, 0, tally) == crate::octree_model::color_sum(pixels, tally),
{
    assert(is_live(nodes, 0));
    assert(below(nodes, 0, tally) == routed(pixels, nodes, 0, tally));
    every_way_starts_at_the_root(pixels, nodes, tally);
}

/// Every pixel is routed through the root.
proof fn every_way_starts_at_the_root(pixels: Seq<[u8; 4]>, nodes: Seq<Node>, tally: Tally)
    ensures
        routed(pixels, nodes, 0, tally) == crate::octree_model::color_sum(pixels, tally),
    decreases pixels.len(),
{
    if pixels.len() > 0 {
        every_way_starts_at_the_root(pixels.drop_last(), nodes, tally);
    }
}

} // verus!
