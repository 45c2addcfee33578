//! What a colour octree is, as a list of nodes, and how inserting a colour
//! and folding a node change it.

use crate::octree_node::{
    color_index, count_children, precedes, ColorAccumulator, Node, NodeId, PIXEL_CAPACITY,
};
use vstd::prelude::*;

verus! {

/// What an accumulator adds up.
pub enum Tally {
    Pixels,
    Red,
    Green,
    Blue,
}

/// One of the four sums of an accumulator.
pub open spec fn tally_of(accumulator: ColorAccumulator, tally: Tally) -> nat {
    match tally {
        Tally::Pixels => accumulator.pixel_count as nat,
        Tally::Red => accumulator.r as nat,
        Tally::Green => accumulator.g as nat,
        Tally::Blue => accumulator.b as nat,
    }
}

/// One of the four channels of a colour; a colour is one pixel.
pub open spec fn tally_of_color(color: [u8; 4], tally: Tally) -> nat {
    match tally {
        Tally::Pixels => 1,
        Tally::Red => color[0] as nat,
        Tally::Green => color[1] as nat,
        Tally::Blue => color[2] as nat,
    }
}

/// A node is in the tree: it is the root, or hangs under a parent. A node
/// that was folded into its parent has no parent left.
pub open spec fn is_live(nodes: Seq<Node>, i: int) -> bool {
    i == 0 || nodes[i].parent is Some
}

/// The place that an id names, or 0 where there is none.
pub open spec fn place(id: Option<NodeId>) -> int {
    match id {
        Some(found) => found.0 as int,
        None => 0,
    }
}

/// What node `i` adds to a sum over the tree.
pub open spec fn share(nodes: Seq<Node>, tally: Tally, i: int) -> nat {
    if is_live(nodes, i) {
        tally_of(nodes[i].accumulator, tally)
    } else {
        0
    }
}

/// The sum of a tally over the first `n` nodes that are in the tree.
pub open spec fn live_sum(nodes: Seq<Node>, tally: Tally, n: nat) -> nat
    decreases n,
{
    if n == 0 {
        0
    } else {
        live_sum(nodes, tally, (n - 1) as nat) + share(nodes, tally, n - 1)
    }
}

/// The sum of a tally over the tree.
pub open spec fn total(nodes: Seq<Node>, tally: Tally) -> nat {
    live_sum(nodes, tally, nodes.len())
}

/// Slot `slot` of node `i`, if filled, names a later node that knows `i` as
/// its parent and `slot` as its slot.
pub open spec fn child_ok(nodes: Seq<Node>, i: int, slot: int) -> bool {
    nodes[i].children[slot] matches Some(child) ==> i < child.0 < nodes.len() && nodes[child.0 as int].parent
        == Some(NodeId(i as usize)) && nodes[child.0 as int].color_index == slot
}

/// Node `i` agrees with its neighbours: its id is its place, its parent is
/// an earlier node in the tree that lists it, its children list it as
/// parent, and it counts them.
pub open spec fn links_ok(nodes: Seq<Node>, i: int) -> bool {
    let node = nodes[i];
    &&& node.node_id.0 == i
    &&& node.level <= 8
    &&& node.color_index < 8
    &&& node.accumulator.bounded()
    &&& (i == 0 ==> node.parent is None && node.level == 0)
    &&& (node.parent matches Some(parent) ==> {
        &&& i > 0
        &&& parent.0 < i
        &&& is_live(nodes, parent.0 as int)
        &&& nodes[parent.0 as int].children[node.color_index as int] == Some(NodeId(i as usize))
        &&& nodes[parent.0 as int].level + 1 == node.level
    })
    &&& (is_live(nodes, i) ==> node.child_count == count_children(node.children))
    &&& (is_live(nodes, i) ==> forall|slot: int| 0 <= slot < 8 ==> #[trigger] child_ok(nodes, i, slot))
}

/// A node without children holds pixels, unless it is the root of a tree
/// that holds nothing.
pub open spec fn settled(nodes: Seq<Node>, i: int) -> bool {
    nodes[i].child_count == 0 ==> nodes[i].accumulator.pixel_count > 0 || nodes.len() == 1
}

/// The nodes form a tree in which every node other than `open` is settled,
/// and which counts no more pixels than it can.
pub open spec fn tree_inv(nodes: Seq<Node>, open: int) -> bool {
    &&& nodes.len() >= 1
    &&& forall|i: int| 0 <= i < nodes.len() ==> #[trigger] links_ok(nodes, i)
    &&& forall|i: int|
        0 <= i < nodes.len() && is_live(nodes, i) && i != open ==> #[trigger] settled(nodes, i)
    &&& total(nodes, Tally::Pixels) <= PIXEL_CAPACITY
}

/// No node was folded yet: all are in the tree, and pixels are held by the
/// nodes of level 8 alone, which have no children.
pub open spec fn unfolded(nodes: Seq<Node>) -> bool {
    forall|i: int|
        0 <= i < nodes.len() ==> {
            &&& #[trigger] is_live(nodes, i)
            &&& (nodes[i].level < 8 ==> nodes[i].accumulator == ColorAccumulator::zero())
            &&& (nodes[i].level == 8 ==> nodes[i].child_count == 0)
        }
}

/// A tree as colours are inserted into it.
pub open spec fn tree_wf(nodes: Seq<Node>) -> bool {
    tree_inv(nodes, -1) && unfolded(nodes)
}

// ---------------------------------------------------------------------------
// Sums

/// Nodes that differ in one place have sums that differ by that place.
pub proof fn sum_changes_at(a: Seq<Node>, b: Seq<Node>, tally: Tally, n: nat, j: int)
    requires
        n <= a.len(),
        a.len() == b.len(),
        forall|i: int| 0 <= i < n && i != j ==> share(a, tally, i) == share(b, tally, i),
    ensures
        0 <= j < n ==> live_sum(b, tally, n) + share(a, tally, j) == live_sum(a, tally, n) + share(
            b,
            tally,
            j,
        ),
        !(0 <= j < n) ==> live_sum(b, tally, n) == live_sum(a, tally, n),
    decreases n,
{
    if n > 0 {
        sum_changes_at(a, b, tally, (n - 1) as nat, j);
    }
}

/// A node appended to the list adds its share to the sum.
pub proof fn sum_after_push(nodes: Seq<Node>, node: Node, tally: Tally, n: nat)
    requires
        n <= nodes.len(),
    ensures
        live_sum(nodes.push(node), tally, n) == live_sum(nodes, tally, n),
    decreases n,
{
    if n > 0 {
        sum_after_push(nodes, node, tally, (n - 1) as nat);
        assert(nodes.push(node)[n - 1] == nodes[n - 1]);
    }
}

/// Two different nodes together hold no more than the whole tree.
pub proof fn two_shares_fit(nodes: Seq<Node>, tally: Tally, n: nat, i: int, j: int)
    requires
        n <= nodes.len(),
        0 <= i < n,
        0 <= j < n,
        i != j,
    ensures
        share(nodes, tally, i) + share(nodes, tally, j) <= live_sum(nodes, tally, n),
    decreases n,
{
    if i == n - 1 {
        one_share_fits(nodes, tally, (n - 1) as nat, j);
    } else if j == n - 1 {
        one_share_fits(nodes, tally, (n - 1) as nat, i);
    } else {
        two_shares_fit(nodes, tally, (n - 1) as nat, i, j);
    }
}

/// A node holds no more than the whole tree.
pub proof fn one_share_fits(nodes: Seq<Node>, tally: Tally, n: nat, i: int)
    requires
        n <= nodes.len(),
        0 <= i < n,
    ensures
        share(nodes, tally, i) <= live_sum(nodes, tally, n),
    decreases n,
{
    if i != n - 1 {
        one_share_fits(nodes, tally, (n - 1) as nat, i);
    }
}

// ---------------------------------------------------------------------------
// Inserting a colour

/// `node` with `child` in slot `slot`, which was empty.
pub open spec fn with_child(node: Node, slot: int, child: NodeId) -> Node {
    Node {
        children: vstd::array::spec_array_update(node.children, slot, Some(child)),
        child_count: (node.child_count + 1) as u32,
        ..node
    }
}

/// `node` with one more pixel.
pub open spec fn with_pixel(node: Node, color: [u8; 4]) -> Node {
    Node { accumulator: node.accumulator.with_pixel(color), ..node }
}

/// The tree with a new, empty node in slot `slot` of node `at`.
pub open spec fn grown(nodes: Seq<Node>, at: int, slot: int) -> Seq<Node> {
    let id = NodeId(nodes.len() as usize);
    nodes.update(at, with_child(nodes[at], slot, id)).push(
        Node::fresh(
            id,
            Some(NodeId(at as usize)),
            slot as usize,
            (nodes[at].level + 1) as u32,
        ),
    )
}

/// The tree after `color` went down from node `at` of level `level` to a
/// node of level 8, through the slots that its bits name, and was counted
/// there. Nodes that the way lacks are appended as they are met.
pub open spec fn descended(nodes: Seq<Node>, color: [u8; 4], at: int, level: nat) -> Seq<Node>
    decreases 8 - level,
{
    if level >= 8 {
        nodes.update(at, with_pixel(nodes[at], color))
    } else {
        let slot = color_index(color, level as u8) as int;
        match nodes[at].children[slot] {
            Some(child) => descended(nodes, color, child.0 as int, level + 1),
            None => descended(grown(nodes, at, slot), color, nodes.len() as int, level + 1),
        }
    }
}

/// The tree after `color` was inserted.
pub open spec fn inserted(nodes: Seq<Node>, color: [u8; 4]) -> Seq<Node> {
    descended(nodes, color, 0, 0)
}

/// A slot that gets a child is one more child.
pub proof fn one_more_child(children: [Option<NodeId>; 8], slot: int, child: NodeId)
    requires
        0 <= slot < 8,
        children[slot] is None,
    ensures
        count_children(vstd::array::spec_array_update(children, slot, Some(child)))
            == count_children(children) + 1,
        count_children(children) < 8,
{
    let after = vstd::array::spec_array_update(children, slot, Some(child));
    assert(after@ == children@.update(slot, Some(child)));
    assert(after[0] == after@[0] && after[1] == after@[1] && after[2] == after@[2] && after[3]
        == after@[3] && after[4] == after@[4] && after[5] == after@[5] && after[6] == after@[6]
        && after[7] == after@[7]);
}

/// A slot that loses its child is one child less.
pub proof fn one_child_less(children: [Option<NodeId>; 8], slot: int)
    requires
        0 <= slot < 8,
        children[slot] is Some,
    ensures
        count_children(vstd::array::spec_array_update(children, slot, None)) + 1
            == count_children(children),
{
    let after = vstd::array::spec_array_update(children, slot, None::<NodeId>);
    assert(after@ == children@.update(slot, None::<NodeId>));
    assert(after[0] == after@[0] && after[1] == after@[1] && after[2] == after@[2] && after[3]
        == after@[3] && after[4] == after@[4] && after[5] == after@[5] && after[6] == after@[6]
        && after[7] == after@[7]);
}

/// A node that counts a child has a slot that holds one.
pub proof fn some_child_exists(children: [Option<NodeId>; 8]) -> (slot: int)
    requires
        count_children(children) > 0,
    ensures
        0 <= slot < 8,
        children[slot] is Some,
{
    if children[0] is Some {
        0
    } else if children[1] is Some {
        1
    } else if children[2] is Some {
        2
    } else if children[3] is Some {
        3
    } else if children[4] is Some {
        4
    } else if children[5] is Some {
        5
    } else if children[6] is Some {
        6
    } else {
        7
    }
}

/// A node with a filled slot counts a child.
pub proof fn filled_slot_counts(children: [Option<NodeId>; 8], slot: int)
    requires
        0 <= slot < 8,
        children[slot] is Some,
    ensures
        count_children(children) > 0,
{
}

/// The tree while a colour is on its way down: node `open` may still lack
/// the child or the pixel that the colour brings.
pub open spec fn insert_inv(nodes: Seq<Node>, open: int) -> bool {
    &&& tree_inv(nodes, open)
    &&& unfolded(nodes)
    &&& 0 <= open < nodes.len()
}

/// Growing a child under the open node keeps the tree, with the child open.
#[verifier::rlimit(50)]
pub proof fn growing_keeps_tree(nodes: Seq<Node>, at: int, slot: int)
    requires
        insert_inv(nodes, at),
        nodes[at].level < 8,
        0 <= slot < 8,
        nodes[at].children[slot] is None,
        nodes.len() <= usize::MAX,
    ensures
        insert_inv(grown(nodes, at, slot), nodes.len() as int),
        grown(nodes, at, slot)[nodes.len() as int].level == nodes[at].level + 1,
        forall|tally: Tally| #[trigger] total(grown(nodes, at, slot), tally) == total(nodes, tally),
        nodes[at].child_count < 8,
{
    let after = grown(nodes, at, slot);
    let id = nodes.len() as int;
    let parent = with_child(nodes[at], slot, NodeId(id as usize));
    let middle = nodes.update(at, parent);
    assert(links_ok(nodes, at));
    one_more_child(nodes[at].children, slot, NodeId(id as usize));
    assert(parent.children@ == nodes[at].children@.update(slot, Some(NodeId(id as usize))));
    assert forall|i: int| 0 <= i < after.len() implies #[trigger] is_live(after, i) by {
        if i < id {
            assert(is_live(nodes, i));
        }
    }
    assert forall|i: int| 0 <= i < after.len() implies #[trigger] links_ok(after, i) by {
        if i == id {
            assert forall|s: int| 0 <= s < 8 implies #[trigger] child_ok(after, i, s) by {
                assert(after[i].children[s] is None);
            }
            assert(after[at].children[slot] == Some(NodeId(id as usize)));
        } else {
            assert(links_ok(nodes, i));
            assert forall|s: int| 0 <= s < 8 implies #[trigger] child_ok(after, i, s) by {
                assert(child_ok(nodes, i, s));
                if i == at && s != slot {
                    assert(after[i].children[s] == nodes[i].children[s]);
                }
            }
            if nodes[i].parent is Some {
                let p = place(nodes[i].parent);
                assert(is_live(nodes, p));
                if p == at {
                    assert(nodes[i].color_index != slot);
                    assert(after[p].children[nodes[i].color_index as int]
                        == nodes[p].children[nodes[i].color_index as int]);
                }
            }
        }
    }
    assert forall|i: int|
        0 <= i < after.len() && is_live(after, i) && i != id implies #[trigger] settled(
        after,
        i,
    ) by {
        if i != at {
            assert(is_live(nodes, i));
            assert(settled(nodes, i));
            if nodes.len() == 1 {
                assert(i == 0);
            }
        }
    }
    assert forall|tally: Tally| #[trigger] total(after, tally) == total(nodes, tally) by {
        assert forall|i: int| 0 <= i < id && i != at implies share(nodes, tally, i) == share(
            middle,
            tally,
            i,
        ) by {}
        sum_changes_at(nodes, middle, tally, id as nat, at);
        sum_after_push(middle, after[id], tally, id as nat);
        assert(after =~= middle.push(after[id]));
        assert(share(after, tally, id) == 0);
    }
    assert(unfolded(after)) by {
        assert forall|i: int| 0 <= i < after.len() implies {
            &&& #[trigger] is_live(after, i)
            &&& (after[i].level < 8 ==> after[i].accumulator == ColorAccumulator::zero())
            &&& (after[i].level == 8 ==> after[i].child_count == 0)
        } by {
            if i < id {
                assert(is_live(nodes, i));
            }
        }
    }
}

/// Going down into a child that is there keeps the tree, with the child open.
pub proof fn stepping_keeps_tree(nodes: Seq<Node>, at: int, slot: int)
    requires
        insert_inv(nodes, at),
        0 <= slot < 8,
        nodes[at].children[slot] is Some,
    ensures
        insert_inv(nodes, place(nodes[at].children[slot])),
        nodes[place(nodes[at].children[slot])].level == nodes[at].level + 1,
{
    let child = place(nodes[at].children[slot]);
    assert(links_ok(nodes, at));
    assert(is_live(nodes, at));
    assert(child_ok(nodes, at, slot));
    assert(links_ok(nodes, child));
    filled_slot_counts(nodes[at].children, slot);
    assert(settled(nodes, at));
}

/// Counting the colour at the open node of level 8 completes the tree.
#[verifier::rlimit(50)]
pub proof fn counting_completes_tree(nodes: Seq<Node>, at: int, color: [u8; 4])
    requires
        insert_inv(nodes, at),
        nodes[at].level == 8,
        total(nodes, Tally::Pixels) < PIXEL_CAPACITY,
    ensures
        tree_wf(nodes.update(at, with_pixel(nodes[at], color))),
        nodes[at].accumulator.pixel_count < PIXEL_CAPACITY,
        forall|tally: Tally| #[trigger]
            total(nodes.update(at, with_pixel(nodes[at], color)), tally) == total(nodes, tally)
                + tally_of_color(color, tally),
{
    let after = nodes.update(at, with_pixel(nodes[at], color));
    assert(links_ok(nodes, at));
    assert(is_live(nodes, at));
    one_share_fits(nodes, Tally::Pixels, nodes.len(), at);
    assert forall|i: int| 0 <= i < after.len() implies #[trigger] links_ok(after, i) by {
        assert(links_ok(nodes, i));
        assert(is_live(nodes, i));
        assert forall|s: int| 0 <= s < 8 implies #[trigger] child_ok(after, i, s) by {
            assert(child_ok(nodes, i, s));
        }
        if nodes[i].parent is Some {
            let p = place(nodes[i].parent);
            assert(is_live(nodes, p));
        }
    }
    assert forall|i: int| 0 <= i < after.len() && is_live(after, i) implies #[trigger] settled(
        after,
        i,
    ) by {
        if i != at {
            assert(is_live(nodes, i));
            assert(settled(nodes, i));
        }
    }
    assert forall|tally: Tally| #[trigger]
        total(after, tally) == total(nodes, tally) + tally_of_color(color, tally) by {
        assert forall|i: int| 0 <= i < nodes.len() && i != at implies share(nodes, tally, i)
            == share(after, tally, i) by {}
        sum_changes_at(nodes, after, tally, nodes.len(), at);
    }
    assert(unfolded(after)) by {
        assert forall|i: int| 0 <= i < after.len() implies {
            &&& #[trigger] is_live(after, i)
            &&& (after[i].level < 8 ==> after[i].accumulator == ColorAccumulator::zero())
            &&& (after[i].level == 8 ==> after[i].child_count == 0)
        } by {
            assert(is_live(nodes, i));
        }
    }
}

// ---------------------------------------------------------------------------
// Folding nodes into their parents

/// Node `i` is in the tree and holds pixels: it stands for a colour.
pub open spec fn is_candidate(nodes: Seq<Node>, i: int) -> bool {
    0 <= i < nodes.len() && is_live(nodes, i) && nodes[i].accumulator.pixel_count > 0
}

/// The nodes that stand for a colour.
pub open spec fn candidates(nodes: Seq<Node>) -> Set<usize> {
    Set::new(|i: usize| is_candidate(nodes, i as int))
}

/// Node `m` stands for a colour and is less important than every other node
/// that does.
pub open spec fn is_least(nodes: Seq<Node>, m: int) -> bool {
    is_candidate(nodes, m) && forall|j: int|
        #[trigger] is_candidate(nodes, j) && j != m ==> precedes(nodes[m], nodes[j])
}

/// The least important of the nodes that stand for a colour.
pub open spec fn least(nodes: Seq<Node>) -> int {
    choose|m: int| is_least(nodes, m)
}

/// `parent` after it took in the pixels of `child` and let go of it.
pub open spec fn absorbed(parent: Node, child: Node) -> Node {
    Node {
        accumulator: parent.accumulator.merged(child.accumulator),
        child_count: (parent.child_count - 1) as u32,
        children: vstd::array::spec_array_update(
            parent.children,
            child.color_index as int,
            None::<NodeId>,
        ),
        ..parent
    }
}

/// `node` cut off from its parent.
pub open spec fn orphaned(node: Node) -> Node {
    Node { parent: None, ..node }
}

/// The tree after node `m` was folded into its parent: the parent has the
/// pixels of both and one child less, and `m` is out of the tree.
pub open spec fn folded(nodes: Seq<Node>, m: int) -> Seq<Node> {
    match nodes[m].parent {
        Some(parent) => nodes.update(
            parent.0 as int,
            absorbed(nodes[parent.0 as int], nodes[m]),
        ).update(m, orphaned(nodes[m])),
        None => nodes,
    }
}

/// The tree after its least important node was folded, again and again,
/// until no more than `k` nodes stand for a colour, or `fuel` folds were made.
pub open spec fn reduced(nodes: Seq<Node>, k: nat, fuel: nat) -> Seq<Node>
    decreases fuel,
{
    if fuel == 0 || candidates(nodes).len() <= k {
        nodes
    } else {
        reduced(folded(nodes, least(nodes)), k, (fuel - 1) as nat)
    }
}

/// The colours that the tree stands for: the mean of each node that holds
/// pixels.
pub open spec fn palette_of(nodes: Seq<Node>) -> Set<[u8; 4]> {
    Set::new(|color: [u8; 4]| exists|i: int| is_candidate(nodes, i) && nodes[i].accumulator.mean() == color)
}

/// The colours left when a tree is reduced to `k` colours: none for no
/// colour; else those of the tree folded until `k` nodes or fewer hold
/// pixels. A tree of `n` nodes is folded fewer than `n` times.
pub open spec fn reduction_palette(nodes: Seq<Node>, k: nat) -> Set<[u8; 4]> {
    if k == 0 {
        Set::empty()
    } else {
        palette_of(reduced(nodes, k, nodes.len()))
    }
}

/// There is one least important node at most.
pub proof fn least_is_unique(nodes: Seq<Node>, a: int, b: int)
    requires
        is_least(nodes, a),
        is_least(nodes, b),
    ensures
        a == b,
{
    if a != b {
        assert(is_candidate(nodes, b));
        assert(precedes(nodes[a], nodes[b]));
        assert(is_candidate(nodes, a));
        assert(precedes(nodes[b], nodes[a]));
    }
}

/// Under every node of the tree there is a node without children that holds
/// pixels, the node itself or a descendant.
pub proof fn leaf_below(nodes: Seq<Node>, i: int) -> (leaf: int)
    requires
        tree_inv(nodes, -1),
        nodes.len() >= 2,
        0 <= i < nodes.len(),
        is_live(nodes, i),
    ensures
        is_candidate(nodes, leaf),
        nodes[leaf].child_count == 0,
    decreases nodes.len() - i,
{
    assert(links_ok(nodes, i));
    assert(settled(nodes, i));
    if nodes[i].child_count == 0 {
        i
    } else {
        let slot = some_child_exists(nodes[i].children);
        assert(child_ok(nodes, i, slot));
        let child = place(nodes[i].children[slot]);
        leaf_below(nodes, child)
    }
}

/// While a node other than the root is in the tree, the root has a child.
pub proof fn root_has_child(nodes: Seq<Node>, j: int)
    requires
        tree_inv(nodes, -1),
        0 < j < nodes.len(),
        is_live(nodes, j),
    ensures
        nodes[0].child_count > 0,
    decreases j,
{
    assert(links_ok(nodes, j));
    let p = place(nodes[j].parent);
    assert(links_ok(nodes, p));
    filled_slot_counts(nodes[p].children, nodes[j].color_index as int);
    if p != 0 {
        root_has_child(nodes, p);
    }
}

/// The least important node, while another node stands for a colour too,
/// has no children and is not the root.
pub proof fn least_is_a_leaf(nodes: Seq<Node>, m: int, other: int)
    requires
        tree_inv(nodes, -1),
        is_least(nodes, m),
        is_candidate(nodes, other),
        other != m,
    ensures
        nodes[m].child_count == 0,
        m != 0,
        nodes[m].parent is Some,
{
    assert(links_ok(nodes, m));
    if nodes[m].child_count != 0 {
        let leaf = leaf_below(nodes, m);
        assert(precedes(nodes[m], nodes[leaf]));
    }
    if m == 0 {
        root_has_child(nodes, other);
    }
}

/// Folding the least important node keeps the tree and what it adds up to;
/// of the nodes that stand for a colour, the folded one goes and its parent
/// comes, if it was not there.
#[verifier::rlimit(50)]
pub proof fn folding_keeps_tree(nodes: Seq<Node>, m: int, other: int)
    requires
        tree_inv(nodes, -1),
        is_least(nodes, m),
        is_candidate(nodes, other),
        other != m,
    ensures
        nodes[m].parent is Some,
        place(nodes[m].parent) != m,
        0 <= place(nodes[m].parent) < nodes.len(),
        nodes[place(nodes[m].parent)].child_count > 0,
        nodes[place(nodes[m].parent)].accumulator.pixel_count + nodes[m].accumulator.pixel_count
            <= PIXEL_CAPACITY,
        nodes[place(nodes[m].parent)].accumulator.bounded(),
        nodes[m].accumulator.bounded(),
        nodes[m].color_index < 8,
        tree_inv(folded(nodes, m), -1),
        folded(nodes, m).len() == nodes.len(),
        forall|tally: Tally| #[trigger] total(folded(nodes, m), tally) == total(nodes, tally),
        forall|i: int|
            #[trigger] is_candidate(folded(nodes, m), i) <==> i != m && (is_candidate(nodes, i) || i
                == place(nodes[m].parent)),
        forall|i: int|
            0 <= i < nodes.len() && i != m && i != place(nodes[m].parent) ==> #[trigger] folded(
                nodes,
                m,
            )[i] == nodes[i],
{
    least_is_a_leaf(nodes, m, other);
    let p = place(nodes[m].parent);
    let slot = nodes[m].color_index as int;
    let after = folded(nodes, m);
    let middle = nodes.update(p, absorbed(nodes[p], nodes[m]));
    assert(after =~= middle.update(m, orphaned(nodes[m])));
    assert(links_ok(nodes, m));
    assert(links_ok(nodes, p));
    assert(is_live(nodes, p));
    filled_slot_counts(nodes[p].children, slot);
    one_child_less(nodes[p].children, slot);
    two_shares_fit(nodes, Tally::Pixels, nodes.len(), m, p);
    assert(after[p].children@ == nodes[p].children@.update(slot, None::<NodeId>));
    assert(after[p].accumulator.bounded());

    assert forall|i: int| 0 <= i < after.len() implies is_live(after, i) == (i != m && is_live(
        nodes,
        i,
    )) by {}
    assert forall|i: int| 0 <= i < after.len() implies #[trigger] links_ok(after, i) by {
        assert(links_ok(nodes, i));
        if i == m {
        } else {
            if nodes[i].parent is Some {
                let q = place(nodes[i].parent);
                assert(links_ok(nodes, q));
                if q == m {
                    filled_slot_counts(nodes[m].children, nodes[i].color_index as int);
                }
                if q == p {
                    assert(nodes[i].color_index as int != slot);
                    assert(after[p].children[nodes[i].color_index as int]
                        == nodes[p].children[nodes[i].color_index as int]);
                }
            }
            if is_live(after, i) {
                assert forall|s: int| 0 <= s < 8 implies #[trigger] child_ok(after, i, s) by {
                    assert(child_ok(nodes, i, s));
                    if i == p {
                        if s != slot {
                            assert(after[p].children[s] == nodes[p].children[s]);
                        }
                    }
                }
            }
        }
    }
    assert forall|i: int|
        0 <= i < after.len() && is_live(after, i) implies #[trigger] settled(after, i) by {
        if i != p {
            assert(is_live(nodes, i));
            assert(settled(nodes, i));
        }
    }
    assert forall|tally: Tally| #[trigger] total(after, tally) == total(nodes, tally) by {
        assert forall|i: int| 0 <= i < nodes.len() && i != p implies share(nodes, tally, i)
            == share(middle, tally, i) by {}
        sum_changes_at(nodes, middle, tally, nodes.len(), p);
        assert forall|i: int| 0 <= i < nodes.len() && i != m implies share(middle, tally, i)
            == share(after, tally, i) by {}
        sum_changes_at(middle, after, tally, nodes.len(), m);
        assert(share(after, tally, m) == 0);
        assert(share(middle, tally, m) == share(nodes, tally, m));
        assert(share(middle, tally, p) == share(nodes, tally, p) + share(nodes, tally, m));
    }
    assert(total(nodes, Tally::Pixels) == total(after, Tally::Pixels));
}

// ---------------------------------------------------------------------------
// Whole trees

/// The tree that holds nothing: a root without children.
pub open spec fn empty_tree() -> Seq<Node> {
    seq![Node::fresh(NodeId(0), None, 0, 0)]
}

/// The tree after the colours of `pixels` were inserted one by one.
pub open spec fn built(pixels: Seq<[u8; 4]>) -> Seq<Node>
    decreases pixels.len(),
{
    if pixels.len() == 0 {
        empty_tree()
    } else {
        inserted(built(pixels.drop_last()), pixels.last())
    }
}

/// The sum of a tally over a list of colours.
pub open spec fn color_sum(pixels: Seq<[u8; 4]>, tally: Tally) -> nat
    decreases pixels.len(),
{
    if pixels.len() == 0 {
        0
    } else {
        color_sum(pixels.drop_last(), tally) + tally_of_color(pixels.last(), tally)
    }
}

/// The empty tree is a tree, and adds up to nothing.
pub proof fn empty_tree_is_wf()
    ensures
        tree_wf(empty_tree()),
        forall|tally: Tally| #[trigger] total(empty_tree(), tally) == 0,
{
    let list = empty_tree();
    assert forall|slot: int| 0 <= slot < 8 implies #[trigger] child_ok(list, 0, slot) by {
        assert(list[0].children[slot] is None);
    }
    assert(links_ok(list, 0));
    assert forall|tally: Tally| #[trigger] total(list, tally) == 0 by {
        assert(live_sum(list, tally, 0) == 0);
        assert(share(list, tally, 0) == 0);
    }
}

/// A colour that goes down from the open node leaves a tree that holds one
/// pixel more, with the channels of the colour added to the sums.
pub proof fn descending_keeps_tree(nodes: Seq<Node>, color: [u8; 4], at: int, level: nat)
    requires
        insert_inv(nodes, at),
        nodes[at].level == level,
        total(nodes, Tally::Pixels) < PIXEL_CAPACITY,
        nodes.len() + 8 - level <= usize::MAX,
    ensures
        tree_wf(descended(nodes, color, at, level)),
        forall|tally: Tally| #[trigger]
            total(descended(nodes, color, at, level), tally) == total(nodes, tally)
                + tally_of_color(color, tally),
    decreases 8 - level,
{
    assert(links_ok(nodes, at));
    if level >= 8 {
        counting_completes_tree(nodes, at, color);
    } else {
        let slot = color_index(color, level as u8) as int;
        match nodes[at].children[slot] {
            Some(child) => {
                stepping_keeps_tree(nodes, at, slot);
                descending_keeps_tree(nodes, color, child.0 as int, level + 1);
            },
            None => {
                growing_keeps_tree(nodes, at, slot);
                let larger = grown(nodes, at, slot);
                descending_keeps_tree(larger, color, nodes.len() as int, level + 1);
                assert forall|tally: Tally| #[trigger]
                    total(descended(nodes, color, at, level), tally) == total(nodes, tally)
                        + tally_of_color(color, tally) by {
                    assert(total(larger, tally) == total(nodes, tally));
                }
            },
        }
    }
}

/// Inserting a colour into a tree leaves a tree that holds one pixel more,
/// with the channels of the colour added to the sums.
pub proof fn inserting_keeps_tree(nodes: Seq<Node>, color: [u8; 4])
    requires
        tree_wf(nodes),
        total(nodes, Tally::Pixels) < PIXEL_CAPACITY,
        nodes.len() + 8 <= usize::MAX,
    ensures
        tree_wf(inserted(nodes, color)),
        forall|tally: Tally| #[trigger]
            total(inserted(nodes, color), tally) == total(nodes, tally) + tally_of_color(color, tally),
{
    assert(links_ok(nodes, 0));
    descending_keeps_tree(nodes, color, 0, 0);
}

/// Folding a tree down to `k` colours, or part of the way, keeps what the
/// tree adds up to: every pixel stays counted, in the node it was inserted
/// into or in an ancestor that took the node in.
pub proof fn reduction_keeps_totals(nodes: Seq<Node>, k: nat, fuel: nat)
    requires
        tree_inv(nodes, -1),
        k >= 1,
    ensures
        tree_inv(reduced(nodes, k, fuel), -1),
        forall|tally: Tally| #[trigger] total(reduced(nodes, k, fuel), tally) == total(nodes, tally),
    decreases fuel,
{
    if fuel == 0 || candidates(nodes).len() <= k {
    } else {
        let (m, other) = two_candidates(nodes);
        least_is_unique(nodes, m, least(nodes));
        folding_keeps_tree(nodes, m, other);
        let after = folded(nodes, m);
        reduction_keeps_totals(after, k, (fuel - 1) as nat);
        assert forall|tally: Tally| #[trigger]
            total(reduced(nodes, k, fuel), tally) == total(nodes, tally) by {
            assert(total(after, tally) == total(nodes, tally));
        }
    }
}

/// The nodes that stand for a colour are finitely many.
pub proof fn candidates_are_finite(nodes: Seq<Node>)
    ensures
        candidates(nodes).finite(),
        candidates(nodes).len() <= nodes.len(),
{
    let places = Seq::new(nodes.len(), |i: int| i as usize);
    vstd::seq_lib::seq_to_set_is_finite(places);
    assert(candidates(nodes).subset_of(places.to_set())) by {
        assert forall|i: usize| candidates(nodes).contains(i) implies places.to_set().contains(
            i,
        ) by {
            assert(places[i as int] == i);
        }
    }
    vstd::set_lib::lemma_len_subset(candidates(nodes), places.to_set());
    places.lemma_cardinality_of_set();
}

/// Where more than one node stands for a colour, there is a least important
/// one, and another one.
pub proof fn two_candidates(nodes: Seq<Node>) -> (pair: (int, int))
    requires
        tree_inv(nodes, -1),
        candidates(nodes).len() >= 2,
    ensures
        is_least(nodes, pair.0),
        is_candidate(nodes, pair.1),
        pair.0 != pair.1,
{
    candidates_are_finite(nodes);
    let m = least_exists(nodes, nodes.len());
    assert(links_ok(nodes, m));
    let rest = candidates(nodes).remove(m as usize);
    assert(candidates(nodes).contains(m as usize));
    assert(rest.len() >= 1);
    let other = rest.choose();
    assert(rest.contains(other));
    (m, other as int)
}

/// Among the first `n` nodes, if one stands for a colour, one is the least
/// important of them.
proof fn least_among(nodes: Seq<Node>, n: nat) -> (m: int)
    requires
        tree_inv(nodes, -1),
        n <= nodes.len(),
        exists|i: int| 0 <= i < n && is_candidate(nodes, i),
    ensures
        0 <= m < n,
        is_candidate(nodes, m),
        forall|j: int| 0 <= j < n && #[trigger] is_candidate(nodes, j) && j != m ==> precedes(nodes[m], nodes[j]),
    decreases n,
{
    let last = n - 1;
    if exists|i: int| 0 <= i < last && is_candidate(nodes, i) {
        let best = least_among(nodes, last as nat);
        assert(links_ok(nodes, best));
        assert(links_ok(nodes, last));
        if is_candidate(nodes, last) && precedes(nodes[last], nodes[best]) {
            assert forall|j: int| 0 <= j < n && #[trigger] is_candidate(nodes, j) && j
                != last implies precedes(nodes[last], nodes[j]) by {
                if j != best {
                    assert(precedes(nodes[best], nodes[j]));
                }
            }
            last
        } else {
            best
        }
    } else {
        last
    }
}

/// Where a node stands for a colour, one is the least important.
proof fn least_exists(nodes: Seq<Node>, n: nat) -> (m: int)
    requires
        tree_inv(nodes, -1),
        n == nodes.len(),
        candidates(nodes).len() >= 1,
        candidates(nodes).finite(),
    ensures
        is_least(nodes, m),
{
    let some = candidates(nodes).choose();
    assert(candidates(nodes).contains(some));
    assert(is_candidate(nodes, some as int));
    least_among(nodes, n)
}

} // verus!
