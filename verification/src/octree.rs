//! The colour octree: colours go in one by one, and the tree is then folded
//! until no more nodes hold pixels than colours are asked for.

use crate::color::{sorted_unique, strictly_sorted};
use crate::octree_model::{
    absorbed, counting_completes_tree, descended, empty_tree, empty_tree_is_wf, folded,
    folding_keeps_tree, grown, growing_keeps_tree, insert_inv, inserted, is_candidate, is_live,
    least, least_is_unique, links_ok, orphaned, palette_of, reduced, reduction_palette,
    stepping_keeps_tree, tally_of_color, total, tree_inv, tree_wf, with_child, with_pixel, Tally,
};
use crate::octree_node::{get_color_index, Node, NodeId, MAX_DEPTH, PIXEL_CAPACITY};
use crate::octree_queue::{
    ids_in_place, in_queue, insertion_keeps_order, last_is_least, order_survives, ordered,
    position_in, queue_counts_candidates, queue_holds, removal_keeps_order,
};
use vstd::prelude::*;

verus! {

/// An octree over the colours of an image.
pub struct ColorTree {
    pub(crate) nodes: Vec<Node>,
}

impl View for ColorTree {
    type V = Seq<Node>;

    closed spec fn view(&self) -> Seq<Node> {
        self.nodes@
    }
}

impl ColorTree {
    /// The nodes form a tree into which colours can be inserted.
    pub open spec fn wf(&self) -> bool {
        tree_wf(self@)
    }

    /// The number of pixels inserted.
    pub open spec fn pixel_count(&self) -> nat {
        total(self@, Tally::Pixels)
    }

    /// A tree that holds no colour.
    #[must_use]
    pub fn new() -> (tree: Self)
        ensures
            tree.wf(),
            tree@ == empty_tree(),
            forall|tally: Tally| #[trigger] total(tree@, tally) == 0,
    {
        let root = Node::root(NodeId(0));
        let mut nodes: Vec<Node> = Vec::new();
        nodes.push(root);
        proof {
            assert(nodes@ =~= empty_tree());
            empty_tree_is_wf();
        }
        Self { nodes }
    }

    /// Counts `color` in the node of level 8 that its bits lead to; the
    /// nodes on the way that are missing are made.
    #[verifier::rlimit(50)]
    pub fn add_color(&mut self, color: &[u8; 4])
        requires
            old(self).wf(),
            old(self).pixel_count() < PIXEL_CAPACITY,
        ensures
            final(self).wf(),
            final(self)@ == inserted(old(self)@, *color),
            forall|tally: Tally| #[trigger]
                total(final(self)@, tally) == total(old(self)@, tally) + tally_of_color(
                    *color,
                    tally,
                ),
    {
        let mut level: u8 = 0;
        let mut root_id = NodeId(0);
        let ghost start = self.nodes@;
        assert(links_ok(start, 0));

        while level < MAX_DEPTH
            invariant
                level <= MAX_DEPTH,
                insert_inv(self.nodes@, root_id.0 as int),
                self.nodes@[root_id.0 as int].level == level,
                descended(self.nodes@, *color, root_id.0 as int, level as nat) == inserted(
                    start,
                    *color,
                ),
                forall|tally: Tally| #[trigger] total(self.nodes@, tally) == total(start, tally),
            decreases MAX_DEPTH - level,
        {
            let color_index = get_color_index(color, level);
            let ghost before = self.nodes@;

            if self.nodes[root_id.0].children[color_index].is_none() {
                let new_node_id = self.nodes.len();
                proof {
                    growing_keeps_tree(before, root_id.0 as int, color_index as int);
                }
                let child_node = Node::with_parent(
                    NodeId(new_node_id),
                    root_id,
                    color_index,
                    level + 1,
                );
                {
                    let mut node = self.nodes[root_id.0];
                    node.children[color_index] = Some(child_node.node_id);
                    node.child_count += 1;
                    assert(node.children =~= vstd::array::spec_array_update(
                        before[root_id.0 as int].children,
                        color_index as int,
                        Some(NodeId(new_node_id)),
                    ));
                    assert(node == with_child(
                        before[root_id.0 as int],
                        color_index as int,
                        NodeId(new_node_id),
                    ));
                    self.nodes[root_id.0] = node;
                }
                self.nodes.push(child_node);
                assert(self.nodes@ =~= grown(before, root_id.0 as int, color_index as int));
                assert(self.nodes@[root_id.0 as int].children[color_index as int] == Some(
                    NodeId(new_node_id),
                ));
            } else {
                proof {
                    stepping_keeps_tree(before, root_id.0 as int, color_index as int);
                }
            }
            root_id = self.nodes[root_id.0].children[color_index].unwrap();
            level += 1;
        }

        proof {
            counting_completes_tree(self.nodes@, root_id.0 as int, *color);
        }
        let ghost before = self.nodes@;
        assert(links_ok(before, root_id.0 as int));
        let mut leaf = self.nodes[root_id.0];
        leaf.accumulator.add_pixel(color);
        assert(leaf == with_pixel(before[root_id.0 as int], *color));
        self.nodes[root_id.0] = leaf;
        assert(self.nodes@ =~= before.update(root_id.0 as int, leaf));
    }
    /// Folds the tree until at most `color_count` nodes hold pixels, and
    /// returns their mean colours, each once, in ascending order. The
    /// tree is used up.
    #[verifier::rlimit(50)]
    pub fn reduce(&mut self, color_count: usize) -> (palette: Vec<[u8; 4]>)
        requires
            old(self).wf(),
        ensures
            strictly_sorted(palette@),
            palette@.to_set() == reduction_palette(old(self)@, color_count as nat),
            palette@.len() <= color_count,
            color_count == 0 ==> final(self)@ == old(self)@,
            color_count > 0 ==> final(self)@.len() == 0,
    {
        if color_count == 0 {
            let none: Vec<[u8; 4]> = Vec::new();
            assert(none@.to_set() =~= Set::<[u8; 4]>::empty());
            return none;
        }
        let mut leaves = candidate_queue(&self.nodes);
        let ghost start = self.nodes@;
        let ghost size = start.len();
        let ghost mut fuel: nat = size;
        let ghost mut dead: Set<int> = Set::empty();

        while leaves.len() > color_count
            invariant
                color_count > 0,
                tree_inv(self.nodes@, -1),
                self.nodes@.len() == size,
                queue_holds(self.nodes@, leaves@),
                reduced(self.nodes@, color_count as nat, fuel) == reduced(
                    start,
                    color_count as nat,
                    size,
                ),
                dead.finite(),
                dead.len() + fuel == size,
                forall|i: int| dead.contains(i) ==> 0 < i < size && !is_live(self.nodes@, i),
            decreases fuel,
        {
            let ghost before = self.nodes@;
            proof {
                queue_counts_candidates(before, leaves@);
                vstd::set_lib::lemma_int_range(1, size as int);
                assert(dead.subset_of(vstd::set_lib::set_int_range(1, size as int)));
                vstd::set_lib::lemma_len_subset(dead, vstd::set_lib::set_int_range(1, size as int));
                assert(fuel > 0);
            }
            fold_least(&mut self.nodes, &mut leaves);
            proof {
                let m = least(before);
                assert(!dead.contains(m));
                dead = dead.insert(m);
                fuel = (fuel - 1) as nat;
            }
        }
        proof {
            queue_counts_candidates(self.nodes@, leaves@);
            assert(reduced(self.nodes@, color_count as nat, fuel) == self.nodes@);
        }

        let ghost end = self.nodes@;
        let mut colors: Vec<[u8; 4]> = Vec::new();
        let mut index: usize = 0;
        while index < leaves.len()
            invariant
                index <= leaves@.len(),
                tree_inv(self.nodes@, -1),
                self.nodes@ == end,
                queue_holds(end, leaves@),
                colors@.len() == index,
                forall|a: int|
                    0 <= a < index ==> #[trigger] colors@[a] == end[leaves@[a] as int].accumulator.mean(),
            decreases leaves@.len() - index,
        {
            let id: usize = leaves[index];
            assert(in_queue(leaves@, id as int));
            assert(is_candidate(end, id as int));
            assert(links_ok(end, id as int));
            let color = self.nodes[id].accumulator.output_color();
            colors.push(color);
            index += 1;
        }
        self.nodes.clear();

        let (palette, _) = sorted_unique(&colors);
        proof {
            assert forall|color: [u8; 4]| colors@.to_set().contains(color) == palette_of(
                end,
            ).contains(color) by {
                if colors@.contains(color) {
                    let a = choose|a: int| 0 <= a < colors@.len() && colors@[a] == color;
                    assert(in_queue(leaves@, leaves@[a] as int));
                    assert(is_candidate(end, leaves@[a] as int));
                }
                if palette_of(end).contains(color) {
                    let i = choose|i: int| is_candidate(end, i) && end[i].accumulator.mean() == color;
                    assert(in_queue(leaves@, i));
                    let a = choose|a: int| 0 <= a < leaves@.len() && #[trigger] leaves@[a] == i;
                    assert(colors@[a] == color);
                }
            }
            assert(colors@.to_set() =~= palette_of(end));
        }
        palette
    }
}

/// The nodes that hold pixels, the most important first.
fn candidate_queue(nodes: &Vec<Node>) -> (queue: Vec<usize>)
    requires
        tree_inv(nodes@, -1),
    ensures
        queue_holds(nodes@, queue@),
{
    let mut queue: Vec<usize> = Vec::new();
    let mut id: usize = 0;
    proof {
        assert forall|i: int| 0 <= i < nodes@.len() implies (#[trigger] nodes@[i]).node_id.0 == i
            && nodes@[i].level <= 8 by {
            assert(links_ok(nodes@, i));
        }
    }
    while id < nodes.len()
        invariant
            id <= nodes@.len(),
            tree_inv(nodes@, -1),
            ids_in_place(nodes@),
            ordered(nodes@, queue@),
            forall|i: int| #[trigger] in_queue(queue@, i) <==> is_candidate(nodes@, i) && i < id,
        decreases nodes@.len() - id,
    {
        let node = &nodes[id];
        let live: bool = id == 0 || node.parent.is_some();
        if live && node.accumulator.pixel_count > 0 {
            let position = position_in(nodes, &queue, id);
            proof {
                insertion_keeps_order(nodes@, queue@, position as int, id);
            }
            queue.insert(position, id);
        }
        id += 1;
    }
    queue
}

/// Folds the least important node that holds pixels into its parent, and
/// brings the queue up to date.
#[verifier::rlimit(50)]
fn fold_least(nodes: &mut Vec<Node>, queue: &mut Vec<usize>)
    requires
        tree_inv(old(nodes)@, -1),
        queue_holds(old(nodes)@, old(queue)@),
        old(queue)@.len() >= 2,
    ensures
        final(nodes)@ == folded(old(nodes)@, least(old(nodes)@)),
        final(nodes)@.len() == old(nodes)@.len(),
        tree_inv(final(nodes)@, -1),
        queue_holds(final(nodes)@, final(queue)@),
        0 < least(old(nodes)@) < old(nodes)@.len(),
        is_live(old(nodes)@, least(old(nodes)@)),
        !is_live(final(nodes)@, least(old(nodes)@)),
        forall|i: int|
            0 <= i < old(nodes)@.len() && !is_live(old(nodes)@, i) ==> !is_live(final(nodes)@, i),
        forall|tally: Tally| #[trigger] total(final(nodes)@, tally) == total(old(nodes)@, tally),
{
    let ghost before = nodes@;
    let ghost full = queue@;
    proof {
        last_is_least(before, full);
        assert(in_queue(full, full[0] as int));
        crate::octree_queue::ordered_is_distinct(before, full);
        folding_keeps_tree(before, full.last() as int, full[0] as int);
        least_is_unique(before, full.last() as int, least(before));
        assert forall|i: int| 0 <= i < before.len() implies (#[trigger] before[i]).node_id.0 == i
            && before[i].level <= 8 by {
            assert(links_ok(before, i));
        }
    }
    let popped = queue.pop();
    let least_id: usize = popped.unwrap();
    let ghost m = least_id as int;
    let ghost after = folded(before, m);
    let ghost rest = queue@;
    proof {
        assert(rest =~= full.remove(full.len() - 1));
        removal_keeps_order(before, full, full.len() - 1);
    }
    let node = nodes[least_id];
    match node.parent {
        None => {
            assert(false);
        },
        Some(parent_id) => {
            let p: usize = parent_id.0;
            let mut parent = nodes[p];
            assert(links_ok(before, m));
            assert(is_live(before, p as int));
            assert(in_queue(rest, p as int) <==> in_queue(full, p as int) && p != m);
            if parent.accumulator.pixel_count > 0 {
                assert(is_candidate(before, p as int));
                assert(in_queue(rest, p as int));
                let position = position_in(nodes, queue, p);
                proof {
                    removal_keeps_order(before, rest, position as int);
                    assert(in_queue(rest.remove(position as int), p as int) <==> in_queue(
                        rest,
                        p as int,
                    ) && p != rest[position as int]);
                }
                queue.remove(position);
            } else {
                assert(!is_candidate(before, p as int));
            }
            let ghost others = queue@;
            assert(!in_queue(others, p as int));
            assert(!in_queue(others, m));
            assert forall|i: int| #[trigger] in_queue(others, i) <==> is_candidate(before, i) && i
                != m && i != p by {
                assert(in_queue(rest, i) <==> in_queue(full, i) && i != m);
            }
            parent.accumulator.add(node.accumulator);
            parent.child_count -= 1;
            parent.children[node.color_index] = None;
            assert(parent.children =~= vstd::array::spec_array_update(
                before[p as int].children,
                node.color_index as int,
                None::<NodeId>,
            ));
            assert(parent == absorbed(before[p as int], before[m]));
            nodes[p] = parent;
            let mut orphan = node;
            orphan.parent = None;
            assert(orphan == orphaned(before[m]));
            nodes[least_id] = orphan;
            assert(nodes@ =~= after);
            proof {
                assert forall|a: int| 0 <= a < others.len() implies after[#[trigger] others[a] as int]
                    == before[others[a] as int] by {
                    assert(in_queue(others, others[a] as int));
                }
                order_survives(before, after, others);
                assert forall|i: int| 0 <= i < after.len() implies (#[trigger] after[i]).node_id.0
                    == i && after[i].level <= 8 by {
                    assert(links_ok(after, i));
                }
            }
            let position = position_in(nodes, queue, p);
            proof {
                insertion_keeps_order(after, others, position as int, p);
            }
            queue.insert(position, p);
            proof {
                assert forall|i: int| #[trigger] is_candidate(after, i) <==> in_queue(queue@, i) by {
                    assert(in_queue(queue@, i) <==> in_queue(others, i) || i == p);
                }
            }
        },
    }
}

} // verus!
