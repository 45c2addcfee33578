//! The colours that the leaves of a colour octree stand for: a node of
//! level 8 holds pixels of one RGB colour, and a tree that was not folded
//! yields exactly the colours that went in.

use crate::octree_laws::{
    built_tree_holds_sums, counting_keeps_ways, growing_keeps_ways, leaf_holds_its_pixels, on_way,
    one_node_per_level, routed, sums_hold,
};
use crate::octree_model::{
    built, candidates, candidates_are_finite, descended, grown, growing_keeps_tree, insert_inv,
    is_candidate, is_live, links_ok, palette_of, place, reduced, reduction_palette,
    stepping_keeps_tree, tally_of, tally_of_color, tree_wf, Tally,
};
use crate::octree_node::{channel_bit, color_index, ColorAccumulator, Node, PIXEL_CAPACITY};
use vstd::prelude::*;

verus! {

/// Two colours have the same red, green and blue.
pub open spec fn same_rgb(x: [u8; 4], y: [u8; 4]) -> bool {
    x[0] == y[0] && x[1] == y[1] && x[2] == y[2]
}

/// A colour with its alpha set to 255.
pub open spec fn opaque(color: [u8; 4]) -> [u8; 4] {
    [color[0], color[1], color[2], 255u8]
}

/// A channel is known by its eight bits.
proof fn bits_tell_the_channel(a: u8, b: u8)
    requires
        forall|level: u8| 0 <= level < 8 ==> channel_bit(a, level) == channel_bit(b, level),
    ensures
        a == b,
{
    assert(channel_bit(a, 0) == channel_bit(b, 0));
    assert(channel_bit(a, 1) == channel_bit(b, 1));
    assert(channel_bit(a, 2) == channel_bit(b, 2));
    assert(channel_bit(a, 3) == channel_bit(b, 3));
    assert(channel_bit(a, 4) == channel_bit(b, 4));
    assert(channel_bit(a, 5) == channel_bit(b, 5));
    assert(channel_bit(a, 6) == channel_bit(b, 6));
    assert(channel_bit(a, 7) == channel_bit(b, 7));
    assert(a == b) by (bit_vector)
        requires
            (a & (0x80u8 >> 0u8) != 0) == (b & (0x80u8 >> 0u8) != 0),
            (a & (0x80u8 >> 1u8) != 0) == (b & (0x80u8 >> 1u8) != 0),
            (a & (0x80u8 >> 2u8) != 0) == (b & (0x80u8 >> 2u8) != 0),
            (a & (0x80u8 >> 3u8) != 0) == (b & (0x80u8 >> 3u8) != 0),
            (a & (0x80u8 >> 4u8) != 0) == (b & (0x80u8 >> 4u8) != 0),
            (a & (0x80u8 >> 5u8) != 0) == (b & (0x80u8 >> 5u8) != 0),
            (a & (0x80u8 >> 6u8) != 0) == (b & (0x80u8 >> 6u8) != 0),
            (a & (0x80u8 >> 7u8) != 0) == (b & (0x80u8 >> 7u8) != 0),
    ;
}

/// Colours that take the same slot at every level have the same red, green
/// and blue.
pub proof fn slots_tell_the_color(x: [u8; 4], y: [u8; 4])
    requires
        forall|level: u8| 0 <= level < 8 ==> color_index(x, level) == color_index(y, level),
    ensures
        same_rgb(x, y),
{
    assert forall|level: u8| 0 <= level < 8 implies channel_bit(x[0], level) == channel_bit(
        y[0],
        level,
    ) && channel_bit(x[1], level) == channel_bit(y[1], level) && channel_bit(x[2], level)
        == channel_bit(y[2], level) by {
        assert(color_index(x, level) == color_index(y, level));
    }
    bits_tell_the_channel(x[0], y[0]);
    bits_tell_the_channel(x[1], y[1]);
    bits_tell_the_channel(x[2], y[2]);
}

/// Two colours whose ways lead through one node take the same slots above it.
proof fn same_node_same_slots(
    nodes: Seq<Node>,
    open: int,
    j: int,
    x: [u8; 4],
    y: [u8; 4],
    level: u8,
)
    requires
        insert_inv(nodes, open),
        0 <= j < nodes.len(),
        on_way(nodes, j, x),
        on_way(nodes, j, y),
        level < nodes[j].level,
    ensures
        color_index(x, level) == color_index(y, level),
    decreases j,
{
    assert(links_ok(nodes, j));
    let p = place(nodes[j].parent);
    assert(links_ok(nodes, p));
    if level < nodes[p].level {
        same_node_same_slots(nodes, open, p, x, y, level);
    }
}

/// The colours whose ways lead to one node of level 8 have the same red,
/// green and blue: the node stands for one colour.
pub proof fn leaf_has_one_color(nodes: Seq<Node>, open: int, leaf: int, x: [u8; 4], y: [u8; 4])
    requires
        insert_inv(nodes, open),
        0 <= leaf < nodes.len(),
        nodes[leaf].level == 8,
        on_way(nodes, leaf, x),
        on_way(nodes, leaf, y),
    ensures
        same_rgb(x, y),
{
    assert forall|level: u8| 0 <= level < 8 implies color_index(x, level) == color_index(
        y,
        level,
    ) by {
        same_node_same_slots(nodes, open, leaf, x, y, level);
    }
    slots_tell_the_color(x, y);
}

/// Colours with the same red, green and blue go the same way.
pub proof fn same_color_same_way(nodes: Seq<Node>, j: int, x: [u8; 4], y: [u8; 4])
    requires
        same_rgb(x, y),
    ensures
        on_way(nodes, j, x) == on_way(nodes, j, y),
    decreases j,
{
    if j > 0 {
        let p = place(nodes[j].parent);
        if nodes[j].parent is Some && p < j {
            same_color_same_way(nodes, p, x, y);
        }
    }
}

// ---------------------------------------------------------------------------
// What a leaf holds

/// Pixels of one colour add up to so many times that colour.
proof fn routed_of_one_color(
    pixels: Seq<[u8; 4]>,
    nodes: Seq<Node>,
    leaf: int,
    x: [u8; 4],
    tally: Tally,
)
    requires
        forall|k: int|
            0 <= k < pixels.len() && on_way(nodes, leaf, #[trigger] pixels[k]) ==> same_rgb(
                pixels[k],
                x,
            ),
    ensures
        routed(pixels, nodes, leaf, tally) == tally_of_color(x, tally) * routed(
            pixels,
            nodes,
            leaf,
            Tally::Pixels,
        ),
    decreases pixels.len(),
{
    let value = tally_of_color(x, tally);
    if pixels.len() == 0 {
        assert(value * 0 == 0);
    } else {
        let rest = pixels.drop_last();
        let last = pixels[pixels.len() - 1];
        assert(pixels.last() == last);
        assert forall|k: int| 0 <= k < rest.len() && on_way(nodes, leaf, #[trigger] rest[k])
            implies same_rgb(rest[k], x) by {
            assert(rest[k] == pixels[k]);
        }
        routed_of_one_color(rest, nodes, leaf, x, tally);
        let count = routed(rest, nodes, leaf, Tally::Pixels);
        if on_way(nodes, leaf, last) {
            assert(same_rgb(last, x));
            assert(tally_of_color(last, tally) == value);
            assert(tally_of_color(last, Tally::Pixels) == 1);
            assert(routed(pixels, nodes, leaf, Tally::Pixels) == count + 1);
            assert(routed(pixels, nodes, leaf, tally) == value * count + value);
            assert(value * (count + 1) == value * count + value) by (nonlinear_arith);
        } else {
            assert(routed(pixels, nodes, leaf, Tally::Pixels) == count);
            assert(routed(pixels, nodes, leaf, tally) == value * count);
        }
    }
}

/// A pixel of the list whose way leads through a node is counted there.
proof fn routed_counts_member(pixels: Seq<[u8; 4]>, nodes: Seq<Node>, j: int, k: int)
    requires
        0 <= k < pixels.len(),
        on_way(nodes, j, pixels[k]),
    ensures
        routed(pixels, nodes, j, Tally::Pixels) >= 1,
    decreases pixels.len(),
{
    if k < pixels.len() - 1 {
        let rest = pixels.drop_last();
        assert(rest[k] == pixels[k]);
        routed_counts_member(rest, nodes, j, k);
    }
}

/// Where pixels are counted at a node, the way of one of them leads there.
proof fn routed_has_member(pixels: Seq<[u8; 4]>, nodes: Seq<Node>, j: int) -> (k: int)
    requires
        routed(pixels, nodes, j, Tally::Pixels) >= 1,
    ensures
        0 <= k < pixels.len(),
        on_way(nodes, j, pixels[k]),
    decreases pixels.len(),
{
    if on_way(nodes, j, pixels.last()) {
        pixels.len() - 1
    } else {
        let rest = pixels.drop_last();
        let k = routed_has_member(rest, nodes, j);
        assert(rest[k] == pixels[k]);
        k
    }
}

/// The mean of so many times a channel is the channel.
proof fn mean_of_one_value(sum: nat, count: nat, value: nat)
    requires
        count > 0,
        sum == value * count,
    ensures
        sum / count == value,
{
    assert((value * count) / count == value) by (nonlinear_arith)
        requires
            count > 0,
    ;
}

/// Before a tree is folded, the node of level 8 on the way of a pixel
/// stands for the colour of that pixel: it holds pixels, and their mean is
/// the pixel with its alpha set to 255.
pub proof fn leaf_mean_is_its_color(pixels: Seq<[u8; 4]>, nodes: Seq<Node>, leaf: int, k: int)
    requires
        tree_wf(nodes),
        sums_hold(pixels, nodes),
        0 <= leaf < nodes.len(),
        nodes[leaf].level == 8,
        0 <= k < pixels.len(),
        on_way(nodes, leaf, pixels[k]),
    ensures
        is_candidate(nodes, leaf),
        nodes[leaf].accumulator.mean() == opaque(pixels[k]),
{
    let x = pixels[k];
    let held = nodes[leaf].accumulator;
    assert(links_ok(nodes, leaf));
    assert(is_live(nodes, leaf));
    assert forall|n: int| 0 <= n < pixels.len() && on_way(nodes, leaf, #[trigger] pixels[n])
        implies same_rgb(pixels[n], x) by {
        assert(insert_inv(nodes, leaf));
        leaf_has_one_color(nodes, leaf, leaf, pixels[n], x);
    }
    leaf_holds_its_pixels(pixels, nodes, leaf, Tally::Pixels);
    leaf_holds_its_pixels(pixels, nodes, leaf, Tally::Red);
    leaf_holds_its_pixels(pixels, nodes, leaf, Tally::Green);
    leaf_holds_its_pixels(pixels, nodes, leaf, Tally::Blue);
    routed_of_one_color(pixels, nodes, leaf, x, Tally::Red);
    routed_of_one_color(pixels, nodes, leaf, x, Tally::Green);
    routed_of_one_color(pixels, nodes, leaf, x, Tally::Blue);
    routed_counts_member(pixels, nodes, leaf, k);
    let count = held.pixel_count as nat;
    assert(tally_of(held, Tally::Pixels) == count);
    assert(tally_of(held, Tally::Red) == held.r);
    assert(tally_of(held, Tally::Green) == held.g);
    assert(tally_of(held, Tally::Blue) == held.b);
    mean_of_one_value(held.r as nat, count, x[0] as nat);
    mean_of_one_value(held.g as nat, count, x[1] as nat);
    mean_of_one_value(held.b as nat, count, x[2] as nat);
    assert(held.mean() =~= opaque(x));
}

// ---------------------------------------------------------------------------
// Leaves are there

/// A node grown in the slot that a colour names lies on the way of the colour.
proof fn new_node_is_on_way(nodes: Seq<Node>, at: int, slot: int, color: [u8; 4])
    requires
        0 <= at < nodes.len(),
        nodes.len() <= usize::MAX,
        nodes[at].level < 8,
        slot == color_index(color, nodes[at].level as u8),
        on_way(nodes, at, color),
    ensures
        on_way(grown(nodes, at, slot), nodes.len() as int, color),
{
    growing_keeps_ways(nodes, at, slot, at, color);
}

/// A colour that goes down leaves the ways and the levels of the nodes that
/// were there as they were.
proof fn descending_keeps_ways(
    nodes: Seq<Node>,
    color: [u8; 4],
    at: int,
    level: nat,
    i: int,
    other: [u8; 4],
)
    requires
        insert_inv(nodes, at),
        nodes[at].level == level,
        nodes.len() + 8 - level <= usize::MAX,
        0 <= i < nodes.len(),
    ensures
        i < descended(nodes, color, at, level).len(),
        on_way(descended(nodes, color, at, level), i, other) == on_way(nodes, i, other),
        descended(nodes, color, at, level)[i].level == nodes[i].level,
    decreases 8 - level,
{
    assert(links_ok(nodes, at));
    if level >= 8 {
        counting_keeps_ways(nodes, at, color, i, other);
    } else {
        let slot = color_index(color, level as u8) as int;
        match nodes[at].children[slot] {
            Some(child) => {
                stepping_keeps_tree(nodes, at, slot);
                descending_keeps_ways(nodes, color, child.0 as int, level + 1, i, other);
            },
            None => {
                growing_keeps_tree(nodes, at, slot);
                growing_keeps_ways(nodes, at, slot, i, other);
                descending_keeps_ways(
                    grown(nodes, at, slot),
                    color,
                    nodes.len() as int,
                    level + 1,
                    i,
                    other,
                );
            },
        }
    }
}

/// A colour that goes down from a node on its way ends at a node of level 8
/// on its way.
proof fn descending_reaches_leaf(nodes: Seq<Node>, color: [u8; 4], at: int, level: nat) -> (leaf:
    int)
    requires
        insert_inv(nodes, at),
        nodes[at].level == level,
        nodes.len() + 8 - level <= usize::MAX,
        on_way(nodes, at, color),
    ensures
        0 <= leaf < descended(nodes, color, at, level).len(),
        descended(nodes, color, at, level)[leaf].level == 8,
        on_way(descended(nodes, color, at, level), leaf, color),
    decreases 8 - level,
{
    assert(links_ok(nodes, at));
    if level >= 8 {
        counting_keeps_ways(nodes, at, color, at, color);
        at
    } else {
        let slot = color_index(color, level as u8) as int;
        match nodes[at].children[slot] {
            Some(child) => {
                stepping_keeps_tree(nodes, at, slot);
                assert(crate::octree_model::child_ok(nodes, at, slot));
                assert(is_live(nodes, at));
                descending_reaches_leaf(nodes, color, child.0 as int, level + 1)
            },
            None => {
                growing_keeps_tree(nodes, at, slot);
                new_node_is_on_way(nodes, at, slot, color);
                descending_reaches_leaf(
                    grown(nodes, at, slot),
                    color,
                    nodes.len() as int,
                    level + 1,
                )
            },
        }
    }
}

/// In the tree built from a list of pixels, every pixel has a node of
/// level 8 on its way.
pub proof fn every_pixel_has_a_leaf(pixels: Seq<[u8; 4]>, k: int) -> (leaf: int)
    requires
        pixels.len() <= PIXEL_CAPACITY,
        8 * pixels.len() + 1 <= usize::MAX,
        0 <= k < pixels.len(),
    ensures
        0 <= leaf < built(pixels).len(),
        built(pixels)[leaf].level == 8,
        on_way(built(pixels), leaf, pixels[k]),
    decreases pixels.len(),
{
    let before = pixels.drop_last();
    let color = pixels.last();
    let tree = built(before);
    built_tree_holds_sums(before);
    assert(links_ok(tree, 0));
    if k == pixels.len() - 1 {
        descending_reaches_leaf(tree, color, 0, 0)
    } else {
        let leaf = every_pixel_has_a_leaf(before, k);
        assert(before[k] == pixels[k]);
        descending_keeps_ways(tree, color, 0, 0, leaf, pixels[k]);
        leaf
    }
}

// ---------------------------------------------------------------------------
// The palette of a tree that is not folded

/// The colours of a list of pixels, each with its alpha set to 255.
pub open spec fn colors_of_pixels(pixels: Seq<[u8; 4]>) -> Set<[u8; 4]> {
    Set::new(|color: [u8; 4]| exists|k: int| 0 <= k < pixels.len() && color == opaque(#[trigger] pixels[k]))
}

/// In the tree built from a list of pixels, a node that holds pixels is a
/// node of level 8 on the way of one of them, and its mean is that pixel
/// with its alpha set to 255.
proof fn candidate_stands_for_a_pixel(pixels: Seq<[u8; 4]>, i: int) -> (k: int)
    requires
        pixels.len() <= PIXEL_CAPACITY,
        8 * pixels.len() + 1 <= usize::MAX,
        is_candidate(built(pixels), i),
    ensures
        0 <= k < pixels.len(),
        built(pixels)[i].level == 8,
        on_way(built(pixels), i, pixels[k]),
        built(pixels)[i].accumulator.mean() == opaque(pixels[k]),
{
    let tree = built(pixels);
    built_tree_holds_sums(pixels);
    assert(links_ok(tree, i));
    assert(is_live(tree, i));
    assert(tree[i].accumulator != ColorAccumulator::zero());
    leaf_holds_its_pixels(pixels, tree, i, Tally::Pixels);
    let k = routed_has_member(pixels, tree, i);
    leaf_mean_is_its_color(pixels, tree, i, k);
    k
}

/// The tree built from a list of pixels stands, before it is folded, for
/// the colours of the pixels, and for no other colour.
pub proof fn unfolded_palette_is_the_colors(pixels: Seq<[u8; 4]>)
    requires
        pixels.len() <= PIXEL_CAPACITY,
        8 * pixels.len() + 1 <= usize::MAX,
    ensures
        palette_of(built(pixels)) == colors_of_pixels(pixels),
{
    let tree = built(pixels);
    built_tree_holds_sums(pixels);
    assert forall|color: [u8; 4]| palette_of(tree).contains(color) == colors_of_pixels(
        pixels,
    ).contains(color) by {
        if palette_of(tree).contains(color) {
            let i = choose|i: int| is_candidate(tree, i) && tree[i].accumulator.mean() == color;
            let k = candidate_stands_for_a_pixel(pixels, i);
            assert(color == opaque(pixels[k]));
        }
        if colors_of_pixels(pixels).contains(color) {
            let k = choose|k: int| 0 <= k < pixels.len() && color == opaque(#[trigger] pixels[k]);
            let leaf = every_pixel_has_a_leaf(pixels, k);
            leaf_mean_is_its_color(pixels, tree, leaf, k);
        }
    }
    assert(palette_of(tree) =~= colors_of_pixels(pixels));
}

/// The tree built from a list of pixels has, before it is folded, one node
/// that holds pixels for each colour of the pixels.
pub proof fn leaves_are_as_many_as_colors(pixels: Seq<[u8; 4]>)
    requires
        pixels.len() <= PIXEL_CAPACITY,
        8 * pixels.len() + 1 <= usize::MAX,
    ensures
        candidates(built(pixels)).finite(),
        colors_of_pixels(pixels).finite(),
        candidates(built(pixels)).len() == colors_of_pixels(pixels).len(),
{
    let tree = built(pixels);
    let mean = |i: usize| tree[i as int].accumulator.mean();
    let leaves = candidates(tree);
    built_tree_holds_sums(pixels);
    candidates_are_finite(tree);
    assert forall|color: [u8; 4]| leaves.map(mean).contains(color) == colors_of_pixels(
        pixels,
    ).contains(color) by {
        if leaves.map(mean).contains(color) {
            let i = choose|i: usize| leaves.contains(i) && color == mean(i);
            let k = candidate_stands_for_a_pixel(pixels, i as int);
            assert(color == opaque(pixels[k]));
        }
        if colors_of_pixels(pixels).contains(color) {
            let k = choose|k: int| 0 <= k < pixels.len() && color == opaque(#[trigger] pixels[k]);
            let leaf = every_pixel_has_a_leaf(pixels, k);
            leaf_mean_is_its_color(pixels, tree, leaf, k);
            assert(leaves.contains(leaf as usize));
            assert(mean(leaf as usize) == color);
        }
    }
    assert(leaves.map(mean) =~= colors_of_pixels(pixels));
    assert forall|a: usize, b: usize|
        leaves.contains(a) && leaves.contains(b) && #[trigger] mean(a) == #[trigger] mean(
            b,
        ) implies a == b by {
        let ka = candidate_stands_for_a_pixel(pixels, a as int);
        let kb = candidate_stands_for_a_pixel(pixels, b as int);
        let x = pixels[ka];
        let y = pixels[kb];
        assert(opaque(x)[0] == opaque(y)[0] && opaque(x)[1] == opaque(y)[1] && opaque(x)[2]
            == opaque(y)[2]);
        assert(same_rgb(x, y));
        same_color_same_way(tree, a as int, x, y);
        assert(links_ok(tree, 0));
        assert(insert_inv(tree, 0));
        one_node_per_level(tree, 0, y, a as int, b as int);
    }
    vstd::set_lib::lemma_map_size(leaves, colors_of_pixels(pixels), mean);
}

/// Where the pixels have no more colours than are asked for, nothing is
/// folded: the palette is the colours of the pixels, each with its alpha
/// set to 255.
pub proof fn few_colors_are_kept(pixels: Seq<[u8; 4]>, k: nat)
    requires
        pixels.len() <= PIXEL_CAPACITY,
        8 * pixels.len() + 1 <= usize::MAX,
        k >= 1,
        colors_of_pixels(pixels).finite() ==> colors_of_pixels(pixels).len() <= k,
    ensures
        reduction_palette(built(pixels), k) == colors_of_pixels(pixels),
{
    leaves_are_as_many_as_colors(pixels);
    unfolded_palette_is_the_colors(pixels);
    assert(reduced(built(pixels), k, built(pixels).len()) == built(pixels));
}

} // verus!
