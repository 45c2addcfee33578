//! The nodes of the colour octree and what they add up.

use vstd::prelude::*;

verus! {

/// Levels below the root. A node of level 8 stands for one RGB colour.
pub const MAX_DEPTH: u8 = 8;

/// The most pixels a tree counts. Up to here the channel sums fit 64 bits.
pub const PIXEL_CAPACITY: u64 = 72340172838076673;

/// Whether the bit of `channel` that level `level` looks at is set: the
/// highest bit at level 0, the lowest at level 7.
pub open spec fn channel_bit(channel: u8, level: u8) -> bool {
    channel & (0x80u8 >> level) != 0
}

/// The child slot that `color` takes at `level`: the red bit counts 4, the
/// green bit 2 and the blue bit 1.
pub open spec fn color_index(color: [u8; 4], level: u8) -> nat {
    (if channel_bit(color[0], level) {
        4nat
    } else {
        0nat
    }) + (if channel_bit(color[1], level) {
        2nat
    } else {
        0nat
    }) + (if channel_bit(color[2], level) {
        1nat
    } else {
        0nat
    })
}

/// The child slot that `color` takes at `level`.
pub fn get_color_index(color: &[u8; 4], level: u8) -> (index: usize)
    requires
        level < MAX_DEPTH,
    ensures
        index == color_index(*color, level),
        index < 8,
{
    let mut index: usize = 0;
    let mask: u8 = 0b10000000u8 >> level;
    if (color[0] & mask) > 0 {
        index |= 0b100;
        assert(0usize | 0b100 == 4) by (bit_vector);
    }
    if (color[1] & mask) > 0 {
        let ghost before = index;
        index |= 0b010;
        assert(before | 0b010 == before + 2) by (bit_vector)
            requires
                before == 0 || before == 4,
        ;
    }
    if (color[2] & mask) > 0 {
        let ghost before = index;
        index |= 0b001;
        assert(before | 0b001 == before + 1) by (bit_vector)
            requires
                before == 0 || before == 2 || before == 4 || before == 6,
        ;
    }
    index
}

/// Sums of the channels of a number of pixels, and that number.
#[derive(Debug, Clone, Copy, PartialEq, Eq, Structural)]
pub struct ColorAccumulator {
    pub pixel_count: u64,
    pub r: u64,
    pub g: u64,
    pub b: u64,
}

impl ColorAccumulator {
    /// The accumulator of no pixel.
    pub open spec fn zero() -> ColorAccumulator {
        ColorAccumulator { pixel_count: 0, r: 0, g: 0, b: 0 }
    }

    /// No channel sum is more than 255 for each pixel counted, and the count
    /// is within [`PIXEL_CAPACITY`].
    pub open spec fn bounded(self) -> bool {
        &&& self.pixel_count <= PIXEL_CAPACITY
        &&& self.r <= 255 * self.pixel_count
        &&& self.g <= 255 * self.pixel_count
        &&& self.b <= 255 * self.pixel_count
    }

    /// This accumulator with one more pixel.
    pub open spec fn with_pixel(self, color: [u8; 4]) -> ColorAccumulator {
        ColorAccumulator {
            pixel_count: (self.pixel_count + 1) as u64,
            r: (self.r + color[0]) as u64,
            g: (self.g + color[1]) as u64,
            b: (self.b + color[2]) as u64,
        }
    }

    /// The pixels of both accumulators together.
    pub open spec fn merged(self, other: ColorAccumulator) -> ColorAccumulator {
        ColorAccumulator {
            pixel_count: (self.pixel_count + other.pixel_count) as u64,
            r: (self.r + other.r) as u64,
            g: (self.g + other.g) as u64,
            b: (self.b + other.b) as u64,
        }
    }

    /// The mean colour of the pixels counted, each channel rounded down, opaque.
    pub open spec fn mean(self) -> [u8; 4] {
        [
            (self.r / self.pixel_count) as u8,
            (self.g / self.pixel_count) as u8,
            (self.b / self.pixel_count) as u8,
            255u8,
        ]
    }

    /// The accumulator of no pixel.
    pub fn new() -> (accumulator: Self)
        ensures
            accumulator == Self::zero(),
            accumulator.bounded(),
    {
        Self { pixel_count: 0, r: 0, g: 0, b: 0 }
    }

    /// The mean colour of the pixels counted, opaque.
    pub fn output_color(&self) -> (color: [u8; 4])
        requires
            self.pixel_count > 0,
            self.bounded(),
        ensures
            color == self.mean(),
            color[0] as nat == self.r as nat / self.pixel_count as nat,
            color[1] as nat == self.g as nat / self.pixel_count as nat,
            color[2] as nat == self.b as nat / self.pixel_count as nat,
            color[3] == 255,
    {
        let r: u64 = self.r / self.pixel_count;
        let g: u64 = self.g / self.pixel_count;
        let b: u64 = self.b / self.pixel_count;
        assert(r <= 255 && g <= 255 && b <= 255) by (nonlinear_arith)
            requires
                self.pixel_count > 0,
                self.r <= 255 * self.pixel_count,
                self.g <= 255 * self.pixel_count,
                self.b <= 255 * self.pixel_count,
                r == self.r / self.pixel_count,
                g == self.g / self.pixel_count,
                b == self.b / self.pixel_count,
        ;
        let color: [u8; 4] = [r as u8, g as u8, b as u8, 255];
        assert(color =~= self.mean());
        color
    }

    /// Counts one more pixel.
    pub fn add_pixel(&mut self, rhs: &[u8; 4])
        requires
            old(self).bounded(),
            old(self).pixel_count < PIXEL_CAPACITY,
        ensures
            *final(self) == old(self).with_pixel(*rhs),
            final(self).bounded(),
            final(self).pixel_count == old(self).pixel_count + 1,
            final(self).r == old(self).r + rhs[0],
            final(self).g == old(self).g + rhs[1],
            final(self).b == old(self).b + rhs[2],
    {
        self.r += rhs[0] as u64;
        self.g += rhs[1] as u64;
        self.b += rhs[2] as u64;
        self.pixel_count += 1;
    }

    /// Takes in the pixels of another accumulator.
    pub fn add(&mut self, rhs: ColorAccumulator)
        requires
            old(self).bounded(),
            rhs.bounded(),
            old(self).pixel_count + rhs.pixel_count <= PIXEL_CAPACITY,
        ensures
            *final(self) == old(self).merged(rhs),
            final(self).bounded(),
            final(self).pixel_count == old(self).pixel_count + rhs.pixel_count,
            final(self).r == old(self).r + rhs.r,
            final(self).g == old(self).g + rhs.g,
            final(self).b == old(self).b + rhs.b,
    {
        self.r += rhs.r;
        self.g += rhs.g;
        self.b += rhs.b;
        self.pixel_count += rhs.pixel_count;
    }
}

/// The place of a node in the tree's list of nodes.
#[derive(Debug, Clone, Copy, PartialEq, Eq, Structural)]
pub struct NodeId(pub usize);

/// A node of the colour octree.
#[derive(Debug, Clone, Copy)]
pub struct Node {
    /// Depth below the root.
    pub level: u32,
    pub node_id: NodeId,
    /// The slot that this node fills in its parent.
    pub color_index: usize,
    pub parent: Option<NodeId>,
    pub children: [Option<NodeId>; 8],
    pub child_count: u32,
    pub accumulator: ColorAccumulator,
}

/// The number of slots that hold a child.
pub open spec fn count_children(children: [Option<NodeId>; 8]) -> nat {
    (if children[0] is Some { 1nat } else { 0nat })
    + (if children[1] is Some { 1nat } else { 0nat })
    + (if children[2] is Some { 1nat } else { 0nat })
    + (if children[3] is Some { 1nat } else { 0nat })
    + (if children[4] is Some { 1nat } else { 0nat })
    + (if children[5] is Some { 1nat } else { 0nat })
    + (if children[6] is Some { 1nat } else { 0nat })
    + (if children[7] is Some { 1nat } else { 0nat })
}

/// The weight by which nodes with equally many children are ranked: the
/// pixel count scaled down by the depth.
pub open spec fn weight(node: Node) -> u64 {
    node.accumulator.pixel_count >> (node.level as u64)
}

/// `a` is less important than `b`: it has fewer children, or as many and a
/// smaller weight, or both alike and a smaller id.
pub open spec fn precedes(a: Node, b: Node) -> bool {
    a.child_count < b.child_count || (a.child_count == b.child_count && (weight(a) < weight(b)
        || (weight(a) == weight(b) && a.node_id.0 < b.node_id.0)))
}

impl Node {
    /// A node without children or pixels.
    pub open spec fn fresh(
        node_id: NodeId,
        parent: Option<NodeId>,
        color_index: usize,
        level: u32,
    ) -> Node {
        Node {
            level,
            node_id,
            color_index,
            parent,
            children: [None, None, None, None, None, None, None, None],
            child_count: 0,
            accumulator: ColorAccumulator::zero(),
        }
    }

    /// The root of a tree: a node of level 0 without parent.
    pub fn root(node_id: NodeId) -> (node: Self)
        ensures
            node == Self::fresh(node_id, None, 0, 0),
    {
        let node = Self {
            level: 0,
            node_id,
            color_index: 0,
            parent: None,
            children: [None;8],
            child_count: 0,
            accumulator: ColorAccumulator::new(),
        };
        assert(node.children =~= [None, None, None, None, None, None, None, None]);
        node
    }

    /// A node of depth `level` that fills slot `color_index` of its parent.
    pub fn with_parent(
        node_id: NodeId,
        parent_node_id: NodeId,
        color_index: usize,
        level: u8,
    ) -> (node: Self)
        ensures
            node == Self::fresh(node_id, Some(parent_node_id), color_index, level as u32),
    {
        let node = Self {
            level: level as u32,
            node_id,
            color_index,
            parent: Some(parent_node_id),
            children: [None;8],
            child_count: 0,
            accumulator: ColorAccumulator::new(),
        };
        assert(node.children =~= [None, None, None, None, None, None, None, None]);
        node
    }

    /// Whether this node is less important than `other`.
    pub fn is_less_important(&self, other: &Node) -> (less: bool)
        requires
            self.level <= MAX_DEPTH,
            other.level <= MAX_DEPTH,
        ensures
            less == precedes(*self, *other),
    {
        if self.child_count != other.child_count {
            return self.child_count < other.child_count;
        }
        let ac: u64 = self.accumulator.pixel_count >> (self.level as u64);
        let bc: u64 = other.accumulator.pixel_count >> (other.level as u64);
        if ac != bc {
            return ac < bc;
        }
        self.node_id.0 < other.node_id.0
    }
}

} // verus!
