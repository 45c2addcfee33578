use kmeans_color_gpu::octree::ColorTree;
use kmeans_color_gpu::octree_node::{get_color_index, ColorAccumulator, Node, NodeId};

fn fantasy_pixels() -> [[u8; 4]; 46] {
    [
        [9, 10, 20, 255],
        [16, 20, 31, 255],
        [21, 29, 40, 255],
        [23, 32, 56, 255],
        [25, 51, 45, 255],
        [30, 29, 57, 255],
        [32, 46, 55, 255],
        [36, 21, 39, 255],
        [37, 58, 94, 255],
        [37, 86, 46, 255],
        [52, 28, 39, 255],
        [57, 74, 80, 255],
        [60, 94, 139, 255],
        [64, 39, 81, 255],
        [65, 29, 49, 255],
        [70, 130, 50, 255],
        [77, 43, 50, 255],
        [79, 143, 186, 255],
        [87, 114, 119, 255],
        [96, 44, 44, 255],
        [115, 190, 211, 255],
        [117, 36, 56, 255],
        [117, 167, 67, 255],
        [122, 54, 123, 255],
        [122, 72, 65, 255],
        [129, 151, 150, 255],
        [136, 75, 43, 255],
        [162, 62, 140, 255],
        [164, 221, 219, 255],
        [165, 48, 48, 255],
        [168, 181, 178, 255],
        [168, 202, 88, 255],
        [173, 119, 87, 255],
        [190, 119, 43, 255],
        [192, 148, 115, 255],
        [198, 81, 151, 255],
        [199, 207, 204, 255],
        [207, 87, 60, 255],
        [208, 218, 145, 255],
        [215, 181, 148, 255],
        [218, 134, 62, 255],
        [222, 158, 65, 255],
        [223, 132, 165, 255],
        [231, 213, 179, 255],
        [232, 193, 112, 255],
        [235, 237, 233, 255],
    ]
}

#[test]
fn test_add_color() {
    let mut tree = ColorTree::new();

    let pixels = fantasy_pixels();
    println!("Sorting {} colors", pixels.len());
    for pixel in &pixels {
        tree.add_color(pixel);
    }

    let palette = tree.reduce(8);

    assert_eq!(8, palette.len());
}

#[test]
fn reduce_to_more_colors_than_there_are_gives_each_color() {
    let mut tree = ColorTree::new();
    let pixels = fantasy_pixels();
    for pixel in &pixels {
        tree.add_color(pixel);
        tree.add_color(pixel);
    }
    let palette = tree.reduce(64);
    let mut expected = pixels.to_vec();
    expected.sort();
    assert_eq!(palette, expected);
}

#[test]
fn reduce_to_no_color_gives_none() {
    let mut tree = ColorTree::new();
    tree.add_color(&[1, 2, 3, 255]);
    assert_eq!(tree.reduce(0), Vec::<[u8; 4]>::new());
}

#[test]
fn reduce_of_an_empty_tree_gives_none() {
    let mut tree = ColorTree::new();
    assert_eq!(tree.reduce(4), Vec::<[u8; 4]>::new());
}

#[test]
fn reduce_to_one_color_gives_the_mean() {
    let mut tree = ColorTree::new();
    tree.add_color(&[0, 0, 0, 255]);
    tree.add_color(&[255, 255, 255, 0]);
    tree.add_color(&[10, 20, 30, 255]);
    tree.add_color(&[10, 20, 30, 255]);
    // sums 275, 295, 315 over 4 pixels
    assert_eq!(tree.reduce(1), vec![[68, 73, 78, 255]]);
}

#[test]
fn reduce_folds_the_least_important_leaf_first() {
    let mut tree = ColorTree::new();
    // Two colours that part only in the lowest bit share a parent of level 7.
    for _ in 0..300 {
        tree.add_color(&[200, 200, 200, 255]);
    }
    tree.add_color(&[10, 10, 10, 255]);
    tree.add_color(&[10, 10, 11, 255]);
    tree.add_color(&[10, 10, 11, 255]);
    // Three leaves; weights are 300 >> 8 = 1, 1 >> 8 = 0 and 2 >> 8 = 0: the
    // leaf made first of the two light ones goes first, into the parent
    // that the other dark leaf folds into next.
    let palette = tree.reduce(2);
    assert_eq!(palette, vec![[10, 10, 10, 255], [200, 200, 200, 255]]);
}

#[test]
fn reduce_output_is_ascending_and_distinct() {
    let mut tree = ColorTree::new();
    for pixel in &fantasy_pixels() {
        tree.add_color(pixel);
    }
    let palette = tree.reduce(20);
    assert!(palette.len() <= 20);
    for pair in palette.windows(2) {
        assert!(pair[0] < pair[1]);
    }
}

#[test]
fn color_index_reads_one_bit_per_channel() {
    assert_eq!(get_color_index(&[0b1000_0000, 0, 0, 255], 0), 0b100);
    assert_eq!(get_color_index(&[0, 0b1000_0000, 0, 255], 0), 0b010);
    assert_eq!(get_color_index(&[0, 0, 0b1000_0000, 255], 0), 0b001);
    assert_eq!(get_color_index(&[255, 255, 255, 0], 3), 0b111);
    assert_eq!(get_color_index(&[0b0000_0001, 0b0000_0010, 0b0000_0001, 255], 7), 0b101);
    assert_eq!(get_color_index(&[0b0000_0001, 0b0000_0010, 0b0000_0001, 255], 6), 0b010);
}

#[test]
fn accumulator_means_round_down() {
    let mut accumulator = ColorAccumulator::new();
    accumulator.add_pixel(&[255, 0, 1, 9]);
    accumulator.add_pixel(&[0, 0, 2, 9]);
    assert_eq!(accumulator.pixel_count, 2);
    assert_eq!(accumulator.output_color(), [127, 0, 1, 255]);
    let mut other = ColorAccumulator::new();
    other.add_pixel(&[3, 3, 3, 3]);
    accumulator.add(other);
    assert_eq!(
        accumulator,
        ColorAccumulator { pixel_count: 3, r: 258, g: 3, b: 6 }
    );
    assert_eq!(accumulator.output_color(), [86, 1, 2, 255]);
}

#[test]
fn nodes_start_empty() {
    let root = Node::root(NodeId(0));
    assert_eq!(root.level, 0);
    assert_eq!(root.parent, None);
    assert_eq!(root.child_count, 0);
    assert_eq!(root.children, [None; 8]);
    let child = Node::with_parent(NodeId(5), NodeId(0), 3, 1);
    assert_eq!(child.level, 1);
    assert_eq!(child.node_id, NodeId(5));
    assert_eq!(child.parent, Some(NodeId(0)));
    assert_eq!(child.color_index, 3);
    assert_eq!(child.accumulator, ColorAccumulator::new());
    assert!(!child.is_less_important(&root));
    assert!(root.is_less_important(&child));
}
