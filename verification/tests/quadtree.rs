use my_library::{Point, Rect2D, StaticQuadTree};

fn rect(x0: i64, y0: i64, x1: i64, y1: i64) -> Rect2D {
    Rect2D::new(Point { x: x0, y: y0 }, Point { x: x1, y: y1 })
}

fn world_tree(depth: usize) -> StaticQuadTree {
    StaticQuadTree::new(Point { x: 1024, y: 768 }, depth)
}

fn within(inner: &Rect2D, outer: &Rect2D) -> bool {
    outer.min.x <= inner.min.x
        && inner.max.x <= outer.max.x
        && outer.min.y <= inner.min.y
        && inner.max.y <= outer.max.y
}

#[test]
fn node_count_follows_the_depth() {
    assert_eq!(world_tree(0).len(), 1);
    assert_eq!(world_tree(1).len(), 5);
    assert_eq!(world_tree(2).len(), 21);
    assert_eq!(world_tree(3).len(), 85);
    assert_eq!(world_tree(4).len(), 341);
    assert_eq!(world_tree(6).len(), 5461);
}

#[test]
fn node_count_is_a_geometric_sum() {
    for depth in 0..8usize {
        let expected = (4usize.pow(depth as u32 + 1) - 1) / 3;
        assert_eq!(world_tree(depth).len(), expected);
        assert_eq!(world_tree(depth).max_depth(), depth);
    }
}

#[test]
fn root_covers_the_world_around_the_origin() {
    let tree = world_tree(4);
    assert_eq!(tree.node(0).bounds(), rect(-512, -384, 512, 384));
    let tree = StaticQuadTree::new(Point { x: 10240, y: 7680 }, 6);
    assert_eq!(tree.node(0).bounds(), rect(-5120, -3840, 5120, 3840));
}

#[test]
fn a_tree_of_depth_zero_is_a_single_leaf() {
    let tree = world_tree(0);
    assert_eq!(tree.len(), 1);
    assert_eq!(tree.node(0).children(), None);
    assert_eq!(tree.smallest_node(&rect(1, 1, 2, 2)), 0);
}

#[test]
fn children_follow_the_parent_in_fixed_order() {
    let tree = world_tree(1);
    assert_eq!(tree.node(0).children(), Some([1, 2, 3, 4]));
    assert_eq!(tree.node(1).bounds(), rect(-512, -384, 0, 0));
    assert_eq!(tree.node(2).bounds(), rect(0, -384, 512, 0));
    assert_eq!(tree.node(3).bounds(), rect(-512, 0, 0, 384));
    assert_eq!(tree.node(4).bounds(), rect(0, 0, 512, 384));
    for i in 1..5 {
        assert_eq!(tree.node(i).children(), None);
    }
}

#[test]
fn each_child_block_follows_the_block_before_it() {
    let tree = world_tree(4);
    // Below each child of the root stand 4 + 16 + 64 = 84 nodes.
    assert_eq!(tree.node(0).children(), Some([1, 2, 3, 4]));
    assert_eq!(tree.node(1).children(), Some([5, 6, 7, 8]));
    assert_eq!(tree.node(2).children(), Some([89, 90, 91, 92]));
    assert_eq!(tree.node(3).children(), Some([173, 174, 175, 176]));
    assert_eq!(tree.node(4).children(), Some([257, 258, 259, 260]));
    // Below each grandchild of the root stand 4 + 16 = 20 nodes.
    assert_eq!(tree.node(5).children(), Some([9, 10, 11, 12]));
    assert_eq!(tree.node(6).children(), Some([29, 30, 31, 32]));
    assert_eq!(tree.node(9).children(), Some([13, 14, 15, 16]));
    assert_eq!(tree.node(13).children(), None);
}

#[test]
fn every_child_covers_a_quadrant_of_its_parent() {
    let tree = world_tree(4);
    let mut seen = vec![false; tree.len()];
    seen[0] = true;
    for i in 0..tree.len() {
        let node = tree.node(i);
        if let Some(children) = node.children() {
            let quadrants = node.bounds().quadrants();
            for k in 0..4 {
                let child = children[k];
                assert!(child > i && child < tree.len());
                assert!(!seen[child]);
                seen[child] = true;
                assert_eq!(tree.node(child).bounds(), quadrants[k]);
                assert!(within(&tree.node(child).bounds(), &node.bounds()));
            }
        }
    }
    assert!(seen.iter().all(|s| *s));
}

#[test]
fn leaves_stand_on_the_deepest_level_only() {
    let tree = world_tree(3);
    let leaves = (0..tree.len()).filter(|i| tree.node(*i).children().is_none()).count();
    assert_eq!(leaves, 64);
    for i in 0..tree.len() {
        if tree.node(i).children().is_none() {
            let b = tree.node(i).bounds();
            assert_eq!(b.max.x - b.min.x, 128);
            assert_eq!(b.max.y - b.min.y, 96);
        }
    }
}

#[test]
fn smallest_node_of_the_whole_world_is_the_root() {
    for depth in 0..6 {
        let tree = world_tree(depth);
        assert_eq!(tree.smallest_node(&rect(-512, -384, 512, 384)), 0);
    }
}

#[test]
fn smallest_node_of_a_target_across_the_center_is_the_root() {
    let tree = world_tree(4);
    assert_eq!(tree.smallest_node(&rect(-4, -4, 4, 4)), 0);
    assert_eq!(tree.smallest_node(&rect(-4, 100, 4, 108)), 0);
    // Touching the split counts as straddling it.
    assert_eq!(tree.smallest_node(&rect(-8, -8, 0, -1)), 0);
}

#[test]
fn smallest_node_of_a_target_inside_a_leaf_is_that_leaf() {
    let tree = world_tree(4);
    let found = tree.smallest_node(&rect(-500, -380, -492, -372));
    assert_eq!(tree.node(found).children(), None);
    assert!(within(&rect(-500, -380, -492, -372), &tree.node(found).bounds()));
    // The first leaf of the first block: root -> 1 -> 5 -> 9 -> 13.
    assert_eq!(found, 13);
    for i in 0..tree.len() {
        if tree.node(i).children().is_none() {
            let b = tree.node(i).bounds();
            let target = rect(b.min.x + 1, b.min.y + 1, b.max.x - 1, b.max.y - 1);
            assert_eq!(tree.smallest_node(&target), i);
        }
    }
}

#[test]
fn smallest_node_stops_where_a_boundary_is_straddled() {
    let tree = world_tree(4);
    // Inside the top-left quadrant of the world, across its own center.
    let found = tree.smallest_node(&rect(-260, -196, -252, -188));
    assert_eq!(found, 1);
    // Outside the world nothing matches below the root.
    assert_eq!(tree.smallest_node(&rect(9000, 9000, 9001, 9001)), 0);
}

#[test]
fn intersecting_nodes_holds_every_overlapping_node() {
    let tree = world_tree(3);
    let target = rect(-10, -10, 300, 20);
    let found = tree.intersecting_nodes(&target);
    for i in 0..tree.len() {
        assert_eq!(found.contains(&i), tree.node(i).bounds().intersect(&target));
    }
    assert_eq!(found.len(), (0..tree.len()).filter(|i| tree.node(*i).bounds().intersect(&target)).count());
}

#[test]
fn intersecting_nodes_of_a_target_inside_a_leaf_is_one_path() {
    let tree = world_tree(4);
    let found = tree.intersecting_nodes(&rect(-500, -380, -492, -372));
    let mut nodes: Vec<usize> = found.iter().copied().collect();
    nodes.sort();
    assert_eq!(nodes, vec![0, 1, 5, 9, 13]);
}

#[test]
fn intersecting_nodes_of_a_target_at_the_center() {
    let tree = world_tree(1);
    let found = tree.intersecting_nodes(&rect(-4, -4, 4, 4));
    let mut nodes: Vec<usize> = found.iter().copied().collect();
    nodes.sort();
    assert_eq!(nodes, vec![0, 1, 2, 3, 4]);
}

#[test]
fn intersecting_nodes_outside_the_world_is_empty() {
    let tree = world_tree(4);
    assert!(tree.intersecting_nodes(&rect(600, 0, 700, 10)).is_empty());
    assert!(tree.intersecting_nodes(&rect(0, -500, 10, -400)).is_empty());
}

#[test]
fn intersecting_nodes_includes_the_root_and_the_descent() {
    let tree = world_tree(4);
    for target in [
        rect(-500, -380, -492, -372),
        rect(-4, -4, 4, 4),
        rect(100, 100, 140, 120),
        rect(-512, -384, 512, 384),
        rect(511, 383, 600, 600),
    ] {
        let found = tree.intersecting_nodes(&target);
        assert!(found.contains(&0));
        // Walk the descent by hand.
        let mut current = 0;
        loop {
            assert!(found.contains(&current));
            let Some(children) = tree.node(current).children() else {
                break;
            };
            let matches: Vec<usize> = children
                .iter()
                .copied()
                .filter(|c| tree.node(*c).bounds().intersect(&target))
                .collect();
            if matches.len() == 1 {
                current = matches[0];
            } else {
                break;
            }
        }
        assert_eq!(current, tree.smallest_node(&target));
    }
}

#[test]
fn smallest_node_contains_a_target_within_the_world() {
    let tree = world_tree(4);
    let mut seed: i64 = 4242;
    for _ in 0..500 {
        seed = (seed * 1103515245 + 12345) % 2147483648;
        let x = seed % 1000 - 500;
        seed = (seed * 1103515245 + 12345) % 2147483648;
        let y = seed % 740 - 370;
        seed = (seed * 1103515245 + 12345) % 2147483648;
        let w = seed % 12;
        let target = rect(x, y, x + w, y + (w / 2));
        let found = tree.smallest_node(&target);
        assert!(within(&target, &tree.node(found).bounds()));
    }
}
