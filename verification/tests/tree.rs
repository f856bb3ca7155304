use glam::Vec2;
use howto::voronoi::{BoundingBox, Cell, HierarchicVoronoi, TreeIndex, TreeNode, Voronoi};

fn diagram(n: usize) -> Voronoi {
    let mut v = Voronoi::new();
    for i in 0..n {
        v.add_cell(Cell::Dirt, Vec2::new(i as f32, 0.0));
    }
    v
}

fn hierarchy(n: usize) -> HierarchicVoronoi {
    let radii: Vec<u32> = (0..n).map(|i| (i as f32 + 0.5).to_bits()).collect();
    HierarchicVoronoi::new(diagram(n), radii)
}

fn leaf_index(node: &TreeNode<(BoundingBox, usize)>) -> Option<usize> {
    match node {
        TreeNode::Leaf { val } => Some(val.1),
        TreeNode::Parent { .. } => None,
    }
}

#[test]
fn new_hierarchy_has_one_leaf_per_cell() {
    let h = hierarchy(3);
    assert_eq!(h.voronois.len(), 1);
    for i in 0..3 {
        let node = h.hierarchy.get(TreeIndex(0, i)).unwrap();
        assert_eq!(leaf_index(node), Some(i));
        match node {
            TreeNode::Leaf { val } => {
                assert_eq!(val.0.pos, Vec2::new(i as f32, 0.0));
                assert_eq!(f32::from_bits(val.0.rad_bits), i as f32 + 0.5);
            }
            _ => panic!("expected a leaf"),
        }
    }
    assert!(h.hierarchy.get(TreeIndex(0, 3)).is_none());
    assert!(h.hierarchy.get(TreeIndex(1, 0)).is_none());
}

#[test]
fn children_of_leaf_and_missing_node_are_empty() {
    let h = hierarchy(2);
    assert!(h.hierarchy.children(TreeIndex(0, 0)).is_empty());
    assert!(h.hierarchy.children(TreeIndex(5, 5)).is_empty());
}

fn box_at(x: f32) -> (BoundingBox, usize) {
    (BoundingBox { pos: Vec2::new(x, x), rad_bits: 0 }, 0)
}

#[test]
fn create_children_makes_parent_and_leaves() {
    let mut h = hierarchy(2);
    let kids = vec![box_at(1.0), box_at(2.0), box_at(3.0)];
    assert!(h.hierarchy.create_children(TreeIndex(0, 1), kids).is_ok());
    match h.hierarchy.get(TreeIndex(0, 1)).unwrap() {
        TreeNode::Parent { val, start, len } => {
            assert_eq!(val.1, 1);
            assert_eq!(*start, 0);
            assert_eq!(*len, 3);
        }
        _ => panic!("expected a parent"),
    }
    assert_eq!(
        h.hierarchy.children(TreeIndex(0, 1)),
        vec![TreeIndex(1, 0), TreeIndex(1, 1), TreeIndex(1, 2)]
    );
    match h.hierarchy.get(TreeIndex(1, 2)).unwrap() {
        TreeNode::Leaf { val } => assert_eq!(val.0.pos, Vec2::new(3.0, 3.0)),
        _ => panic!("expected a leaf"),
    }
    // siblings of a second parent go after the first ones
    assert!(h.hierarchy.create_children(TreeIndex(0, 0), vec![box_at(7.0)]).is_ok());
    match h.hierarchy.get(TreeIndex(0, 0)).unwrap() {
        TreeNode::Parent { start, len, .. } => {
            assert_eq!((*start, *len), (3, 1));
        }
        _ => panic!("expected a parent"),
    }
    assert_eq!(h.hierarchy.children(TreeIndex(0, 0)), vec![TreeIndex(1, 3)]);
}

#[test]
fn create_children_with_no_children() {
    let mut h = hierarchy(1);
    assert!(h.hierarchy.create_children(TreeIndex(0, 0), vec![]).is_ok());
    match h.hierarchy.get(TreeIndex(0, 0)).unwrap() {
        TreeNode::Parent { start, len, .. } => assert_eq!((*start, *len), (0, 0)),
        _ => panic!("expected a parent"),
    }
    assert!(h.hierarchy.children(TreeIndex(0, 0)).is_empty());
    assert_eq!(h.hierarchy.get_nth_level_of_root(TreeIndex(0, 0), 5), Vec::<TreeIndex>::new());
}

#[test]
fn create_children_of_parent_fails() {
    let mut h = hierarchy(1);
    assert!(h.hierarchy.create_children(TreeIndex(0, 0), vec![box_at(1.0)]).is_ok());
    let e = h.hierarchy.create_children(TreeIndex(0, 0), vec![box_at(2.0)]).unwrap_err();
    assert_eq!(e.0, "\"Tried to recreate children of a non-child node\"");
    assert_eq!(h.hierarchy.children(TreeIndex(0, 0)), vec![TreeIndex(1, 0)]);
    assert!(h.hierarchy.get(TreeIndex(1, 1)).is_none());
}

#[test]
fn create_children_of_missing_node_fails() {
    let mut h = hierarchy(1);
    assert!(h.hierarchy.create_children(TreeIndex(0, 4), vec![box_at(1.0)]).is_err());
    assert!(h.hierarchy.create_children(TreeIndex(3, 0), vec![box_at(1.0)]).is_err());
    assert!(h.hierarchy.get(TreeIndex(1, 0)).is_none());
}

/// Layer 0: a; a has children b, c in layer 1; b has children d, e in layer 2;
/// c has child f in layer 2.
fn three_layers() -> HierarchicVoronoi {
    let mut h = hierarchy(1);
    h.hierarchy.create_children(TreeIndex(0, 0), vec![box_at(1.0), box_at(2.0)]).unwrap();
    h.hierarchy.create_children(TreeIndex(1, 0), vec![box_at(3.0), box_at(4.0)]).unwrap();
    h.hierarchy.create_children(TreeIndex(1, 1), vec![box_at(5.0)]).unwrap();
    h
}

#[test]
fn nth_level_of_root_visits_last_child_first() {
    let h = three_layers();
    assert_eq!(
        h.hierarchy.get_nth_level_of_root(TreeIndex(0, 0), 2),
        vec![TreeIndex(2, 2), TreeIndex(2, 1), TreeIndex(2, 0)]
    );
    assert_eq!(
        h.hierarchy.get_nth_level_of_root(TreeIndex(0, 0), 1),
        vec![TreeIndex(1, 1), TreeIndex(1, 0)]
    );
    assert_eq!(h.hierarchy.get_nth_level_of_root(TreeIndex(0, 0), 0), vec![TreeIndex(0, 0)]);
}

#[test]
fn nth_level_of_root_returns_shallow_leaves() {
    let mut h = hierarchy(1);
    h.hierarchy.create_children(TreeIndex(0, 0), vec![box_at(1.0), box_at(2.0)]).unwrap();
    h.hierarchy.create_children(TreeIndex(1, 1), vec![box_at(3.0)]).unwrap();
    // (1, 0) stays a leaf above level 2
    assert_eq!(
        h.hierarchy.get_nth_level_of_root(TreeIndex(0, 0), 2),
        vec![TreeIndex(2, 0), TreeIndex(1, 0)]
    );
    // deep levels: everything below are leaves
    assert_eq!(
        h.hierarchy.get_nth_level_of_root(TreeIndex(0, 0), 9),
        vec![TreeIndex(2, 0), TreeIndex(1, 0)]
    );
}

#[test]
fn nth_level_from_inner_root_and_leaf_root() {
    let h = three_layers();
    assert_eq!(
        h.hierarchy.get_nth_level_of_root(TreeIndex(1, 0), 2),
        vec![TreeIndex(2, 1), TreeIndex(2, 0)]
    );
    assert_eq!(h.hierarchy.get_nth_level_of_root(TreeIndex(2, 1), 0), vec![TreeIndex(2, 1)]);
    // a parent deeper than the level is returned itself
    assert_eq!(h.hierarchy.get_nth_level_of_root(TreeIndex(1, 1), 0), vec![TreeIndex(1, 1)]);
}

#[test]
fn nth_level_results_are_leaves_or_deep_enough() {
    let h = three_layers();
    for level in 0..4 {
        for r in h.hierarchy.get_nth_level_of_root(TreeIndex(0, 0), level) {
            let node = h.hierarchy.get(r).unwrap();
            assert!(leaf_index(node).is_some() || r.0 >= level);
            assert!(r.0 <= level);
        }
    }
}

fn distance_bits(a: &Vec2, b: &Vec2) -> u32 {
    a.distance(*b).to_bits()
}

fn square_hierarchy() -> HierarchicVoronoi {
    let mut v = Voronoi::new();
    v.add_cell(Cell::Air, Vec2::new(0.0, 0.0));
    v.add_cell(Cell::Dirt, Vec2::new(1.0, 0.0));
    v.add_cell(Cell::Stone, Vec2::new(0.0, 1.0));
    v.add_cell(Cell::Air, Vec2::new(1.0, 1.0));
    v.recompute_all(
        &vec![0, 1, 2, 2, 1, 3],
        vec![Vec2::new(0.5, 0.5), Vec2::new(0.6, 0.6)],
        distance_bits,
    );
    HierarchicVoronoi::new(v, vec![10, 11, 12, 13])
}

#[test]
fn subdivision_input_gives_cell_box_and_neighbours() {
    let h = square_hierarchy();
    let (cell, bounding, nghs) = h.subdivision_input(TreeIndex(0, 1)).unwrap();
    assert_eq!(cell, Cell::Dirt);
    assert_eq!(bounding.pos, Vec2::new(1.0, 0.0));
    assert_eq!(bounding.rad_bits, 11);
    let expected: Vec<Cell> = h.voronois[0].nodes_ngh[1].iter().map(|j| h.voronois[0].nodes_values[*j]).collect();
    assert_eq!(nghs, expected);
    assert_eq!(nghs.len(), 3);
}

#[test]
fn subdivision_input_of_non_leaf_or_missing_is_none() {
    let mut h = square_hierarchy();
    assert!(h.subdivision_input(TreeIndex(0, 9)).is_none());
    assert!(h.subdivide_cell(TreeIndex(0, 0), vec![(Cell::Air, Vec2::new(0.1, 0.1))], vec![1]));
    assert!(h.subdivision_input(TreeIndex(0, 0)).is_none());
}

#[test]
fn subdivide_cell_appends_children_to_finer_diagram() {
    let mut h = hierarchy(2);
    let kids = vec![(Cell::Air, Vec2::new(0.1, 0.0)), (Cell::Stone, Vec2::new(0.2, 0.0))];
    assert!(h.subdivide_cell(TreeIndex(0, 1), kids, vec![7, 8]));
    assert_eq!(h.voronois.len(), 2);
    assert_eq!(h.voronois[1].nodes_values, vec![Cell::Air, Cell::Stone]);
    assert_eq!(h.voronois[1].nodes_pos, vec![Vec2::new(0.1, 0.0), Vec2::new(0.2, 0.0)]);
    match h.hierarchy.get(TreeIndex(0, 1)).unwrap() {
        TreeNode::Parent { start, len, val } => {
            assert_eq!((*start, *len, val.1), (0, 2, 1));
        }
        _ => panic!("expected a parent"),
    }
    match h.hierarchy.get(TreeIndex(1, 1)).unwrap() {
        TreeNode::Leaf { val } => {
            assert_eq!(val.1, 1);
            assert_eq!(val.0.rad_bits, 8);
            assert_eq!(val.0.pos, Vec2::new(0.2, 0.0));
        }
        _ => panic!("expected a leaf"),
    }
    // a second subdivision appends after the first children
    assert!(h.subdivide_cell(TreeIndex(0, 0), vec![(Cell::Dirt, Vec2::new(0.3, 0.0))], vec![9]));
    assert_eq!(h.voronois[1].nodes_values, vec![Cell::Air, Cell::Stone, Cell::Dirt]);
    match h.hierarchy.get(TreeIndex(1, 2)).unwrap() {
        TreeNode::Leaf { val } => assert_eq!((val.1, val.0.rad_bits), (2, 9)),
        _ => panic!("expected a leaf"),
    }
    assert_eq!(h.hierarchy.children(TreeIndex(0, 0)), vec![TreeIndex(1, 2)]);
    // a finer layer again
    assert!(h.subdivide_cell(TreeIndex(1, 0), vec![(Cell::Air, Vec2::new(0.0, 0.5))], vec![1]));
    assert_eq!(h.voronois.len(), 3);
    assert_eq!(h.voronois[2].nodes_values, vec![Cell::Air]);
}

#[test]
fn subdivide_cell_refuses_parents_and_missing_cells() {
    let mut h = hierarchy(1);
    assert!(h.subdivide_cell(TreeIndex(0, 0), vec![], vec![]));
    assert_eq!(h.voronois.len(), 2);
    assert!(h.voronois[1].nodes_values.is_empty());
    assert!(!h.subdivide_cell(TreeIndex(0, 0), vec![(Cell::Air, Vec2::new(0.0, 0.0))], vec![1]));
    assert!(!h.subdivide_cell(TreeIndex(4, 0), vec![(Cell::Air, Vec2::new(0.0, 0.0))], vec![1]));
    assert_eq!(h.voronois.len(), 2);
    assert!(h.voronois[1].nodes_values.is_empty());
}

#[test]
fn subdivide_cell_with_applies_rule_to_cell_inputs() {
    let mut h = square_hierarchy();
    let rule = |(cell, bounding, nghs): (Cell, BoundingBox, Vec<Cell>)| -> Vec<(Cell, Vec2)> {
        let mut out = vec![(cell, bounding.pos)];
        for (k, c) in nghs.iter().enumerate() {
            out.push((*c, bounding.pos + Vec2::new(0.0, k as f32 + 1.0)));
        }
        out
    };
    let radius = |v: &Voronoi, i: usize| -> u32 { (v.nodes_values.len() * 100 + i) as u32 };
    assert!(h.subdivide_cell_with(rule, radius, TreeIndex(0, 1)));
    let expected_nghs: Vec<Cell> =
        h.voronois[0].nodes_ngh[1].iter().map(|j| h.voronois[0].nodes_values[*j]).collect();
    let mut expected = vec![Cell::Dirt];
    expected.extend(expected_nghs);
    assert_eq!(h.voronois[1].nodes_values, expected);
    assert_eq!(h.voronois[1].nodes_pos[0], Vec2::new(1.0, 0.0));
    assert_eq!(h.voronois[1].nodes_pos[2], Vec2::new(1.0, 2.0));
    assert_eq!(h.hierarchy.children(TreeIndex(0, 1)), vec![TreeIndex(1, 0), TreeIndex(1, 1), TreeIndex(1, 2), TreeIndex(1, 3)]);
    // radii measured in the finer diagram once all four cells are there
    match h.hierarchy.get(TreeIndex(1, 3)).unwrap() {
        TreeNode::Leaf { val } => assert_eq!((val.1, val.0.rad_bits), (3, 403)),
        _ => panic!("expected a leaf"),
    }
}

#[test]
fn subdivide_cell_with_on_parent_applies_nothing() {
    let calls = std::cell::Cell::new(0);
    let mut h = hierarchy(1);
    assert!(h.subdivide_cell(TreeIndex(0, 0), vec![], vec![]));
    let rule = |_: (Cell, BoundingBox, Vec<Cell>)| -> Vec<(Cell, Vec2)> {
        calls.set(calls.get() + 1);
        vec![]
    };
    assert!(!h.subdivide_cell_with(rule, |_: &Voronoi, _: usize| 0u32, TreeIndex(0, 0)));
    assert_eq!(calls.get(), 0);
}

#[test]
fn cloned_tree_has_the_same_nodes() {
    let h = three_layers();
    let copy = h.hierarchy.clone();
    for layer in 0..3 {
        for i in 0..4 {
            assert_eq!(copy.get(TreeIndex(layer, i)).map(leaf_index), h.hierarchy.get(TreeIndex(layer, i)).map(leaf_index));
        }
    }
    assert_eq!(copy.children(TreeIndex(1, 0)), vec![TreeIndex(2, 0), TreeIndex(2, 1)]);
}

#[test]
fn deep_level_returns_every_leaf_of_the_subtree() {
    let h = three_layers();
    let mut found = h.hierarchy.get_nth_level_of_root(TreeIndex(0, 0), 7);
    found.sort_by_key(|x| (x.0, x.1));
    assert_eq!(found, vec![TreeIndex(2, 0), TreeIndex(2, 1), TreeIndex(2, 2)]);
}
