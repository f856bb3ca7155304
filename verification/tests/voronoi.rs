use glam::Vec2;
use howto::voronoi::{sorted_triangles, Cell, Voronoi};

fn square() -> Voronoi {
    let mut v = Voronoi::new();
    v.add_cell(Cell::Air, Vec2::new(0.0, 0.0));
    v.add_cell(Cell::Dirt, Vec2::new(1.0, 0.0));
    v.add_cell(Cell::Stone, Vec2::new(0.0, 1.0));
    v.add_cell(Cell::Air, Vec2::new(1.0, 1.0));
    v
}

#[test]
fn new_diagram_is_empty() {
    let v = Voronoi::new();
    assert!(v.nodes_values.is_empty());
    assert!(v.nodes_pos.is_empty());
    assert!(v.nodes_ngh.is_empty());
    assert!(v.adjacency.is_empty());
    assert!(v.nodes_corner.is_empty());
    assert!(v.corners_pos.is_empty());
    assert!(v.iterate_nghs().is_empty());
}

#[test]
fn add_cell_appends_value_and_position() {
    let v = square();
    assert_eq!(v.nodes_values, vec![Cell::Air, Cell::Dirt, Cell::Stone, Cell::Air]);
    assert_eq!(v.nodes_pos[2], Vec2::new(0.0, 1.0));
    assert!(v.nodes_ngh.is_empty());
}

#[test]
fn sorted_triangles_sorts_each_triple() {
    let t = sorted_triangles(&vec![2, 0, 1, 3, 1, 2, 5]);
    assert_eq!(t, vec![(0, 1, 2), (1, 2, 3)]);
    assert_eq!(sorted_triangles(&vec![4, 4, 1]), vec![(1, 4, 4)]);
    assert!(sorted_triangles(&vec![1, 2]).is_empty());
}

fn distance_bits(a: &Vec2, b: &Vec2) -> u32 {
    a.distance(*b).to_bits()
}

fn recomputed() -> Voronoi {
    let mut v = square();
    let c0 = Vec2::new(0.5, 0.5);
    let c1 = Vec2::new(0.6, 0.6);
    v.recompute_all(&vec![0, 1, 2, 2, 1, 3], vec![c0, c1], distance_bits);
    v
}

#[test]
fn recompute_all_lists_corners_per_cell() {
    let v = recomputed();
    assert_eq!(v.corners_pos, vec![Vec2::new(0.5, 0.5), Vec2::new(0.6, 0.6)]);
    assert_eq!(v.nodes_corner, vec![vec![0], vec![0, 1], vec![0, 1], vec![1]]);
}

#[test]
fn recompute_all_lists_each_edge_once() {
    let v = recomputed();
    let mut pairs: Vec<[usize; 2]> = v.adjacency.iter().map(|a| a.nodes).collect();
    pairs.sort();
    assert_eq!(pairs, vec![[0, 1], [0, 2], [1, 2], [1, 3], [2, 3]]);
}

#[test]
fn recompute_all_measures_edges_between_corners() {
    let v = recomputed();
    for a in v.adjacency.iter() {
        let length = f32::from_bits(a.magnitude_bits);
        if a.nodes == [1, 2] {
            // inner edge: between the circumcenters of both triangles
            assert_eq!(length, Vec2::new(0.5, 0.5).distance(Vec2::new(0.6, 0.6)));
            assert!(length > 0.14 && length < 0.15);
        } else {
            // hull edge: one triangle, one corner
            assert_eq!(length, 0.0);
        }
    }
}

#[test]
fn recompute_all_neighbours_are_symmetric() {
    let v = recomputed();
    assert_eq!(v.nodes_ngh.len(), 4);
    let mut n1 = v.nodes_ngh[1].clone();
    n1.sort();
    assert_eq!(n1, vec![0, 2, 3]);
    let mut n3 = v.nodes_ngh[3].clone();
    n3.sort();
    assert_eq!(n3, vec![1, 2]);
    for a in 0..4 {
        for b in v.nodes_ngh[a].iter() {
            assert!(v.nodes_ngh[*b].contains(&a));
        }
    }
}

#[test]
fn recompute_all_replaces_previous_topology() {
    let mut v = recomputed();
    v.recompute_all(&vec![3, 1, 0], vec![Vec2::new(2.0, 2.0)], distance_bits);
    assert_eq!(v.nodes_corner, vec![vec![0], vec![0], vec![], vec![0]]);
    assert_eq!(v.corners_pos, vec![Vec2::new(2.0, 2.0)]);
    let mut pairs: Vec<[usize; 2]> = v.adjacency.iter().map(|a| a.nodes).collect();
    pairs.sort();
    assert_eq!(pairs, vec![[0, 1], [0, 3], [1, 3]]);
    assert!(v.nodes_ngh[2].is_empty());
    assert_eq!(v.nodes_values.len(), 4);
}

#[test]
fn iterate_nghs_gives_neighbour_values() {
    let v = recomputed();
    let items = v.iterate_nghs();
    assert_eq!(items.len(), 4);
    let ((cell, pos), nghs) = &items[3];
    assert_eq!(**cell, Cell::Air);
    assert_eq!(**pos, Vec2::new(1.0, 1.0));
    let mut values: Vec<Cell> = nghs.iter().map(|c| **c).collect();
    values.sort_by_key(|c| *c as u8);
    assert_eq!(values, vec![Cell::Dirt, Cell::Stone]);
}

#[test]
fn iterate_nghs_stops_at_shortest_list() {
    // neighbour lists are only known after a recomputation
    let mut v = recomputed();
    v.add_cell(Cell::Stone, Vec2::new(3.0, 3.0));
    assert_eq!(v.iterate_nghs().len(), 4);
}

#[test]
fn fan_indices_fans_each_cell() {
    let mut v = Voronoi::new();
    v.add_cell(Cell::Air, Vec2::new(0.0, 0.0));
    v.add_cell(Cell::Dirt, Vec2::new(1.0, 0.0));
    v.add_cell(Cell::Stone, Vec2::new(2.0, 0.0));
    v.add_cell(Cell::Air, Vec2::new(3.0, 0.0));
    v.nodes_corner = vec![vec![0, 1, 2, 3], vec![4], vec![5, 6, 7], vec![8, 9]];
    assert_eq!(v.fan_indices(), vec![0, 1, 2, 0, 2, 3, 5, 6, 7]);
}

#[test]
fn fan_indices_of_empty_diagram() {
    assert!(Voronoi::new().fan_indices().is_empty());
}

#[test]
fn default_diagram_is_empty() {
    let v = Voronoi::default();
    assert!(v.nodes_values.is_empty() && v.nodes_pos.is_empty() && v.adjacency.is_empty());
}

#[test]
fn cell_from_random_cycles_through_fillings() {
    assert_eq!(Cell::from_random(0), Cell::Air);
    assert_eq!(Cell::from_random(4), Cell::Dirt);
    assert_eq!(Cell::from_random(8), Cell::Stone);
    assert_eq!(Cell::from_random(u32::MAX), Cell::Air);
}
