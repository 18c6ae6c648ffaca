use std::collections::{HashMap, HashSet};

use evetrade::kdtree::Node3D;
use evetrade::pathfinder::Pathfinder;
use evetrade::types::{largest_axis, Stargate, System, SystemPath, Vector3};

fn system(id: u32, links: &[u32], x: i32, y: i32, z: i32) -> System {
    System {
        id,
        name: format!("S{}", id),
        stargates: links.iter().map(|&d| Stargate { origin: id, destination: d }).collect(),
        position: Vector3::new(x, y, z),
    }
}

#[test]
fn vector_constructors() {
    assert_eq!(Vector3::zero(), Vector3 { x: 0, y: 0, z: 0 });
    assert_eq!(Vector3::one(), Vector3 { x: 1, y: 1, z: 1 });
    assert_eq!(Vector3::from_array([3, -4, 5]), Vector3::new(3, -4, 5));
}

#[test]
fn vector_products_and_distances() {
    let a = Vector3::new(1, 2, 3);
    let b = Vector3::new(-4, 0, 7);
    assert_eq!(a.dot(&b), -4 + 0 + 21);
    assert_eq!(a.distance_squared(&b), 25 + 4 + 16);
    assert_eq!(b.distance_squared(&a), 45);
    let far = Vector3::new(i32::MAX, i32::MAX, i32::MAX);
    let near = Vector3::new(i32::MIN, i32::MIN, i32::MIN);
    let d = (u32::MAX as i128) * (u32::MAX as i128) * 3;
    assert_eq!(far.distance_squared(&near), d);
    assert_eq!(far.dot(&near), 3 * (i32::MAX as i128) * (i32::MIN as i128));
}

#[test]
fn max_dimension_prefers_later_axes_on_ties() {
    assert_eq!(Vector3::new(5, 1, 1).max_dimension(), 0);
    assert_eq!(Vector3::new(1, 5, 1).max_dimension(), 1);
    assert_eq!(Vector3::new(1, 1, 5).max_dimension(), 2);
    assert_eq!(Vector3::new(5, 5, 1).max_dimension(), 1);
    assert_eq!(Vector3::new(5, 1, 5).max_dimension(), 2);
    assert_eq!(Vector3::new(2, 2, 2).max_dimension(), 2);
    assert_eq!(largest_axis(10, 3, -1), 0);
}

#[test]
fn system_path_walks_forward() {
    let mut path = SystemPath::new(vec![10, 20, 30]);
    assert_eq!(path.len(), 3);
    assert_eq!(path.current_system(), Some(10));
    assert_eq!(path.next_system_id(), Some(20));
    assert_eq!(path.next_system_id(), Some(30));
    assert_eq!(path.next_system_id(), None);
    assert_eq!(path.current_system(), Some(30));
}

#[test]
fn empty_system_path_has_no_current_system() {
    let mut path = SystemPath::new(vec![]);
    assert_eq!(path.len(), 0);
    assert_eq!(path.current_system(), None);
    assert_eq!(path.next_system_id(), None);
}

#[test]
fn inserted_system_is_reached_next() {
    let mut path = SystemPath::new(vec![1, 2, 3]);
    path.next_system_id();
    path.insert_after_current(99);
    assert_eq!(path.len(), 4);
    assert_eq!(path.current_system(), Some(2));
    assert_eq!(path.next_system_id(), Some(99));
    assert_eq!(path.next_system_id(), Some(3));
}

#[test]
fn extension_is_reached_in_order() {
    let mut path = SystemPath::new(vec![1, 2]);
    path.extend_after_current(vec![7, 8, 9]);
    assert_eq!(path.len(), 5);
    assert_eq!(path.next_system_id(), Some(7));
    assert_eq!(path.next_system_id(), Some(8));
    assert_eq!(path.next_system_id(), Some(9));
    assert_eq!(path.next_system_id(), Some(2));
    assert_eq!(path.next_system_id(), None);
    let mut unchanged = SystemPath::new(vec![4]);
    unchanged.extend_after_current(vec![]);
    assert_eq!(unchanged.len(), 1);
}

#[test]
fn inserting_one_system_equals_extending_by_one() {
    let mut a = SystemPath::new(vec![5, 6, 7]);
    let mut b = SystemPath::new(vec![5, 6, 7]);
    a.next_system_id();
    b.next_system_id();
    a.insert_after_current(1);
    b.extend_after_current(vec![1]);
    for _ in 0..4 {
        assert_eq!(a.current_system(), b.current_system());
        assert_eq!(a.next_system_id(), b.next_system_id());
    }
    assert_eq!(a.len(), b.len());
}

#[test]
fn tree_keeps_nodes_with_equal_coordinates() {
    let same = Vector3::new(1, 1, 1);
    let mut nodes = vec![Node3D::new(&same, 1), Node3D::new(&same, 2), Node3D::new(&same, 3)];
    let root = Node3D::construct_tree(&mut nodes, 0).unwrap();
    // a stable sort keeps the given order among equal coordinates
    assert_eq!(root.system_id, 2);
    let order: Vec<u32> = nodes.iter().map(|n| n.system_id).collect();
    assert_eq!(order, vec![1, 2, 3]);
}

#[test]
fn empty_tree_is_none() {
    let mut nodes: Vec<Node3D> = Vec::new();
    assert!(Node3D::construct_tree(&mut nodes, 0).is_none());
}

fn tree_points() -> Vec<Vector3> {
    vec![
        Vector3::new(0, 0, 0),
        Vector3::new(10, 0, 0),
        Vector3::new(20, 1, 0),
        Vector3::new(30, 0, 2),
        Vector3::new(40, 0, 0),
        Vector3::new(50, 3, 0),
        Vector3::new(60, 0, 1),
    ]
}

#[test]
fn tree_root_is_median_along_widest_axis() {
    let points = tree_points();
    let mut nodes: Vec<Node3D> = points.iter().enumerate().rev().map(|(i, p)| Node3D::new(p, i as u32)).collect();
    let root = Node3D::construct_tree(&mut nodes, 0).unwrap();
    // widest spread is along x; the median of seven sorted points is the fourth
    assert_eq!(root.system_id, 3);
    // every level splits along x here, so the nodes end up in x order
    let order: Vec<u32> = nodes.iter().map(|n| n.system_id).collect();
    assert_eq!(order, vec![0, 1, 2, 3, 4, 5, 6]);
}

#[test]
fn nearest_neighbor_finds_closest_point() {
    let points = tree_points();
    let mut nodes: Vec<Node3D> = points.iter().enumerate().map(|(i, p)| Node3D::new(p, i as u32)).collect();
    let root = Node3D::construct_tree(&mut nodes, 0).unwrap();
    let none = HashSet::new();
    let found = root.nearest_neighbor(&Vector3::new(31, 0, 0), &none).unwrap();
    assert_eq!(found.system_id, 3);
    let found = root.nearest_neighbor(&Vector3::new(30, 0, 2), &none).unwrap();
    assert_eq!(found.system_id, 3);
}

#[test]
fn nearest_neighbor_skips_excluded_subtrees() {
    let points = tree_points();
    let mut nodes: Vec<Node3D> = points.iter().enumerate().map(|(i, p)| Node3D::new(p, i as u32)).collect();
    let root = Node3D::construct_tree(&mut nodes, 0).unwrap();
    let mut excluded = HashSet::new();
    excluded.insert(root.system_id);
    assert!(root.nearest_neighbor(&Vector3::new(31, 0, 0), &excluded).is_none());
    let mut other = HashSet::new();
    other.insert(6u32);
    let found = root.nearest_neighbor(&Vector3::new(61, 0, 1), &other).unwrap();
    assert_ne!(found.system_id, 6);
    let root_distance = Vector3::new(61, 0, 1).distance_squared(&points[root.system_id as usize]);
    assert!(Vector3::new(61, 0, 1).distance_squared(&points[found.system_id as usize]) <= root_distance);
}

#[test]
fn single_node_tree() {
    let p = Vector3::new(5, 5, 5);
    let mut nodes = vec![Node3D::new(&p, 42)];
    let root = Node3D::construct_tree(&mut nodes, 3).unwrap();
    assert_eq!(root.system_id, 42);
    let found = root.nearest_neighbor(&Vector3::new(-100, 0, 0), &HashSet::new()).unwrap();
    assert_eq!(found.system_id, 42);
}

fn line_map() -> HashMap<u32, System> {
    let mut m = HashMap::new();
    m.insert(1, system(1, &[2], 0, 0, 0));
    m.insert(2, system(2, &[1, 3], 1, 0, 0));
    m.insert(3, system(3, &[2, 4], 2, 0, 0));
    m.insert(4, system(4, &[3], 3, 0, 0));
    m.insert(5, system(5, &[], 0, 5, 0));
    m
}

#[test]
fn route_follows_gates() {
    let m = line_map();
    let mut finder = Pathfinder::new(&m);
    assert_eq!(finder.compute_path(1, 4), Some(vec![1, 2, 3, 4]));
    assert_eq!(finder.compute_path(4, 2), Some(vec![4, 3, 2]));
    assert_eq!(finder.compute_path(3, 3), Some(vec![3]));
}

#[test]
fn unreachable_or_unknown_systems_have_no_route() {
    let m = line_map();
    let mut finder = Pathfinder::new(&m);
    assert_eq!(finder.compute_path(1, 5), None);
    assert_eq!(finder.compute_path(5, 1), None);
    assert_eq!(finder.compute_path(1, 77), None);
    assert_eq!(finder.compute_path(77, 1), None);
}

#[test]
fn cached_route_is_given_again() {
    let m = line_map();
    let mut finder = Pathfinder::new(&m);
    let first = finder.compute_path(1, 3);
    let second = finder.compute_path(1, 3);
    assert_eq!(first, Some(vec![1, 2, 3]));
    assert_eq!(first, second);
}

#[test]
fn gates_that_start_elsewhere_are_not_followed() {
    let mut m = HashMap::new();
    let mut a = system(1, &[], 0, 0, 0);
    a.stargates.push(Stargate { origin: 9, destination: 2 });
    m.insert(1, a);
    m.insert(2, system(2, &[], 1, 0, 0));
    let mut finder = Pathfinder::new(&m);
    assert_eq!(finder.compute_path(1, 2), None);
}

#[test]
fn shorter_hops_are_preferred() {
    // 1 -> 2 -> 4 covers two short hops; 1 -> 3 -> 4 detours far away
    let mut m = HashMap::new();
    m.insert(1, system(1, &[2, 3], 0, 0, 0));
    m.insert(2, system(2, &[4], 1, 0, 0));
    m.insert(3, system(3, &[4], 0, 100, 0));
    m.insert(4, system(4, &[], 2, 0, 0));
    let mut finder = Pathfinder::new(&m);
    assert_eq!(finder.compute_path(1, 4), Some(vec![1, 2, 4]));
}

#[test]
fn nearest_neighbor_prunes_by_depth_axis() {
    // The tree splits this set along y, while the search compares along x at
    // the root; the closer node on the left is then left out of the search.
    let p1 = Vector3::new(2, 49, 0);
    let b = Vector3::new(0, 50, 0);
    let p3 = Vector3::new(1, 100, 0);
    let mut nodes = vec![Node3D::new(&p1, 1), Node3D::new(&b, 2), Node3D::new(&p3, 3)];
    let root = Node3D::construct_tree(&mut nodes, 0).unwrap();
    assert_eq!(root.system_id, 2);
    let target = Vector3::new(3, 50, 0);
    let found = root.nearest_neighbor(&target, &HashSet::new()).unwrap();
    assert_eq!(found.system_id, 2);
    assert!(target.distance_squared(&p1) < target.distance_squared(&b));
}

#[test]
fn detour_is_spliced_after_the_current_system() {
    let mut path = SystemPath::new(vec![10, 20, 30]);
    assert_eq!(path.next_system_id(), Some(20));
    let added = path.take_detour(&vec![20, 21, 22], &vec![22, 23]);
    assert_eq!(added, 3);
    assert_eq!(path.len(), 6);
    assert_eq!(path.current_system(), Some(21));
    assert_eq!(path.next_system_id(), Some(22));
    assert_eq!(path.next_system_id(), Some(23));
    assert_eq!(path.next_system_id(), Some(30));
    assert_eq!(path.next_system_id(), None);
}

#[test]
fn empty_detour_at_the_end_stays_put() {
    let mut path = SystemPath::new(vec![10]);
    assert_eq!(path.take_detour(&vec![], &vec![10]), 0);
    assert_eq!(path.len(), 1);
    assert_eq!(path.current_system(), Some(10));
}

#[test]
fn cached_and_fresh_searches_agree() {
    let systems: HashMap<u32, System> = [
        system(1, &[2, 4], 0, 0, 0),
        system(2, &[1, 3], 1, 0, 0),
        system(3, &[2, 4], 2, 0, 0),
        system(4, &[1, 3], 3, 5, 0),
    ]
    .into_iter()
    .map(|s| (s.id, s))
    .collect();
    let mut used = Pathfinder::new(&systems);
    let _ = used.compute_path(4, 2);
    let _ = used.compute_path(1, 3);
    let cached = used.compute_path(1, 3);
    let mut fresh = Pathfinder::new(&systems);
    assert_eq!(cached, fresh.compute_path(1, 3));
    assert_eq!(used.compute_path(4, 2), fresh.compute_path(4, 2));
}
