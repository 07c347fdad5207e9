use std::collections::{BTreeMap, BTreeSet};

use earthmesh_refine_certified::full_polygon::{
    diagonals, local_vertex_links_are_paths, topology_allowed, validate_problem, vertex_incidences,
    vertex_link_edges,
};

fn square_boundary() -> BTreeSet<(usize, usize)> {
    BTreeSet::from([(0, 1), (1, 2), (2, 3), (0, 3)])
}

#[test]
fn polygon_checks_name_each_defect() {
    let none = BTreeSet::new();
    assert_eq!(validate_problem(&[0, 1, 2, 3], &square_boundary(), &none), Ok(()));
    assert_eq!(
        validate_problem(&[0, 1], &BTreeSet::from([(0, 1)]), &none),
        Err("full polygon has fewer than three vertices".to_string())
    );
    let big = (0..256).collect::<Vec<usize>>();
    assert_eq!(
        validate_problem(&big, &none, &none),
        Err("full polygon has 256 vertices; u8 incidence limit is 255".to_string())
    );
    assert_eq!(
        validate_problem(&[0, 1, 0], &none, &none),
        Err("full polygon has duplicate boundary vertices".to_string())
    );
    assert_eq!(
        validate_problem(&[0, 1, 2, 3], &BTreeSet::from([(0, 1), (1, 2), (2, 3)]), &none),
        Err("full polygon boundary_edges do not match polygon_vertices".to_string())
    );
    assert_eq!(
        validate_problem(&[0, 1, 2, 3], &square_boundary(), &BTreeSet::from([(1, 2)])),
        Err("full polygon marks a boundary edge as forbidden".to_string())
    );
}

#[test]
fn admissible_triangulations_close_every_edge() {
    let none = BTreeSet::new();
    let square = [[0, 1, 2], [0, 2, 3]];
    assert!(topology_allowed(&square, &square_boundary(), &none));
    assert!(!topology_allowed(&square, &square_boundary(), &BTreeSet::from([(0, 2)])));
    assert!(!topology_allowed(&[[0, 1, 2]], &square_boundary(), &none));
    assert!(!topology_allowed(&[[0, 1, 2], [2, 1, 0], [0, 2, 3]], &square_boundary(), &none));
    assert!(!topology_allowed(&[[0, 1, 1], [0, 2, 3]], &square_boundary(), &none));
    assert_eq!(diagonals(&square, &square_boundary()), BTreeSet::from([(0, 2)]));
}

#[test]
fn incidences_count_corners_and_stop_at_the_first_overflow() {
    let counts = vertex_incidences(&[[0, 1, 2], [0, 2, 3]]).unwrap();
    assert_eq!(counts, BTreeMap::from([(0, 2u8), (1, 1), (2, 2), (3, 1)]));
    let mut many = vec![[5, 1, 2]; 255];
    many.push([1, 5, 6]);
    assert_eq!(vertex_incidences(&many), Err("vertex 1 incidence exceeds u8".to_string()));
    let repeated = vec![[0, 1, 2]; 256];
    assert_eq!(vertex_incidences(&repeated), Err("vertex 0 incidence exceeds u8".to_string()));
}

#[test]
fn links_of_a_triangulated_square_are_paths() {
    let links = vertex_link_edges(&[[0, 1, 2], [0, 2, 3]]);
    let mut expected = BTreeMap::new();
    expected.insert(0, BTreeSet::from([(1, 2), (2, 3)]));
    expected.insert(1, BTreeSet::from([(0, 2)]));
    expected.insert(2, BTreeSet::from([(0, 1), (0, 3)]));
    expected.insert(3, BTreeSet::from([(0, 2)]));
    assert_eq!(links, expected);
    assert!(local_vertex_links_are_paths(&links));

    let mut cyclic = BTreeMap::new();
    cyclic.insert(7, BTreeSet::from([(1, 2), (2, 3), (1, 3)]));
    assert!(!local_vertex_links_are_paths(&cyclic));
    let mut split = BTreeMap::new();
    split.insert(7, BTreeSet::from([(1, 2), (3, 4)]));
    assert!(!local_vertex_links_are_paths(&split));
    let mut empty = BTreeMap::new();
    empty.insert(7, BTreeSet::new());
    assert!(!local_vertex_links_are_paths(&empty));
}
