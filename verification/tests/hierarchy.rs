use earthmesh_refine_certified::hierarchy::{
    plan_hierarchy_components, DenseIndex, FaceParent, HierarchyFace, HierarchyGrid,
};

/// The twenty faces of the icosahedron as a cubic graph: an outer ten-cycle,
/// spokes, and an inner ring joining every second vertex.
fn icosahedron_face_neighbours() -> Vec<[usize; 3]> {
    let mut out = Vec::new();
    for i in 0..10 {
        out.push([(i + 1) % 10, (i + 9) % 10, 10 + i]);
    }
    for i in 0..10 {
        out.push([i, 10 + (i + 2) % 10, 10 + (i + 8) % 10]);
    }
    out
}

/// A layer of subdivision `n` with slot 0 unused and, for `n == 2`, four
/// live children under each icosahedron face.
fn layer(n: usize, vertex_count: usize) -> HierarchyGrid {
    let mut faces = vec![HierarchyFace {
        live: false,
        corners: [0, 0, 0],
        neighbours: [0, 0, 0],
        parent: FaceParent::Orphan,
    }];
    if n == 2 {
        let parents = icosahedron_face_neighbours();
        let slot = |parent: usize, child: usize| 1 + 4 * parent + child;
        for (p, q) in parents.iter().enumerate() {
            for child in 0..4 {
                let neighbours = if child == 3 {
                    [slot(p, 0), slot(p, 1), slot(p, 2)]
                } else {
                    [slot(p, 3), slot(q[child], 3), slot(q[(child + 1) % 3], 3)]
                };
                faces.push(HierarchyFace {
                    live: true,
                    corners: [0, 1, 2],
                    neighbours,
                    parent: FaceParent::Parent {
                        address: 1000 + p as u64,
                        subdivision: 1,
                        dense: DenseIndex::Index(p),
                    },
                });
            }
        }
    }
    HierarchyGrid { subdivision: n, vertex_count, faces }
}

#[test]
fn n_less_than_two_returns_empty_plan() {
    let grid = layer(1, 12);
    let plan = plan_hierarchy_components(&grid, &vec![0; grid.vertex_count], 0, 1).unwrap();
    assert!(plan.parent_requirements.is_empty());
    assert!(plan.components.is_empty());
}

#[test]
fn global_eligible_grid_is_one_core_component() {
    let grid = layer(2, 42);
    let plan = plan_hierarchy_components(&grid, &vec![0; grid.vertex_count], 0, 1).unwrap();
    assert_eq!(plan.parent_requirements.len(), 20);
    assert_eq!(plan.components.len(), 1);
    assert_eq!(plan.components[0].parents.len(), 20);
    assert_eq!(plan.components[0].core_parents.len(), 20);
    assert!(plan.components[0].transition_parents.is_empty());
    assert!(plan.components[0].boundary_edges.is_empty());
}

#[test]
fn odd_subdivision_is_rejected() {
    let grid = layer(3, 92);
    assert!(plan_hierarchy_components(&grid, &vec![0; grid.vertex_count], 0, 1)
        .unwrap_err()
        .contains("even subdivision"));
}

#[test]
fn level_slots_must_match_the_vertices() {
    let grid = layer(2, 42);
    assert_eq!(
        plan_hierarchy_components(&grid, &vec![0; 41], 0, 1),
        Err("required level slots must match mesh vertices".to_string())
    );
}

#[test]
fn a_raised_parent_splits_its_neighbours_into_a_ring() {
    let grid = layer(2, 42);
    let mut levels = vec![0; grid.vertex_count];
    levels[10] = 5;
    let mut grid = grid;
    for child in 0..4 {
        grid.faces[1 + child].corners = [10, 3, 4];
    }
    let plan = plan_hierarchy_components(&grid, &levels, 0, 0).unwrap();
    assert_eq!(plan.parent_requirements[0].maximum_required_level, 5);
    assert!(!plan.parent_requirements[0].can_coarsen);
    assert_eq!(plan.components.len(), 1);
    assert_eq!(plan.components[0].parents.len(), 19);
    assert_eq!(plan.components[0].transition_parents.len(), 3);
    assert_eq!(plan.components[0].core_parents.len(), 16);
    assert_eq!(plan.components[0].boundary_edges, vec![(1000, 1001), (1000, 1009), (1000, 1010)]);
}

#[test]
fn a_missing_child_is_reported() {
    let mut grid = layer(2, 42);
    grid.faces[5].live = false;
    assert_eq!(
        plan_hierarchy_components(&grid, &vec![0; grid.vertex_count], 0, 1),
        Err("parent face 1 has 3 active children, expected 4".to_string())
    );
}

#[test]
fn a_wider_ring_keeps_the_components_and_never_adds_core_parents() {
    let mut grid = layer(2, 42);
    let mut levels = vec![0; grid.vertex_count];
    levels[10] = 5;
    for child in 0..4 {
        grid.faces[1 + child].corners = [10, 3, 4];
    }
    let narrow = plan_hierarchy_components(&grid, &levels, 0, 0).unwrap();
    let wide = plan_hierarchy_components(&grid, &levels, 0, 1).unwrap();
    assert_eq!(wide.components.len(), narrow.components.len());
    assert_eq!(wide.components[0].parents, narrow.components[0].parents);
    assert!(wide.components[0].core_parents.len() < narrow.components[0].core_parents.len());
    for parent in &wide.components[0].core_parents {
        assert!(narrow.components[0].core_parents.contains(parent));
    }
    let everything = plan_hierarchy_components(&grid, &levels, 0, usize::MAX).unwrap();
    assert!(everything.components[0].core_parents.is_empty());
    assert_eq!(everything.components[0].transition_parents.len(), 19);
}

#[test]
fn each_parent_is_listed_once() {
    let grid = layer(2, 42);
    let plan = plan_hierarchy_components(&grid, &vec![0; grid.vertex_count], 0, 1).unwrap();
    let mut parents = plan.parent_requirements.iter().map(|r| r.parent).collect::<Vec<_>>();
    assert_eq!(parents.len(), 20);
    parents.sort_unstable();
    parents.dedup();
    assert_eq!(parents.len(), 20);
}
