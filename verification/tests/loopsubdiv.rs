use pbrt_rust::shape::loopsubdiv::{loop_refine_topology, loop_topology_new, topology_indices};

// Tetrahedron
const TET_TRIS: [usize; 12] = [0, 3, 2, 0, 1, 2, 0, 3, 1, 1, 2, 3];

#[test]
fn loopsubdiv_it_can_be_created() {
    let subdiv = loop_topology_new(&TET_TRIS, 4, 1);
    assert_eq!(subdiv.n_levels, 1);
    assert_eq!(subdiv.n_vertices, 4);
    assert_eq!(subdiv.faces.len(), 4);
}

#[test]
fn tetrahedron_faces_and_neighbours() {
    let m = loop_topology_new(&TET_TRIS, 4, 1);
    assert_eq!(m.faces, vec![[0, 3, 2], [0, 1, 2], [0, 3, 1], [1, 2, 3]]);
    assert_eq!(m.neighbours[0], [Some(2), Some(3), Some(1)]);
    assert_eq!(m.neighbours[1], [Some(2), Some(3), Some(0)]);
    assert_eq!(m.neighbours[2], [Some(0), Some(3), Some(1)]);
    assert_eq!(m.neighbours[3], [Some(1), Some(0), Some(2)]);
    // A closed mesh: no vertex on the boundary; each vertex has valence 3.
    assert_eq!(m.boundary, vec![false; 4]);
    assert_eq!(m.regular, vec![false; 4]);
}

#[test]
fn single_triangle_is_all_boundary() {
    let m = loop_topology_new(&[0, 1, 2], 3, 0);
    assert_eq!(m.neighbours, vec![[None, None, None]]);
    assert_eq!(m.boundary, vec![true; 3]);
    assert_eq!(m.regular, vec![false; 3]);
}

#[test]
fn boundary_vertex_with_three_faces_is_regular() {
    // A fan of three triangles round vertex 0, open on one side.
    let m = loop_topology_new(&[0, 1, 2, 0, 2, 3, 0, 3, 4], 5, 0);
    assert_eq!(m.boundary, vec![true; 5]);
    assert_eq!(m.regular, vec![true, false, false, false, false]);
    assert_eq!(m.neighbours[1], [Some(0), None, Some(2)]);
}

#[test]
fn unused_vertex_is_neither_boundary_nor_regular() {
    let m = loop_topology_new(&[0, 1, 2], 4, 0);
    assert_eq!(m.boundary, vec![true, true, true, false]);
    assert_eq!(m.regular, vec![false; 4]);
}

#[test]
fn refining_a_triangle_gives_four() {
    let m = loop_topology_new(&[0, 1, 2], 3, 1);
    let r = loop_refine_topology(&m);
    assert_eq!(r.n_vertices, 6);
    assert_eq!(r.n_levels, 1);
    assert_eq!(r.faces, vec![[0, 3, 5], [3, 1, 4], [5, 4, 2], [3, 4, 5]]);
    assert_eq!(
        r.neighbours,
        vec![
            [None, Some(3), None],
            [None, None, Some(3)],
            [Some(3), None, None],
            [Some(1), Some(2), Some(0)],
        ]
    );
    assert_eq!(r.boundary, vec![true; 6]);
    assert_eq!(r.regular, vec![false, false, false, true, true, true]);
}

#[test]
fn refining_a_tetrahedron() {
    let m = loop_topology_new(&TET_TRIS, 4, 1);
    let r = loop_refine_topology(&m);
    // Four old vertices and one new vertex per edge, numbered in the order
    // the edges are first met.
    assert_eq!(r.n_vertices, 10);
    assert_eq!(r.faces.len(), 16);
    assert_eq!(&r.faces[0..4], &[[0, 4, 6], [4, 3, 5], [6, 5, 2], [4, 5, 6]]);
    assert_eq!(&r.faces[4..8], &[[0, 7, 6], [7, 1, 8], [6, 8, 2], [7, 8, 6]]);
    assert_eq!(&r.faces[8..12], &[[0, 4, 7], [4, 3, 9], [7, 9, 1], [4, 9, 7]]);
    assert_eq!(&r.faces[12..16], &[[1, 8, 9], [8, 2, 5], [9, 5, 3], [8, 5, 9]]);
    assert_eq!(r.neighbours[0], [Some(8), Some(3), Some(4)]);
    assert_eq!(r.neighbours[3], [Some(1), Some(2), Some(0)]);
    assert_eq!(r.boundary, vec![false; 10]);
    let mut regular = vec![false; 4];
    regular.extend(vec![true; 6]);
    assert_eq!(r.regular, regular);
    // Every link of the refined mesh points to a face with that edge.
    for (f, nbs) in r.neighbours.iter().enumerate() {
        for k in 0..3 {
            let g = nbs[k].unwrap();
            let (a, b) = (r.faces[f][k], r.faces[f][(k + 1) % 3]);
            let t = r.faces[g];
            assert!(t.contains(&a) && t.contains(&b));
        }
    }
}

#[test]
fn refining_twice() {
    let m = loop_topology_new(&TET_TRIS, 4, 2);
    let r1 = loop_refine_topology(&m);
    let r2 = loop_refine_topology(&r1);
    assert_eq!(r2.faces.len(), 64);
    // A closed mesh of 16 faces has 24 edges.
    assert_eq!(r2.n_vertices, 34);
    assert!(r2.neighbours.iter().all(|n| n.iter().all(|g| g.is_some())));
}

#[test]
fn indices_list_the_faces_in_order() {
    let m = loop_topology_new(&TET_TRIS, 4, 1);
    assert_eq!(topology_indices(&m), TET_TRIS.to_vec());
}

#[test]
fn neighbour_links_are_mutual_on_a_closed_mesh() {
    let m = loop_topology_new(&TET_TRIS, 4, 1);
    for (f, nbs) in m.neighbours.iter().enumerate() {
        for k in 0..3 {
            let g = nbs[k].unwrap();
            assert!(m.neighbours[g].contains(&Some(f)));
        }
    }
}
