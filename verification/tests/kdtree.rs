use pbrt_rust::utils::kdtree::{kd_tree_links, KdLinks, NO_RIGHT_CHILD};

fn node(has_left_child: bool, right_child: usize) -> KdLinks {
    KdLinks { has_left_child, right_child }
}

#[test]
fn kdtree_it_can_be_created() {
    let links = kd_tree_links(8);
    assert_eq!(links.len(), 8);
}

#[test]
fn a_single_point_is_a_leaf() {
    assert_eq!(kd_tree_links(1), vec![node(false, NO_RIGHT_CHILD)]);
}

#[test]
fn two_points_have_only_a_right_child() {
    assert_eq!(kd_tree_links(2), vec![node(false, 1), node(false, NO_RIGHT_CHILD)]);
}

#[test]
fn eight_points_are_numbered_in_pre_order() {
    assert_eq!(
        kd_tree_links(8),
        vec![
            node(true, 4),
            node(false, 2),
            node(false, 3),
            node(false, NO_RIGHT_CHILD),
            node(true, 6),
            node(false, NO_RIGHT_CHILD),
            node(false, 7),
            node(false, NO_RIGHT_CHILD),
        ]
    );
}

#[test]
fn every_link_stays_inside_the_tree() {
    for n in 1..200 {
        let links = kd_tree_links(n);
        assert_eq!(links.len(), n);
        for (i, l) in links.iter().enumerate() {
            assert!(!l.has_left_child || i + 1 < n);
            assert!(l.right_child == NO_RIGHT_CHILD || (i < l.right_child && l.right_child < n));
        }
    }
}
