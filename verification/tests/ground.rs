use game::ground::{CollisionTreeNode, Ground};

fn node(children: Vec<usize>) -> CollisionTreeNode<()> {
    CollisionTreeNode { collider: (), children }
}

fn sample() -> Ground<()> {
    // 0 -> 1, 2 ; 2 -> 3
    Ground { collision_tree: vec![node(vec![1, 2]), node(vec![]), node(vec![3]), node(vec![])] }
}

#[test]
fn single_box_ground() {
    let g = Ground { collision_tree: vec![node(vec![])] };
    assert!(g.colliding(&vec![true]));
    assert!(!g.colliding(&vec![false]));
}

#[test]
fn outside_root_box_never_collides() {
    assert!(!sample().colliding(&vec![false, true, true, true]));
}

#[test]
fn a_hit_leaf_chain_collides() {
    assert!(sample().colliding(&vec![true, true, false, false]));
    assert!(sample().colliding(&vec![true, false, true, true]));
}

#[test]
fn a_chain_broken_before_a_leaf_does_not_collide() {
    assert!(!sample().colliding(&vec![true, false, true, false]));
    assert!(!sample().colliding(&vec![true, false, false, true]));
}

#[test]
fn a_cycle_out_of_reach_of_the_root_is_ignored() {
    // 0 -> 1 ; 2 <-> 3 never reached from the root
    let g = Ground { collision_tree: vec![node(vec![1]), node(vec![]), node(vec![3]), node(vec![2])] };
    assert!(g.colliding(&vec![true, true, true, true]));
    assert!(!g.colliding(&vec![true, false, true, true]));
}

#[test]
fn walkable_trees_are_recognised() {
    assert!(sample().is_walkable_tree());
    let g = Ground { collision_tree: vec![node(vec![1]), node(vec![]), node(vec![3]), node(vec![2])] };
    assert!(g.is_walkable_tree());
    let shared = Ground { collision_tree: vec![node(vec![1, 2]), node(vec![2]), node(vec![])] };
    assert!(shared.is_walkable_tree());
    let backwards = Ground { collision_tree: vec![node(vec![3]), node(vec![]), node(vec![1]), node(vec![2, 1])] };
    assert!(backwards.is_walkable_tree());
}

#[test]
fn unwalkable_trees_are_refused() {
    let empty: Ground<()> = Ground { collision_tree: vec![] };
    assert!(!empty.is_walkable_tree());
    let out_of_range = Ground { collision_tree: vec![node(vec![1]), node(vec![5])] };
    assert!(!out_of_range.is_walkable_tree());
    let cycle = Ground { collision_tree: vec![node(vec![1]), node(vec![2]), node(vec![1])] };
    assert!(!cycle.is_walkable_tree());
    let self_loop = Ground { collision_tree: vec![node(vec![0])] };
    assert!(!self_loop.is_walkable_tree());
}
