use std::collections::HashMap;
use std::collections::VecDeque;

use traj_tree::arena_store::{arena_tree, ArenaStore};
use traj_tree::builder::{branch_vector, partition_at};
use traj_tree::traversal::{build_and_walk_from_root, tree_walk_dfs_for_hash_tree};
use traj_tree::tree::{HashElement, Traj};

fn scenario_trajs() -> Vec<Traj> {
    vec![
        Traj { path: vec![1, 2, 3, 3, 3, 3] },
        Traj { path: vec![1, 2, 3, 3, 4, 3] },
        Traj { path: vec![1, 2, 3, 4, 5, 6] },
        Traj { path: vec![1, 2, 5, 5, 5, 5, 5, 5] },
    ]
}

fn node(tree: &HashMap<usize, HashElement>, id: usize) -> &HashElement {
    tree.get(&id).expect("node missing")
}

#[test]
fn scenario_hash_tree_shape() {
    let tree = branch_vector(&scenario_trajs());
    assert_eq!(tree.len(), 7);

    let root = node(&tree, 0);
    assert_eq!(root.path, vec![1, 2]);
    assert_eq!(root.trajs, vec![0, 1, 2, 3]);
    assert_eq!(root.parent, None);
    assert_eq!(root.children, vec![1, 2]);

    let n1 = node(&tree, 1);
    assert_eq!(n1.path, vec![3]);
    assert_eq!(n1.trajs, vec![0, 1, 2]);
    assert_eq!(n1.parent, Some(0));
    assert_eq!(n1.children, vec![3, 4]);

    let n2 = node(&tree, 2);
    assert_eq!(n2.path, vec![5, 5, 5, 5, 5, 5]);
    assert_eq!(n2.trajs, vec![3]);
    assert_eq!(n2.parent, Some(0));
    assert!(n2.children.is_empty());

    let n3 = node(&tree, 3);
    assert_eq!(n3.path, vec![3]);
    assert_eq!(n3.trajs, vec![0, 1]);
    assert_eq!(n3.parent, Some(1));
    assert_eq!(n3.children, vec![5, 6]);

    let n4 = node(&tree, 4);
    assert_eq!(n4.path, vec![4, 5, 6]);
    assert_eq!(n4.trajs, vec![2]);
    assert_eq!(n4.parent, Some(1));
    assert!(n4.children.is_empty());

    let n5 = node(&tree, 5);
    assert_eq!(n5.path, vec![3, 3]);
    assert_eq!(n5.trajs, vec![0]);
    assert_eq!(n5.parent, Some(3));
    assert!(n5.children.is_empty());

    let n6 = node(&tree, 6);
    assert_eq!(n6.path, vec![4, 3]);
    assert_eq!(n6.trajs, vec![1]);
    assert_eq!(n6.parent, Some(3));
    assert!(n6.children.is_empty());
}

#[test]
fn scenario_dfs_order() {
    let tree = branch_vector(&scenario_trajs());
    let order = tree_walk_dfs_for_hash_tree(&tree, 0).expect("root exists");
    assert_eq!(order, VecDeque::from(vec![0, 1, 3, 5, 6, 4, 2]));
}

#[test]
fn dfs_from_inner_node() {
    let tree = branch_vector(&scenario_trajs());
    let order = tree_walk_dfs_for_hash_tree(&tree, 3).expect("node exists");
    assert_eq!(order, VecDeque::from(vec![3, 5, 6]));
}

#[test]
fn dfs_missing_start_is_none() {
    let tree = branch_vector(&scenario_trajs());
    assert!(tree_walk_dfs_for_hash_tree(&tree, 99).is_none());
}

#[test]
fn empty_input_yields_empty_tree() {
    let tree = branch_vector(&vec![]);
    assert_eq!(tree.len(), 0);
    assert!(tree_walk_dfs_for_hash_tree(&tree, 0).is_none());
    assert!(tree_walk_dfs_for_hash_tree(&tree, 17).is_none());
}

#[test]
fn branch_arity_on_scenario() {
    let tree = branch_vector(&scenario_trajs());
    for el in tree.values() {
        assert!(el.children.is_empty() || el.children.len() >= 2);
    }
}

#[test]
fn every_trajectory_in_exactly_one_leaf() {
    let trajs = scenario_trajs();
    let tree = branch_vector(&trajs);
    for t in 0..trajs.len() {
        let owners = tree
            .values()
            .filter(|el| el.children.is_empty() && el.trajs.contains(&t))
            .count();
        assert_eq!(owners, 1);
    }
}

#[test]
fn two_equal_trajectories_share_one_node() {
    let trajs = vec![Traj { path: vec![7] }, Traj { path: vec![7] }];
    let tree = branch_vector(&trajs);
    assert_eq!(tree.len(), 1);
    let root = node(&tree, 0);
    assert_eq!(root.path, vec![7]);
    assert_eq!(root.trajs, vec![0, 1]);
    assert!(root.children.is_empty());
}

#[test]
fn three_way_branch_at_root() {
    let trajs = vec![
        Traj { path: vec![1] },
        Traj { path: vec![2] },
        Traj { path: vec![3] },
    ];
    let tree = branch_vector(&trajs);
    assert_eq!(tree.len(), 4);
    let root = node(&tree, 0);
    assert!(root.path.is_empty());
    assert_eq!(root.trajs, vec![0, 1, 2]);
    assert_eq!(root.children, vec![1, 2, 3]);
    assert_eq!(node(&tree, 1).path, vec![1]);
    assert_eq!(node(&tree, 2).path, vec![2]);
    assert_eq!(node(&tree, 3).path, vec![3]);
}

#[test]
fn short_trajectory_is_absorbed() {
    let trajs = vec![Traj { path: vec![1] }, Traj { path: vec![1, 2] }];
    let tree = branch_vector(&trajs);
    assert_eq!(tree.len(), 1);
    let root = node(&tree, 0);
    assert_eq!(root.path, vec![1, 2]);
    assert_eq!(root.trajs, vec![0, 1]);
    assert!(root.children.is_empty());
}

#[test]
fn single_trajectory_single_node() {
    let trajs = vec![Traj { path: vec![4, 5] }];
    let tree = branch_vector(&trajs);
    assert_eq!(tree.len(), 1);
    let root = node(&tree, 0);
    assert_eq!(root.path, vec![4, 5]);
    assert_eq!(root.trajs, vec![0]);
}

#[test]
fn children_follow_first_observation_order() {
    let trajs = vec![
        Traj { path: vec![9] },
        Traj { path: vec![8] },
        Traj { path: vec![9] },
        Traj { path: vec![7] },
    ];
    let tree = branch_vector(&trajs);
    let root = node(&tree, 0);
    assert_eq!(root.children, vec![1, 2, 3]);
    assert_eq!(node(&tree, 1).path, vec![9]);
    assert_eq!(node(&tree, 1).trajs, vec![0, 2]);
    assert_eq!(node(&tree, 2).path, vec![8]);
    assert_eq!(node(&tree, 2).trajs, vec![1]);
    assert_eq!(node(&tree, 3).path, vec![7]);
    assert_eq!(node(&tree, 3).trajs, vec![3]);
}

#[test]
fn scenario_arena_shape() {
    let arena = arena_tree(&scenario_trajs());
    assert_eq!(arena.len(), 7);

    let root = arena.get_node(0).expect("root exists");
    assert_eq!(root.payload.path, vec![1, 2]);
    assert_eq!(root.payload.trajs, vec![0, 1, 2, 3]);
    assert_eq!(root.parent, None);
    assert_eq!(root.children, vec![1, 2]);

    let n3 = arena.get_node(3).expect("node exists");
    assert_eq!(n3.payload.path, vec![3]);
    assert_eq!(n3.payload.trajs, vec![0, 1]);
    assert_eq!(n3.parent, Some(1));
    assert_eq!(n3.children, vec![5, 6]);

    let n6 = arena.get_node(6).expect("node exists");
    assert_eq!(n6.payload.path, vec![4, 3]);
    assert_eq!(n6.payload.trajs, vec![1]);
    assert_eq!(n6.parent, Some(3));
    assert!(n6.children.is_empty());
}

#[test]
fn arena_empty_input() {
    let arena = arena_tree(&vec![]);
    assert_eq!(arena.len(), 0);
    assert!(arena.get_node(0).is_none());
    assert!(arena.get_trajs(0).is_none());
}

#[test]
fn representations_agree_on_scenario() {
    let trajs = scenario_trajs();
    let tree = branch_vector(&trajs);
    let arena = arena_tree(&trajs);
    assert_eq!(tree.len(), arena.len());
    for (id, el) in tree.iter() {
        let slot = arena.get_node(*id).expect("same ids");
        assert_eq!(slot.payload.path, el.path);
        assert_eq!(slot.payload.trajs, el.trajs);
        assert_eq!(slot.parent, el.parent);
        assert_eq!(slot.children, el.children);
    }
}

#[test]
fn arena_store_grows_and_links() {
    let mut arena = ArenaStore::new();
    let a = arena.add_new_node(
        traj_tree::arena_store::ArenaPayload { path: vec![], trajs: vec![0] },
        None,
    );
    let b = arena.add_new_node(
        traj_tree::arena_store::ArenaPayload { path: vec![5], trajs: vec![0] },
        Some(a),
    );
    assert_eq!(a, 0);
    assert_eq!(b, 1);
    assert_eq!(arena.get_node(a).unwrap().children, vec![b]);
    assert_eq!(arena.get_node(b).unwrap().parent, Some(a));
    assert_eq!(arena.get_trajs(b).unwrap(), vec![0]);
}

#[test]
fn build_and_walk_composition() {
    let order = build_and_walk_from_root(&scenario_trajs()).expect("nonempty input");
    assert_eq!(order, VecDeque::from(vec![0, 1, 3, 5, 6, 4, 2]));
    assert!(build_and_walk_from_root(&vec![]).is_none());
}

#[test]
fn segments_are_maximal_on_scenario() {
    let trajs = scenario_trajs();
    let tree = branch_vector(&trajs);
    for (id, el) in tree.iter() {
        let mut boundary = el.path.len();
        let mut cur = el;
        while let Some(p) = cur.parent {
            cur = tree.get(&p).expect("parent exists");
            boundary += cur.path.len();
        }
        let groups = partition_at(&trajs, &el.trajs, boundary);
        assert_ne!(groups.len(), 1, "segment of node {} could be extended", id);
    }
}

#[test]
fn segments_are_maximal_with_prefixes() {
    let trajs = vec![
        Traj { path: vec![1] },
        Traj { path: vec![1, 2] },
        Traj { path: vec![1, 3, 4] },
    ];
    let tree = branch_vector(&trajs);
    for (id, el) in tree.iter() {
        let mut boundary = el.path.len();
        let mut cur = el;
        while let Some(p) = cur.parent {
            cur = tree.get(&p).expect("parent exists");
            boundary += cur.path.len();
        }
        let groups = partition_at(&trajs, &el.trajs, boundary);
        assert_ne!(groups.len(), 1, "segment of node {} could be extended", id);
    }
}
