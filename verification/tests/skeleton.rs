use rocom_pets::skeleton::{root_joint, topological_order};

fn check(parents: &[i32]) -> Vec<usize> {
    let order = topological_order(parents);
    // a permutation of the nodes ...
    let mut seen = order.clone();
    seen.sort();
    assert_eq!(seen, (0..parents.len()).collect::<Vec<_>>());
    // ... with every parent before its children
    for (pos, &node) in order.iter().enumerate() {
        if parents[node] >= 0 {
            let parent_pos = order.iter().position(|&n| n == parents[node] as usize).unwrap();
            assert!(parent_pos < pos, "node {node} comes before its parent");
        }
    }
    order
}

#[test]
fn parents_come_before_children() {
    assert_eq!(check(&[-1, 0, 1, 1]), vec![0, 1, 2, 3]);
    // children listed before their parents
    let order = check(&[2, 2, -1, 0]);
    assert_eq!(order[0], 2);
    check(&[-1, -1, 0, 1, 2, 3]);
    assert!(topological_order(&[]).is_empty());
}

#[test]
fn nodes_on_a_cycle_come_last_in_index_order() {
    assert_eq!(topological_order(&[2, -1, 1]), vec![1, 2, 0]);
    assert_eq!(topological_order(&[1, 0]), vec![0, 1]);
    assert_eq!(topological_order(&[-1, 2, 1, 0]), vec![0, 3, 1, 2]);
}

#[test]
fn the_root_joint_is_the_first_whose_parent_is_no_joint() {
    // node 0 is the scene root, 1 the armature, 2..5 the bones
    let parents = vec![-1, 0, 1, 2, 2];
    assert_eq!(root_joint(&parents, &vec![2, 3, 4]), 2);
    assert_eq!(root_joint(&parents, &vec![3, 2, 4]), 2);
    assert_eq!(root_joint(&parents, &vec![0, 1]), 0);
    // every joint's parent is a joint (a cycle): the first joint
    assert_eq!(root_joint(&vec![1, 0], &vec![1, 0]), 1);
    assert_eq!(root_joint(&parents, &vec![]), 0);
}
