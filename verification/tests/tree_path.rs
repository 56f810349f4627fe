use robotics_foundations::path_planning::rrt::{extract_path, has_path_to_root};

#[test]
fn extract_path_from_root_to_goal() {
    let parents = vec![None, Some(0), Some(1), Some(0), Some(3), Some(2)];
    assert_eq!(extract_path(&parents, 5), vec![0, 1, 2, 5]);
    assert_eq!(extract_path(&parents, 4), vec![0, 3, 4]);
    assert_eq!(extract_path(&parents, 0), vec![0]);
}

#[test]
fn extract_path_stops_at_branch_root() {
    let parents = vec![None, Some(0), None, Some(2)];
    assert_eq!(extract_path(&parents, 3), vec![2, 3]);
}

#[test]
fn extract_path_follows_forward_links() {
    let parents = vec![None, Some(2), Some(0)];
    assert_eq!(extract_path(&parents, 1), vec![0, 2, 1]);
}

#[test]
fn has_path_to_root_detects_cycles_and_bad_indices() {
    assert!(has_path_to_root(&vec![None, Some(0), Some(0), Some(2)], 3));
    assert!(has_path_to_root(&vec![None, Some(2), Some(0)], 1));
    assert!(has_path_to_root(&vec![None], 0));
    assert!(!has_path_to_root(&vec![Some(0)], 0));
    assert!(!has_path_to_root(&vec![None, Some(2), Some(1)], 1));
    assert!(!has_path_to_root(&vec![None, Some(5)], 1));
    assert!(!has_path_to_root(&vec![None], 3));
}

#[test]
fn has_path_to_root_on_a_long_chain() {
    let mut parents = vec![None];
    for i in 0..50 {
        parents.push(Some(i));
    }
    assert!(has_path_to_root(&parents, 50));
    assert_eq!(extract_path(&parents, 50), (0..=50).collect::<Vec<usize>>());
}
