use birb_task::run::dependency_resolution::topological_sort::topological_sort;
use birb_task::run::dependency_resolution::TopologicalSortError;
use linked_hash_map::LinkedHashMap;
use linked_hash_set::LinkedHashSet;

fn edges(list: Vec<(usize, Vec<usize>)>) -> LinkedHashMap<usize, LinkedHashSet<usize>> {
    let mut map = LinkedHashMap::new();
    for (node, successors) in list {
        let mut set = LinkedHashSet::new();
        for s in successors {
            set.insert(s);
        }
        map.insert(node, set);
    }
    map
}

fn is_cycle(graph: &LinkedHashMap<usize, LinkedHashSet<usize>>, path: &[usize]) -> bool {
    path.len() >= 2
        && path[0] == path[path.len() - 1]
        && path.windows(2).all(|w| graph.get(&w[0]).map_or(false, |s| s.contains(&w[1])))
}

#[test]
fn empty_graph_has_the_empty_order() {
    assert_eq!(topological_sort(&edges(vec![])).unwrap(), Vec::<usize>::new());
}

#[test]
fn linear_chain_runs_leaves_first() {
    // c=2 depends on b=1, which depends on a=0
    let graph = edges(vec![(2, vec![1]), (1, vec![0]), (0, vec![])]);
    assert_eq!(topological_sort(&graph).unwrap(), vec![0, 1, 2]);
}

#[test]
fn single_node() {
    assert_eq!(topological_sort(&edges(vec![(0, vec![])])).unwrap(), vec![0]);
}

#[test]
fn diamond_keeps_declaration_order() {
    // a=0 depends on b=1 and c=2; both depend on d=3
    let graph = edges(vec![(0, vec![1, 2]), (1, vec![3]), (2, vec![3]), (3, vec![])]);
    assert_eq!(topological_sort(&graph).unwrap(), vec![3, 1, 2, 0]);
}

#[test]
fn successors_that_are_not_expanded_are_ordered_too() {
    let graph = edges(vec![(5, vec![9, 7])]);
    assert_eq!(topological_sort(&graph).unwrap(), vec![9, 7, 5]);
}

#[test]
fn roots_are_entered_in_the_order_of_the_keys() {
    let graph = edges(vec![(4, vec![]), (2, vec![]), (3, vec![2])]);
    assert_eq!(topological_sort(&graph).unwrap(), vec![4, 2, 3]);
}

#[test]
fn every_edge_points_backwards_in_the_order() {
    let graph = edges(vec![
        (0, vec![3, 1]),
        (1, vec![2, 4]),
        (2, vec![4]),
        (3, vec![2]),
        (4, vec![]),
        (5, vec![0, 4]),
    ]);
    let order = topological_sort(&graph).unwrap();
    assert_eq!(order.len(), 6);
    for (node, successors) in graph.iter() {
        let at = order.iter().position(|n| n == node).unwrap();
        for s in successors.iter() {
            let before = order.iter().position(|n| n == s).unwrap();
            assert!(before < at);
        }
    }
}

#[test]
fn two_node_cycle_is_reported() {
    let graph = edges(vec![(0, vec![1]), (1, vec![0])]);
    match topological_sort(&graph) {
        Err(TopologicalSortError::CycleDetected(path)) => {
            assert_eq!(path, vec![0, 1, 0]);
            assert!(is_cycle(&graph, &path));
        }
        other => panic!("unexpected {:?}", other),
    }
}

#[test]
fn self_loop_is_a_cycle() {
    let graph = edges(vec![(3, vec![3])]);
    match topological_sort(&graph) {
        Err(TopologicalSortError::CycleDetected(path)) => assert_eq!(path, vec![3, 3]),
        other => panic!("unexpected {:?}", other),
    }
}

#[test]
fn cycle_behind_a_tail_is_reported_without_the_tail() {
    // 0 -> 1 -> 2 -> 3 -> 1
    let graph = edges(vec![(0, vec![1]), (1, vec![2]), (2, vec![3]), (3, vec![1])]);
    match topological_sort(&graph) {
        Err(TopologicalSortError::CycleDetected(path)) => {
            assert_eq!(path, vec![1, 2, 3, 1]);
            assert!(is_cycle(&graph, &path));
        }
        other => panic!("unexpected {:?}", other),
    }
}

#[test]
fn finished_branches_are_not_part_of_the_cycle() {
    // 0 -> 4 (finished early), 0 -> 1 -> 0
    let graph = edges(vec![(0, vec![4, 1]), (1, vec![4, 0]), (4, vec![])]);
    match topological_sort(&graph) {
        Err(TopologicalSortError::CycleDetected(path)) => {
            assert_eq!(path, vec![0, 1, 0]);
            assert!(is_cycle(&graph, &path));
        }
        other => panic!("unexpected {:?}", other),
    }
}
