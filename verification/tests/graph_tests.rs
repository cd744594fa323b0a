use marline::graph::{Graph, Vertex};

#[test]
fn vertex_new_leads_itself() {
    let _v = Vertex::new(7);
    let g = Graph::new();
    drop(g);
}

#[test]
fn kraskal_joins_nearby_hashes() {
    let mut g = Graph::new();
    let pairs = vec![(0u32, vec![1u8]), (5u32, vec![2u8]), (100u32, vec![3u8])];
    let clusters = g.update_graph_based_on_the_kraskal_algorithm(pairs);
    assert_eq!(clusters.len(), 1);
    let mut members = clusters.get(&5).unwrap().clone();
    members.sort();
    assert_eq!(members, vec![0, 5, 100]);
    assert_eq!(g.find_set(100), 5);
    assert_eq!(g.find_set(0), 5);
}

#[test]
fn kraskal_single_vertex_is_its_own_cluster() {
    let mut g = Graph::new();
    let clusters = g.update_graph_based_on_the_kraskal_algorithm(vec![(0u32, Vec::new())]);
    assert_eq!(clusters.len(), 1);
    assert_eq!(clusters.get(&0), Some(&vec![0]));
    assert_eq!(g.find_set(0), 0);
}

#[test]
fn cluster_leader_minimises_total_distance() {
    let cluster = [10u32, 20, 30];
    let dist = vec![vec![0u32, 5, 9], vec![5, 0, 1], vec![9, 1, 0]];
    assert_eq!(marline::graph::find_parent_hash_in_cluster(&cluster, &dist), 20);
}

#[test]
fn cluster_leader_first_on_ties_and_zero_when_empty() {
    let cluster = [7u32, 8];
    let dist = vec![vec![0u32, 3], vec![3, 0]];
    assert_eq!(marline::graph::find_parent_hash_in_cluster(&cluster, &dist), 7);
    assert_eq!(marline::graph::find_parent_hash_in_cluster(&[], &Vec::new()), 0);
}

#[test]
fn set_leaders_moves_clusters_under_the_chosen_member() {
    let mut g = Graph::new();
    let pairs = vec![(0u32, vec![1u8]), (5u32, vec![2u8]), (100u32, vec![3u8])];
    let clusters = g.update_graph_based_on_the_kraskal_algorithm(pairs);
    let mut members = clusters.get(&5).unwrap().clone();
    members.sort();
    // The member 100 has the least total distance to the others.
    let dist = vec![vec![0u32, 9, 1], vec![9, 0, 1], vec![1, 1, 0]];
    g.set_leaders_in_clusters(&vec![(5u32, members, dist)]);
    assert_eq!(g.find_set(0), 100);
    assert_eq!(g.find_set(5), 100);
    assert_eq!(g.find_set(100), 100);
}
