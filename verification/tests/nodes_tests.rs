use cache_gather::model::ClusterNode;
use cache_gather::nodes::prepare_query_nodes;

fn node(id: u64, uuid: &str, addr: &str, is_querier: bool) -> ClusterNode {
    ClusterNode {
        id,
        uuid: uuid.to_string(),
        grpc_addr: addr.to_string(),
        is_querier,
    }
}

#[test]
fn duplicate_addresses_keep_the_first_node() {
    let nodes = vec![
        node(2, "u2", "http://a:5081", true),
        node(1, "u1", "http://a:5081", true),
        node(3, "u3", "http://b:5081", true),
    ];
    let local = "u9".to_string();
    let out = prepare_query_nodes(nodes, &local);
    let ids: Vec<u64> = out.iter().map(|n| n.id).collect();
    assert_eq!(ids, vec![2, 3]);
}

#[test]
fn nodes_are_ordered_by_id() {
    let nodes = vec![
        node(30, "u30", "http://c:5081", true),
        node(10, "u10", "http://a:5081", true),
        node(20, "u20", "http://b:5081", true),
    ];
    let local = "u9".to_string();
    let out = prepare_query_nodes(nodes, &local);
    let ids: Vec<u64> = out.iter().map(|n| n.id).collect();
    assert_eq!(ids, vec![10, 20, 30]);
}

#[test]
fn local_node_and_non_queriers_are_excluded() {
    let nodes = vec![
        node(1, "u-local", "http://a:5081", true),
        node(2, "u2", "http://b:5081", false),
        node(3, "u3", "http://c:5081", true),
    ];
    let local = "u-local".to_string();
    let out = prepare_query_nodes(nodes, &local);
    let ids: Vec<u64> = out.iter().map(|n| n.id).collect();
    assert_eq!(ids, vec![3]);
}

#[test]
fn empty_directory_gives_empty_fan_out() {
    let local = "u9".to_string();
    let out = prepare_query_nodes(vec![], &local);
    assert!(out.is_empty());
}
