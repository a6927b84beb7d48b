use hummock::barrier::{ActorInfos, BarrierActorInfo};
use hummock::cluster::{ClusterManager, WorkerNode, WorkerType};
use std::collections::HashMap;

fn node(id: u32, worker_type: WorkerType) -> WorkerNode {
    WorkerNode { id, worker_type }
}

#[test]
fn test_resolve() {
    let nodes = vec![
        node(1, WorkerType::ComputeNode),
        node(2, WorkerType::ComputeNode),
        node(1, WorkerType::Compactor),
    ];
    let mut actor_maps = HashMap::new();
    actor_maps.insert(1, vec![10, 11, 12]);
    actor_maps.insert(2, vec![20]);
    let mut source_actor_maps = HashMap::new();
    source_actor_maps.insert(1, vec![10]);
    let info = BarrierActorInfo::resolve(&nodes, ActorInfos { actor_maps, source_actor_maps });
    assert_eq!(info.node_map.len(), 2);
    assert_eq!(info.node_map[&1], node(1, WorkerType::Compactor));
    assert_eq!(info.node_map[&2], node(2, WorkerType::ComputeNode));
    assert_eq!(info.actor_ids_to_collect(&1), Some(vec![10, 11, 12]));
    assert_eq!(info.actor_ids_to_collect(&2), Some(vec![20]));
    assert_eq!(info.actor_ids_to_collect(&3), None);
    assert_eq!(info.actor_ids_to_send(&1), Some(vec![10]));
    assert_eq!(info.actor_ids_to_send(&2), None);
}

#[test]
fn test_cluster_manager() {
    let mut cluster = ClusterManager::new(vec![node(1, WorkerType::ComputeNode)]);
    assert_eq!(cluster.get_worker_by_id(1), Some(node(1, WorkerType::ComputeNode)));
    assert_eq!(cluster.get_worker_by_id(2), None);
    cluster.add_worker_node(node(2, WorkerType::Frontend));
    assert_eq!(cluster.get_worker_by_id(2), Some(node(2, WorkerType::Frontend)));
}
