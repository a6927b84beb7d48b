//! Which actors a barrier is collected from and sent to, node by node.

use crate::cluster::WorkerNode;
use std::collections::HashMap;
use vstd::prelude::*;

verus! {

broadcast use vstd::std_specs::hash::group_hash_axioms;

pub type NodeId = u32;

pub type ActorId = u32;

/// The actors of every node, and those among them that are sources.
#[derive(Debug, PartialEq, Eq)]
pub struct ActorInfos {
    /// node_id => actors
    pub actor_maps: HashMap<u32, Vec<u32>>,
    /// node_id => source actors
    pub source_actor_maps: HashMap<u32, Vec<u32>>,
}

/// What a barrier needs to know of the actors: the nodes by id, the actors
/// to collect from and the actors to send to.
#[derive(Debug, PartialEq, Eq)]
pub struct BarrierActorInfo {
    /// node_id => node
    pub node_map: HashMap<u32, WorkerNode>,
    /// node_id => actors
    pub actor_map: HashMap<u32, Vec<u32>>,
    /// node_id => source actors
    pub actor_map_to_send: HashMap<u32, Vec<u32>>,
}

/// The nodes by their id; of two nodes with one id the later one stays.
pub open spec fn nodes_by_id(nodes: Seq<WorkerNode>) -> Map<u32, WorkerNode>
    decreases nodes.len(),
{
    if nodes.len() == 0 {
        Map::empty()
    } else {
        nodes_by_id(nodes.drop_last()).insert(nodes.last().id, nodes.last())
    }
}

impl BarrierActorInfo {
    /// The info for the nodes `all_nodes` and the actors `actor_infos`.
    pub fn resolve(all_nodes: &[WorkerNode], actor_infos: ActorInfos) -> (info: Self)
        ensures
            info.node_map@ == nodes_by_id(all_nodes@),
            info.actor_map == actor_infos.actor_maps,
            info.actor_map_to_send == actor_infos.source_actor_maps,
    {
        let mut node_map: HashMap<u32, WorkerNode> = HashMap::new();
        let mut i: usize = 0;
        while i < all_nodes.len()
            invariant
                i <= all_nodes.len(),
                node_map@ == nodes_by_id(all_nodes@.take(i as int)),
            decreases all_nodes.len() - i,
        {
            proof {
                crate::seqs::lemma_take_step(all_nodes@, i as int);
            }
            node_map.insert(all_nodes[i].id, all_nodes[i]);
            i = i + 1;
        }
        proof {
            crate::seqs::lemma_take_all(all_nodes@);
        }
        Self {
            node_map,
            actor_map: actor_infos.actor_maps,
            actor_map_to_send: actor_infos.source_actor_maps,
        }
    }

    /// The actors of node `node_id` from which a barrier is collected; none
    /// where the node has no actors on record.
    pub fn actor_ids_to_collect(&self, node_id: &u32) -> (ids: Option<Vec<u32>>)
        ensures
            match ids {
                Some(v) => self.actor_map@.contains_key(*node_id) && v@
                    == self.actor_map@[*node_id]@,
                None => !self.actor_map@.contains_key(*node_id),
            },
    {
        match self.actor_map.get(node_id) {
            Some(actor_ids) => Some(crate::seqs::copy_slice(actor_ids.as_slice())),
            None => None,
        }
    }

    /// The actors of node `node_id` to which a barrier is sent; none where
    /// the node has no source actors on record.
    pub fn actor_ids_to_send(&self, node_id: &u32) -> (ids: Option<Vec<u32>>)
        ensures
            match ids {
                Some(v) => self.actor_map_to_send@.contains_key(*node_id) && v@
                    == self.actor_map_to_send@[*node_id]@,
                None => !self.actor_map_to_send@.contains_key(*node_id),
            },
    {
        match self.actor_map_to_send.get(node_id) {
            Some(actor_ids) => Some(crate::seqs::copy_slice(actor_ids.as_slice())),
            None => None,
        }
    }
}

} // verus!
