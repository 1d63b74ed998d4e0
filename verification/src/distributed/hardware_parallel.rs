//! Plans for running a product or an all-reduce on a topology.

use crate::hal::device::DeviceId;
use crate::hal::topology;
use crate::hal::topology::{
    AllReduceEstimate, HardwareTopology, MatmulPartitionPlan, TopologyValidation,
};
use crate::text;
use crate::text::{push_bool, push_decimal, push_text};
use vstd::prelude::*;

verus! {

/// A step that a plan makes use of.
#[derive(Debug, Clone, Copy, PartialEq, Eq, Structural)]
pub enum ParallelCollective {
    RingAllReduce,
    Matmul2DShard,
}

/// What a run on a topology would look like.
#[derive(Debug, Clone, PartialEq, Eq)]
pub struct HardwareParallelPlan {
    pub topology_name: String,
    pub world: Vec<DeviceId>,
    pub validation: TopologyValidation,
    pub collectives: Vec<ParallelCollective>,
    pub allreduce: Option<AllReduceEstimate>,
    pub matmul: Option<MatmulPartitionPlan>,
}

impl HardwareParallelPlan {
    /// Whether the plan is about the topology: its name, its ring, what its check found, and
    /// what an all-reduce over it costs.
    pub open spec fn plans(self, t: HardwareTopology, payload_bytes: usize) -> bool {
        &&& self.topology_name@ == t.name@
        &&& topology::keys(self.world@) == t.ring()
        &&& self.validation.connected == t.connected()
        &&& self.validation.connected_nodes == t.reached().len()
        &&& self.validation.total_nodes == t.devices().len()
        &&& topology::texts(self.validation.diagnostics@) == t.diagnostics()
        &&& self.allreduce is Some <==> t.nodes@.len() >= 2 && t.connected()
        &&& self.allreduce matches Some(c) ==> {
            &&& topology::keys(c.nodes@) == t.ring()
            &&& c.payload_bytes == payload_bytes
            &&& c.ring_hops == t.nodes@.len() as u32
            &&& c.min_bandwidth_mb_s == topology::least_bandwidth(t.ring_links(t.ring()))
            &&& c.latency_us == topology::total_latency(t.ring_links(t.ring()))
        }
    }

    /// Whether the plan can be run: there are boards, and all of them are in reach.
    pub fn ready(&self) -> (yes: bool)
        ensures
            yes == (self.validation.connected && self.validation.total_nodes > 0),
    {
        self.validation.connected && self.validation.total_nodes > 0
    }

    /// A short line about the plan.
    pub fn summary(&self) -> (line: String)
        ensures
            line@ == "topology="@ + self.topology_name@ + " world="@ + text::decimal(
                self.world@.len(),
            ) + " connected="@ + text::bool_text(self.validation.connected) + " collectives="@
                + text::decimal(self.collectives@.len()),
    {
        let mut line = "topology=".to_owned();
        push_text(&mut line, self.topology_name.as_str());
        push_text(&mut line, " world=");
        push_decimal(&mut line, self.world.len() as u64);
        push_text(&mut line, " connected=");
        push_bool(&mut line, self.validation.connected);
        push_text(&mut line, " collectives=");
        push_decimal(&mut line, self.collectives.len() as u64);
        line
    }
}

/// Plans an all-reduce over the ring of a topology.
pub fn plan_ring_allreduce(topology: &HardwareTopology, payload_bytes: usize) -> (plan:
    HardwareParallelPlan)
    requires
        topology.cost_fits(),
    ensures
        plan.plans(*topology, payload_bytes),
        plan.collectives@ == seq![ParallelCollective::RingAllReduce],
        plan.matmul is None,
{
    let collectives: Vec<ParallelCollective> = vec![ParallelCollective::RingAllReduce];
    assert(collectives@ =~= seq![ParallelCollective::RingAllReduce]);
    HardwareParallelPlan {
        topology_name: topology.name.clone(),
        world: topology.ring_plan(),
        validation: topology.validate_connectivity(),
        collectives,
        allreduce: topology.allreduce_cost_estimate(payload_bytes),
        matmul: None,
    }
}

/// Plans a product cut over the boards of a topology, followed by an all-reduce of the
/// gradients.
pub fn plan_tank9k_matmul_validation(
    topology: &HardwareTopology,
    m: usize,
    k: usize,
    n: usize,
    gradient_payload_bytes: usize,
) -> (plan: HardwareParallelPlan)
    requires
        topology.cost_fits(),
    ensures
        plan.plans(*topology, gradient_payload_bytes),
        plan.collectives@ == seq![
            ParallelCollective::Matmul2DShard,
            ParallelCollective::RingAllReduce,
        ],
        plan.matmul matches Some(p) && {
            &&& p.m == m && p.k == k && p.n == n
            &&& topology::shard_keys(p.shards@) == topology.ring()
            &&& p.shards@.len() == topology.nodes@.len()
            &&& forall|i: int|
                0 <= i < p.shards@.len() ==> {
                    let shard = #[trigger] p.shards@[i];
                    &&& shard.row_range == topology::share(m, p.shards@.len(), i)
                    &&& shard.col_range == topology::share(n, p.shards@.len(), i)
                    &&& shard.k == k
                }
        },
{
    let collectives: Vec<ParallelCollective> = vec![
        ParallelCollective::Matmul2DShard,
        ParallelCollective::RingAllReduce,
    ];
    assert(collectives@ =~= seq![
        ParallelCollective::Matmul2DShard,
        ParallelCollective::RingAllReduce,
    ]);
    HardwareParallelPlan {
        topology_name: topology.name.clone(),
        world: topology.ring_plan(),
        validation: topology.validate_connectivity(),
        collectives,
        allreduce: topology.allreduce_cost_estimate(gradient_payload_bytes),
        matmul: Some(topology.matmul_partition_plan(m, k, n)),
    }
}

} // verus!
