//! Hardware topologies and what is planned over them.

use sptorch::distributed::hardware_parallel::{
    plan_ring_allreduce, plan_tank9k_matmul_validation, ParallelCollective,
};
use sptorch::hal::device::DeviceId;
use sptorch::hal::topology::{
    HardwareLink, HardwareNode, HardwareTopology, LinkRole, TransportKind,
};

#[test]
fn detects_missing_links() {
    let mut topo = HardwareTopology::new("broken");
    topo.add_node(HardwareNode::new(DeviceId::tank9k(0), "board-a", "tank9k", 4096));
    topo.add_node(HardwareNode::new(DeviceId::tank9k(1), "board-b", "tank9k", 4096));
    let validation = topo.validate_connectivity();
    assert!(!validation.connected);
    assert!(!validation.diagnostics.is_empty());
    assert!(topo.allreduce_cost_estimate(1024).is_none());
}

fn tank9k_ring(n: usize) -> HardwareTopology {
    let mut topo = HardwareTopology::new("tank9k-validation-ring");
    for i in 0..n {
        topo.add_node(HardwareNode::new(
            DeviceId::tank9k(i),
            &format!("tank9k-{i}"),
            "tank9k",
            4096,
        ));
    }
    for i in 0..n {
        topo.add_link(HardwareLink::new(
            DeviceId::tank9k(i),
            DeviceId::tank9k((i + 1) % n),
            TransportKind::Serial,
            LinkRole::Data,
            32,
            150,
        ));
    }
    topo
}

#[test]
fn builds_multi_board_tank9k_validation_plan() {
    let topo = tank9k_ring(4);
    let plan = plan_tank9k_matmul_validation(&topo, 32, 32, 32, 32 * 32 * 4);

    assert!(plan.ready(), "{}", plan.summary());
    assert_eq!(plan.world.len(), 4);
    assert_eq!(
        plan.collectives,
        vec![ParallelCollective::Matmul2DShard, ParallelCollective::RingAllReduce]
    );
    assert_eq!(plan.matmul.as_ref().unwrap().shards.len(), 4);
    assert_eq!(plan.allreduce.as_ref().unwrap().ring_hops, 4);
}

#[test]
fn broken_topology_produces_not_ready_plan() {
    let mut topo = HardwareTopology::new("broken-tank9k");
    topo.add_node(HardwareNode::new(DeviceId::tank9k(0), "a", "tank9k", 4096));
    topo.add_node(HardwareNode::new(DeviceId::tank9k(1), "b", "tank9k", 4096));

    let plan = plan_ring_allreduce(&topo, 4096);
    assert!(!plan.ready());
    assert!(plan.allreduce.is_none());
    assert!(!plan.validation.diagnostics.is_empty());
}

#[test]
fn reports_name_what_is_missing() {
    let mut topo = HardwareTopology::new("one-way");
    let a = DeviceId::tank9k(0);
    let b = DeviceId::cuda(1);
    topo.add_node(HardwareNode::new(a.clone(), "board-a", "tank9k", 4096));
    let link = HardwareLink::new(
        a.clone(),
        b.clone(),
        TransportKind::Pcie,
        LinkRole::Control,
        7,
        9,
    );
    assert_eq!(link.hops, 1);
    topo.add_link(link);

    let validation = topo.validate_connectivity();
    assert_eq!(validation.total_nodes, 1);
    assert!(validation.diagnostics.iter().any(|line| line.contains("cuda:1")));
    assert!(topo.node(&a).is_some());
    assert!(topo.node(&b).is_none());
    assert_eq!(topo.neighbors(&a).len(), 1);
    assert_eq!(topo.neighbors(&b).len(), 0);
}

#[test]
fn shards_cover_every_row_and_column_once() {
    let topo = tank9k_ring(3);
    let plan = topo.matmul_partition_plan(32, 16, 10);
    let rows: Vec<(usize, usize)> =
        plan.shards.iter().map(|s| (s.row_range.start, s.row_range.end)).collect();
    let cols: Vec<(usize, usize)> =
        plan.shards.iter().map(|s| (s.col_range.start, s.col_range.end)).collect();
    assert_eq!(rows[0].0, 0);
    assert_eq!(rows[0].1, rows[1].0);
    assert_eq!(rows[1].1, rows[2].0);
    assert_eq!(rows[2].1, 32);
    assert_eq!(cols[0].0, 0);
    assert_eq!(cols[2].1, 10);
    assert!(plan.shards.iter().all(|s| s.k == 16));
}

#[test]
fn the_ring_follows_the_order_of_its_devices() {
    let mut topo = HardwareTopology::new("mixed");
    for id in [DeviceId::tank9k(2), DeviceId::cpu(), DeviceId::tank9k(0)] {
        topo.add_node(HardwareNode::new(id, "board", "class", 1));
    }
    assert_eq!(
        topo.ring_plan(),
        vec![DeviceId::cpu(), DeviceId::tank9k(0), DeviceId::tank9k(2)]
    );
}

#[test]
fn the_estimate_takes_the_slowest_link() {
    let mut topo = HardwareTopology::new("uneven");
    let ids: Vec<DeviceId> = (0..3).map(DeviceId::tank9k).collect();
    for id in &ids {
        topo.add_node(HardwareNode::new(id.clone(), "board", "tank9k", 1));
    }
    for i in 0..3usize {
        topo.add_link(HardwareLink::new(
            ids[i].clone(),
            ids[(i + 1) % 3].clone(),
            TransportKind::Serial,
            LinkRole::Data,
            10 + i as u32,
            100,
        ));
    }
    let estimate = topo.allreduce_cost_estimate(300).unwrap();
    assert_eq!(estimate.payload_bytes, 300);
    assert_eq!(estimate.min_bandwidth_mb_s, 10);
    assert_eq!(estimate.latency_us, 300);
}
