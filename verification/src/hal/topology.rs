//! Boards, the links between them, and plans over them.

use super::device;
use super::device::{DeviceId, DeviceKey};
use crate::text;
use crate::text::{push_decimal, push_text};
use std::ops::Range;
use crate::tensor::number::Number;
use crate::tensor::reals;
use crate::tensor::reals::Reading;
use vstd::prelude::*;
use vstd::set_lib::{lemma_int_range, lemma_len_subset, lemma_subset_equality};

verus! {

/// How two devices are wired.
#[derive(Debug, Clone, Copy, PartialEq, Eq, Hash, Structural)]
pub enum TransportKind {
    Serial,
    Pcie,
    Ethernet,
    SharedMemory,
    Mock,
}

/// The text of a transport.
pub open spec fn transport_text(kind: TransportKind) -> Seq<char> {
    match kind {
        TransportKind::Serial => "serial"@,
        TransportKind::Pcie => "pcie"@,
        TransportKind::Ethernet => "ethernet"@,
        TransportKind::SharedMemory => "shared-memory"@,
        TransportKind::Mock => "mock"@,
    }
}

impl TransportKind {
    /// The text of this transport.
    pub fn name(self) -> (shown: &'static str)
        ensures
            shown@ == transport_text(self),
    {
        match self {
            TransportKind::Serial => "serial",
            TransportKind::Pcie => "pcie",
            TransportKind::Ethernet => "ethernet",
            TransportKind::SharedMemory => "shared-memory",
            TransportKind::Mock => "mock",
        }
    }
}

/// What a link is for.
#[derive(Debug, Clone, Copy, PartialEq, Eq, Hash, Structural)]
pub enum LinkRole {
    Control,
    Data,
    Telemetry,
    Synchronization,
}

/// The text of a role.
pub open spec fn role_text(role: LinkRole) -> Seq<char> {
    match role {
        LinkRole::Control => "control"@,
        LinkRole::Data => "data"@,
        LinkRole::Telemetry => "telemetry"@,
        LinkRole::Synchronization => "sync"@,
    }
}

impl LinkRole {
    /// The text of this role.
    pub fn name(self) -> (shown: &'static str)
        ensures
            shown@ == role_text(self),
    {
        match self {
            LinkRole::Control => "control",
            LinkRole::Data => "data",
            LinkRole::Telemetry => "telemetry",
            LinkRole::Synchronization => "sync",
        }
    }
}

/// A board.
#[derive(Debug, Clone, PartialEq, Eq)]
pub struct HardwareNode {
    pub id: DeviceId,
    pub label: String,
    pub board_class: String,
    pub memory_mb: u32,
    pub queue_depth_hint: u32,
    pub online: bool,
}

impl HardwareNode {
    /// A board that is online and has no queue hint.
    pub fn new(id: DeviceId, label: &str, board_class: &str, memory_mb: u32) -> (node: Self)
        ensures
            node.id == id,
            node.label@ == label@,
            node.board_class@ == board_class@,
            node.memory_mb == memory_mb,
            node.queue_depth_hint == 0,
            node.online,
    {
        HardwareNode {
            id,
            label: label.to_owned(),
            board_class: board_class.to_owned(),
            memory_mb,
            queue_depth_hint: 0,
            online: true,
        }
    }
}

/// A link from one board to another.
#[derive(Debug, Clone, PartialEq, Eq)]
pub struct HardwareLink {
    pub from: DeviceId,
    pub to: DeviceId,
    pub transport: TransportKind,
    pub role: LinkRole,
    pub hops: u32,
    pub bandwidth_mb_s: u32,
    pub latency_us: u32,
    pub full_duplex: bool,
}

impl HardwareLink {
    /// A full duplex link of one hop.
    pub fn new(
        from: DeviceId,
        to: DeviceId,
        transport: TransportKind,
        role: LinkRole,
        bandwidth_mb_s: u32,
        latency_us: u32,
    ) -> (link: Self)
        ensures
            link == (HardwareLink {
                from,
                to,
                transport,
                role,
                hops: 1,
                bandwidth_mb_s,
                latency_us,
                full_duplex: true,
            }),
    {
        HardwareLink {
            from,
            to,
            transport,
            role,
            hops: 1,
            bandwidth_mb_s,
            latency_us,
            full_duplex: true,
        }
    }
}

/// Boards and the links between them.
#[derive(Debug, Clone, PartialEq, Eq)]
pub struct HardwareTopology {
    pub name: String,
    pub nodes: Vec<HardwareNode>,
    pub links: Vec<HardwareLink>,
}

/// What a check of a topology found.
#[derive(Debug, Clone, PartialEq, Eq)]
pub struct TopologyValidation {
    pub connected: bool,
    pub connected_nodes: usize,
    pub total_nodes: usize,
    pub diagnostics: Vec<String>,
}

/// The devices of some boards, in order.
pub open spec fn node_keys(nodes: Seq<HardwareNode>) -> Seq<DeviceKey> {
    nodes.map_values(|n: HardwareNode| n.id@)
}

/// The devices that some identifiers name, in order.
pub open spec fn keys(ids: Seq<DeviceId>) -> Seq<DeviceKey> {
    ids.map_values(|id: DeviceId| id@)
}

/// What some strings say.
pub open spec fn texts(strings: Seq<String>) -> Seq<Seq<char>> {
    strings.map_values(|s: String| s@)
}

impl HardwareTopology {
    /// Whether the topology has a board for the device.
    pub open spec fn knows(self, key: DeviceKey) -> bool {
        node_keys(self.nodes@).contains(key)
    }

    /// Whether link `i` leads from `a` to `b`.
    pub open spec fn leads(self, i: int, a: DeviceKey, b: DeviceKey) -> bool {
        0 <= i < self.links@.len() && self.links@[i].from@ == a && self.links@[i].to@ == b
    }

    /// Whether a link leads from `a` to `b`, both of them boards of the topology.
    pub open spec fn edge(self, a: DeviceKey, b: DeviceKey) -> bool {
        self.knows(a) && self.knows(b) && exists|i: int| self.leads(i, a, b)
    }

    /// Whether `p` follows links from the first board on.
    pub open spec fn is_path(self, p: Seq<DeviceKey>) -> bool {
        &&& p.len() > 0
        &&& p[0] == self.nodes@[0].id@
        &&& forall|i: int| 0 <= i < p.len() - 1 ==> self.edge(#[trigger] p[i], p[i + 1])
    }

    /// Whether links lead from the first board to the device.
    pub open spec fn reaches(self, key: DeviceKey) -> bool {
        exists|p: Seq<DeviceKey>| #[trigger] self.is_path(p) && p.last() == key
    }

    /// The devices of the topology.
    pub open spec fn devices(self) -> Set<DeviceKey> {
        node_keys(self.nodes@).to_set()
    }

    /// The devices that links lead to from the first board; none in an empty topology.
    pub open spec fn reached(self) -> Set<DeviceKey> {
        if self.nodes@.len() == 0 {
            Set::empty()
        } else {
            Set::new(|key: DeviceKey| self.reaches(key))
        }
    }

    /// What there is to say of boards that are offline.
    pub open spec fn offline_lines(nodes: Seq<HardwareNode>) -> Seq<Seq<char>>
        decreases nodes.len(),
    {
        if nodes.len() == 0 {
            seq![]
        } else if nodes.last().online {
            Self::offline_lines(nodes.drop_last())
        } else {
            Self::offline_lines(nodes.drop_last()).push(
                "node "@ + device::device_text(nodes.last().id@) + " is offline"@,
            )
        }
    }

    /// What there is to say of links with an end that is no board.
    pub open spec fn link_lines(self, links: Seq<HardwareLink>) -> Seq<Seq<char>>
        decreases links.len(),
    {
        if links.len() == 0 {
            seq![]
        } else {
            let before = self.link_lines(links.drop_last());
            let link = links.last();
            if !self.knows(link.from@) {
                before.push(
                    "link from "@ + device::device_text(link.from@) + " points to unknown node"@,
                )
            } else if !self.knows(link.to@) {
                before.push(
                    "link to "@ + device::device_text(link.to@) + " points to unknown node"@,
                )
            } else {
                before
            }
        }
    }

    /// Whether there are boards, and links lead to all of them from the first.
    pub open spec fn connected(self) -> bool {
        self.nodes@.len() > 0 && self.reached().len() == self.devices().len()
    }

    /// All that a check has to say.
    pub open spec fn diagnostics(self) -> Seq<Seq<char>> {
        let lines = Self::offline_lines(self.nodes@) + self.link_lines(self.links@);
        if self.nodes@.len() == 0 {
            lines.push("topology has no nodes"@)
        } else if !self.connected() {
            lines.push(
                "topology is not fully connected: "@ + text::decimal(self.reached().len()) + " / "@
                    + text::decimal(self.devices().len()) + " nodes reachable"@,
            )
        } else {
            lines
        }
    }

    /// A topology without boards.
    pub fn new(name: &str) -> (topology: Self)
        ensures
            topology.name@ == name@,
            topology.nodes@ == Seq::<HardwareNode>::empty(),
            topology.links@ == Seq::<HardwareLink>::empty(),
    {
        HardwareTopology { name: name.to_owned(), nodes: Vec::new(), links: Vec::new() }
    }

    /// Adds a board.
    pub fn add_node(&mut self, node: HardwareNode)
        ensures
            final(self).name == old(self).name,
            final(self).nodes@ == old(self).nodes@.push(node),
            final(self).links == old(self).links,
    {
        self.nodes.push(node);
    }

    /// Adds a link.
    pub fn add_link(&mut self, link: HardwareLink)
        ensures
            final(self).name == old(self).name,
            final(self).nodes == old(self).nodes,
            final(self).links@ == old(self).links@.push(link),
    {
        self.links.push(link);
    }

    /// The first board with the given device.
    pub fn node(&self, id: &DeviceId) -> (found: Option<&HardwareNode>)
        ensures
            found is Some <==> self.knows(id@),
            found matches Some(node) ==> exists|i: int|
                {
                    &&& 0 <= i < self.nodes@.len()
                    &&& *node == #[trigger] self.nodes@[i]
                    &&& node.id@ == id@
                    &&& forall|j: int| 0 <= j < i ==> (#[trigger] self.nodes@[j]).id@ != id@
                },
    {
        let mut i: usize = 0;
        while i < self.nodes.len()
            invariant
                i <= self.nodes@.len(),
                forall|j: int| 0 <= j < i ==> (#[trigger] self.nodes@[j]).id@ != id@,
            decreases self.nodes@.len() - i,
        {
            if self.nodes[i].id.same(id) {
                assert(node_keys(self.nodes@)[i as int] == id@);
                return Some(&self.nodes[i]);
            }
            i = i + 1;
        }
        None
    }

    /// The links that start at the given device, in order.
    pub fn neighbors(&self, id: &DeviceId) -> (out: Vec<&HardwareLink>)
        ensures
            out@.map_values(|l: &HardwareLink| *l) == self.links@.filter(
                |l: HardwareLink| l.from@ == id@,
            ),
    {
        let mut out: Vec<&HardwareLink> = Vec::new();
        let mut i: usize = 0;
        let ghost starts = |l: HardwareLink| l.from@ == id@;
        let ghost plain = |l: &HardwareLink| *l;
        proof {
            reveal(Seq::filter);
            assert(out@.map_values(plain) =~= self.links@.take(0).filter(starts));
        }
        while i < self.links.len()
            invariant
                i <= self.links@.len(),
                starts == (|l: HardwareLink| l.from@ == id@),
                plain == (|l: &HardwareLink| *l),
                out@.map_values(plain) == self.links@.take(i as int).filter(starts),
            decreases self.links@.len() - i,
        {
            let ghost before = out@;
            let link: &HardwareLink = &self.links[i];
            proof {
                reveal(Seq::filter);
                assert(self.links@.take(i + 1).drop_last() =~= self.links@.take(i as int));
            }
            if link.from.same(id) {
                out.push(link);
                assert(out@.map_values(plain) =~= before.map_values(plain).push(*link));
            }
            i = i + 1;
        }
        assert(self.links@.take(i as int) =~= self.links@);
        out
    }

    /// How many boards are online.
    pub fn online_node_count(&self) -> (count: usize)
        ensures
            count == self.nodes@.filter(|n: HardwareNode| n.online).len(),
    {
        let mut count: usize = 0;
        let mut i: usize = 0;
        let ghost online = |n: HardwareNode| n.online;
        proof {
            reveal(Seq::filter);
            assert(self.nodes@.take(0).filter(online).len() == 0);
        }
        while i < self.nodes.len()
            invariant
                i <= self.nodes@.len(),
                online == (|n: HardwareNode| n.online),
                count == self.nodes@.take(i as int).filter(online).len() <= i,
            decreases self.nodes@.len() - i,
        {
            proof {
                reveal(Seq::filter);
                assert(self.nodes@.take(i + 1).drop_last() =~= self.nodes@.take(i as int));
            }
            if self.nodes[i].online {
                count = count + 1;
            }
            i = i + 1;
        }
        assert(self.nodes@.take(i as int) =~= self.nodes@);
        count
    }

    /// The devices of the topology, each once, in the order of their first boards.
    fn distinct_ids(&self) -> (ids: Vec<DeviceId>)
        ensures
            keys(ids@).no_duplicates(),
            keys(ids@).to_set() == self.devices(),
            self.nodes@.len() > 0 ==> ids@.len() > 0 && ids@[0]@ == self.nodes@[0].id@,
    {
        let mut ids: Vec<DeviceId> = Vec::new();
        let mut i: usize = 0;
        assert(keys(ids@).to_set() =~= node_keys(self.nodes@.take(0)).to_set());
        while i < self.nodes.len()
            invariant
                i <= self.nodes@.len(),
                keys(ids@).no_duplicates(),
                keys(ids@).to_set() == node_keys(self.nodes@.take(i as int)).to_set(),
                i == 0 ==> ids@.len() == 0,
                i > 0 ==> ids@.len() > 0 && ids@[0]@ == self.nodes@[0].id@,
            decreases self.nodes@.len() - i,
        {
            let ghost before = keys(ids@);
            let ghost key = self.nodes@[i as int].id@;
            let ghost seen = node_keys(self.nodes@.take(i as int));
            proof {
                assert(node_keys(self.nodes@.take(i + 1)) =~= seen.push(key));
                lemma_push_to_set(seen, key);
            }
            match index_of(&ids, &self.nodes[i].id) {
                Some(_) => {
                    assert(before.to_set().contains(key));
                    assert(seen.push(key).to_set() =~= seen.to_set());
                },
                None => {
                    ids.push(self.nodes[i].id.clone());
                    proof {
                        assert(keys(ids@) =~= before.push(key));
                        lemma_push_to_set(before, key);
                    }
                },
            }
            i = i + 1;
        }
        assert(self.nodes@.take(i as int) =~= self.nodes@);
        ids
    }

    /// Whether `order` lists, without repetition, devices that links lead to.
    spec fn explored(self, ids: Seq<DeviceId>, order: Seq<usize>) -> bool {
        &&& order.no_duplicates()
        &&& forall|j: int| 0 <= j < order.len() ==> (#[trigger] order[j]) < ids.len()
        &&& forall|j: int|
            0 <= j < order.len() ==> self.reaches(ids[#[trigger] order[j] as int]@)
    }

    /// Whether the device stands in `order`.
    spec fn listed(ids: Seq<DeviceId>, order: Seq<usize>, key: DeviceKey) -> bool {
        exists|j: int| 0 <= j < order.len() && ids[#[trigger] order[j] as int]@ == key
    }

    /// Whether every device that link `i` leads to from the device at `at` is listed.
    spec fn followed(self, ids: Seq<DeviceId>, order: Seq<usize>, at: int, i: int) -> bool {
        self.links@[i].from@ == ids[order[at] as int]@ && self.knows(self.links@[i].to@)
            ==> Self::listed(ids, order, self.links@[i].to@)
    }

    proof fn lemma_first_is_reached(self)
        requires
            self.nodes@.len() > 0,
        ensures
            self.reaches(self.nodes@[0].id@),
    {
        let p = seq![self.nodes@[0].id@];
        assert(self.is_path(p));
        assert(p.last() == self.nodes@[0].id@);
    }

    proof fn lemma_step_is_reached(self, a: DeviceKey, b: DeviceKey)
        requires
            self.reaches(a),
            self.edge(a, b),
        ensures
            self.reaches(b),
    {
        let p = choose|p: Seq<DeviceKey>| #[trigger] self.is_path(p) && p.last() == a;
        let q = p.push(b);
        assert forall|i: int| 0 <= i < q.len() - 1 implies self.edge(#[trigger] q[i], q[i + 1]) by {
            if i < p.len() - 1 {
                assert(self.edge(p[i], p[i + 1]));
            }
        }
        assert(self.is_path(q));
        assert(q.last() == b);
    }

    /// Everything on a path is listed once the list is closed under links.
    proof fn lemma_paths_are_listed(self, ids: Seq<DeviceId>, order: Seq<usize>, p: Seq<DeviceKey>)
        requires
            self.nodes@.len() > 0,
            Self::listed(ids, order, self.nodes@[0].id@),
            forall|at: int, i: int|
                0 <= at < order.len() && 0 <= i < self.links@.len() ==> #[trigger] self.followed(
                    ids,
                    order,
                    at,
                    i,
                ),
            self.is_path(p),
        ensures
            Self::listed(ids, order, p.last()),
        decreases p.len(),
    {
        if p.len() > 1 {
            let q = p.drop_last();
            assert forall|i: int| 0 <= i < q.len() - 1 implies self.edge(
                #[trigger] q[i],
                q[i + 1],
            ) by {
                assert(self.edge(p[i], p[i + 1]));
            }
            assert(self.is_path(q));
            self.lemma_paths_are_listed(ids, order, q);
            let a = p[p.len() - 2];
            let b = p.last();
            assert(self.edge(a, p[p.len() - 2 + 1]));
            let at = choose|j: int| 0 <= j < order.len() && ids[#[trigger] order[j] as int]@ == a;
            let i = choose|i: int| self.leads(i, a, b);
            assert(self.followed(ids, order, at, i));
        }
    }

    /// The devices that links lead to from the first board, as positions in `ids`.
    fn explore(&self, ids: &Vec<DeviceId>) -> (order: Vec<usize>)
        requires
            self.nodes@.len() > 0,
            keys(ids@).no_duplicates(),
            keys(ids@).to_set() == self.devices(),
            ids@.len() > 0 && ids@[0]@ == self.nodes@[0].id@,
        ensures
            order@.len() == self.reached().len(),
            self.reached().finite(),
    {
        let mut order: Vec<usize> = Vec::new();
        order.push(0);
        let mut head: usize = 0;
        proof {
            self.lemma_first_is_reached();
            assert(ids@[order@[0] as int]@ == self.nodes@[0].id@);
            lemma_distinct_positions(order@, ids@.len());
        }
        while head < order.len()
            invariant
                head <= order@.len() <= ids@.len(),
                self.nodes@.len() > 0,
                keys(ids@).no_duplicates(),
                keys(ids@).to_set() == self.devices(),
                self.explored(ids@, order@),
                Self::listed(ids@, order@, self.nodes@[0].id@),
                forall|at: int, i: int|
                    0 <= at < head && 0 <= i < self.links@.len() ==> #[trigger] self.followed(
                        ids@,
                        order@,
                        at,
                        i,
                    ),
            decreases ids@.len() - head,
        {
            let current: usize = order[head];
            assert(order@[head as int] == current);
            let mut i: usize = 0;
            while i < self.links.len()
                invariant
                    i <= self.links@.len(),
                    head < order@.len() <= ids@.len(),
                    current < ids@.len(),
                    order@[head as int] == current,
                    self.nodes@.len() > 0,
                    keys(ids@).no_duplicates(),
                    keys(ids@).to_set() == self.devices(),
                    self.explored(ids@, order@),
                    Self::listed(ids@, order@, self.nodes@[0].id@),
                    forall|at: int, k: int|
                        0 <= at < head && 0 <= k < self.links@.len() ==> #[trigger] self.followed(
                            ids@,
                            order@,
                            at,
                            k,
                        ),
                    forall|k: int|
                        0 <= k < i ==> #[trigger] self.followed(ids@, order@, head as int, k),
                decreases self.links@.len() - i,
            {
                let ghost before = order@;
                let ghost a = ids@[current as int]@;
                if self.links[i].from.same(&ids[current]) {
                    match index_of(ids, &self.links[i].to) {
                        Some(target) => {
                            let ghost b = ids@[target as int]@;
                            if !contains(&order, target) {
                                order.push(target);
                                proof {
                                    assert(keys(ids@)[current as int] == a);
                                    assert(keys(ids@)[target as int] == b);
                                    assert(keys(ids@).to_set().contains(a));
                                    assert(keys(ids@).to_set().contains(b));
                                    assert(self.leads(i as int, a, b));
                                    assert(before[head as int] == current);
                                    self.lemma_step_is_reached(a, b);
                                    assert forall|j: int| 0 <= j < order@.len() implies (
                                    #[trigger] order@[j]) < ids@.len() && self.reaches(
                                        ids@[order@[j] as int]@,
                                    ) by {
                                        if j < before.len() {
                                            assert(order@[j] == before[j]);
                                        }
                                    }
                                    lemma_distinct_positions(order@, ids@.len());
                                    self.lemma_list_grows(ids@, before, target);
                                }
                            }
                            assert(Self::listed(ids@, order@, b)) by {
                                if before.contains(target) {
                                    let j = choose|j: int|
                                        0 <= j < before.len() && before[j] == target;
                                    assert(order@[j] == target);
                                } else {
                                    assert(order@[before.len() as int] == target);
                                }
                            }
                        },
                        None => {
                            assert(!self.knows(self.links@[i as int].to@)) by {
                                if self.knows(self.links@[i as int].to@) {
                                    assert(keys(ids@).to_set().contains(
                                        self.links@[i as int].to@,
                                    ));
                                }
                            }
                        },
                    }
                }
                assert(self.followed(ids@, order@, head as int, i as int));
                i = i + 1;
            }
            head = head + 1;
        }
        proof {
            let found = order@.map_values(|i: usize| ids@[i as int]@);
            assert(found.no_duplicates()) by {
                assert forall|x: int, y: int|
                    0 <= x < found.len() && 0 <= y < found.len() && x != y implies found[x]
                    != found[y] by {
                    assert(order@[x] != order@[y]);
                    assert(keys(ids@)[order@[x] as int] == found[x]);
                    assert(keys(ids@)[order@[y] as int] == found[y]);
                }
            }
            found.unique_seq_to_set();
            assert forall|key: DeviceKey| found.to_set().contains(key) == #[trigger] self.reaches(
                key,
            ) by {
                if self.reaches(key) {
                    let p = choose|p: Seq<DeviceKey>| #[trigger]
                        self.is_path(p) && p.last() == key;
                    self.lemma_paths_are_listed(ids@, order@, p);
                    let j = choose|j: int|
                        0 <= j < order@.len() && ids@[#[trigger] order@[j] as int]@ == key;
                    assert(found[j] == key);
                }
                if found.to_set().contains(key) {
                    let j = choose|j: int| 0 <= j < found.len() && found[j] == key;
                    assert(self.reaches(ids@[order@[j] as int]@));
                }
            }
            assert(found.to_set() =~= self.reached());
        }
        order
    }

    /// A longer list lists no less.
    proof fn lemma_list_grows(self, ids: Seq<DeviceId>, order: Seq<usize>, next: usize)
        ensures
            forall|key: DeviceKey|
                Self::listed(ids, order, key) ==> #[trigger] Self::listed(
                    ids,
                    order.push(next),
                    key,
                ),
            forall|at: int, i: int|
                0 <= at < order.len() && self.followed(ids, order, at, i)
                    ==> #[trigger] self.followed(ids, order.push(next), at, i),
    {
        assert forall|key: DeviceKey| Self::listed(ids, order, key) implies #[trigger] Self::listed(
            ids,
            order.push(next),
            key,
        ) by {
            let j = choose|j: int| 0 <= j < order.len() && ids[#[trigger] order[j] as int]@ == key;
            assert(order.push(next)[j] == order[j]);
        }
    }

    /// Checks that links lead from the first board to every other, and collects what is odd:
    /// boards that are offline, links with an end that is no board, boards out of reach.
    pub fn validate_connectivity(&self) -> (found: TopologyValidation)
        ensures
            found.connected == self.connected(),
            found.connected_nodes == self.reached().len(),
            found.total_nodes == self.devices().len(),
            texts(found.diagnostics@) == self.diagnostics(),
    {
        let mut diagnostics: Vec<String> = Vec::new();
        let mut i: usize = 0;
        assert(texts(diagnostics@) =~= Self::offline_lines(self.nodes@.take(0)));
        while i < self.nodes.len()
            invariant
                i <= self.nodes@.len(),
                texts(diagnostics@) == Self::offline_lines(self.nodes@.take(i as int)),
            decreases self.nodes@.len() - i,
        {
            assert(self.nodes@.take(i + 1).drop_last() =~= self.nodes@.take(i as int));
            if !self.nodes[i].online {
                let mut line = "node ".to_owned();
                push_text(&mut line, self.nodes[i].id.label().as_str());
                push_text(&mut line, " is offline");
                push_line(&mut diagnostics, line);
            }
            i = i + 1;
        }
        assert(self.nodes@.take(i as int) =~= self.nodes@);
        let ghost offline = Self::offline_lines(self.nodes@);
        let mut i: usize = 0;
        assert(offline + self.link_lines(self.links@.take(0)) =~= offline);
        while i < self.links.len()
            invariant
                i <= self.links@.len(),
                texts(diagnostics@) == offline + self.link_lines(self.links@.take(i as int)),
            decreases self.links@.len() - i,
        {
            let ghost before = self.link_lines(self.links@.take(i as int));
            assert(self.links@.take(i + 1).drop_last() =~= self.links@.take(i as int));
            if self.node(&self.links[i].from).is_none() {
                let mut line = "link from ".to_owned();
                push_text(&mut line, self.links[i].from.label().as_str());
                push_text(&mut line, " points to unknown node");
                let ghost said = line@;
                push_line(&mut diagnostics, line);
                assert((offline + before).push(said) =~= offline + before.push(said));
            } else if self.node(&self.links[i].to).is_none() {
                let mut line = "link to ".to_owned();
                push_text(&mut line, self.links[i].to.label().as_str());
                push_text(&mut line, " points to unknown node");
                let ghost said = line@;
                push_line(&mut diagnostics, line);
                assert((offline + before).push(said) =~= offline + before.push(said));
            }
            i = i + 1;
        }
        assert(self.links@.take(i as int) =~= self.links@);
        if self.nodes.len() == 0 {
            push_line(&mut diagnostics, "topology has no nodes".to_owned());
            assert(self.devices() =~= Set::empty());
            return TopologyValidation {
                connected: false,
                connected_nodes: 0,
                total_nodes: 0,
                diagnostics,
            };
        }
        let ids: Vec<DeviceId> = self.distinct_ids();
        proof {
            keys(ids@).unique_seq_to_set();
        }
        let order: Vec<usize> = self.explore(&ids);
        let connected: bool = order.len() == ids.len();
        if !connected {
            let mut line = "topology is not fully connected: ".to_owned();
            push_decimal(&mut line, order.len() as u64);
            push_text(&mut line, " / ");
            push_decimal(&mut line, ids.len() as u64);
            push_text(&mut line, " nodes reachable");
            push_line(&mut diagnostics, line);
        }
        TopologyValidation {
            connected,
            connected_nodes: order.len(),
            total_nodes: ids.len(),
            diagnostics,
        }
    }

    /// A connected topology is one in which links lead from the first board to every device.
    pub proof fn law_connected_means_all_reached(self)
        requires
            self.nodes@.len() > 0,
        ensures
            self.connected() <==> forall|key: DeviceKey|
                self.devices().contains(key) ==> #[trigger] self.reaches(key),
    {
        let all = self.devices();
        let some = self.reached();
        vstd::seq_lib::seq_to_set_is_finite(node_keys(self.nodes@));
        assert forall|key: DeviceKey| some.contains(key) implies all.contains(key) by {
            self.lemma_reached_is_known(key);
        }
        if self.connected() {
            vstd::set_lib::lemma_set_subset_finite(all, some);
            lemma_subset_equality(some, all);
            assert forall|key: DeviceKey| all.contains(key) implies #[trigger] self.reaches(
                key,
            ) by {
                assert(some.contains(key));
            }
        }
        if forall|key: DeviceKey| all.contains(key) ==> #[trigger] self.reaches(key) {
            assert(some =~= all);
        }
    }

    proof fn lemma_reached_is_known(self, key: DeviceKey)
        requires
            self.nodes@.len() > 0,
            self.reaches(key),
        ensures
            self.devices().contains(key),
    {
        let p = choose|p: Seq<DeviceKey>| #[trigger] self.is_path(p) && p.last() == key;
        if p.len() == 1 {
            assert(node_keys(self.nodes@)[0] == key);
        } else {
            assert(self.edge(p[p.len() - 2], p[p.len() - 2 + 1]));
        }
    }

    /// The devices of all boards in ring order: by family, then by number.
    pub open spec fn ring(self) -> Seq<DeviceKey> {
        choose|ring: Seq<DeviceKey>| #[trigger]
            in_order(ring) && ring.to_multiset() == node_keys(self.nodes@).to_multiset()
    }

    /// The devices in ring order: by family, then by number.
    pub fn ring_plan(&self) -> (ring: Vec<DeviceId>)
        ensures
            keys(ring@) == self.ring(),
            ring@.len() == self.nodes@.len(),
            in_order(keys(ring@)),
            keys(ring@).to_multiset() == node_keys(self.nodes@).to_multiset(),
    {
        let mut ring: Vec<DeviceId> = Vec::new();
        let mut i: usize = 0;
        assert(keys(ring@) =~= node_keys(self.nodes@.take(0)));
        while i < self.nodes.len()
            invariant
                i <= self.nodes@.len(),
                in_order(keys(ring@)),
                keys(ring@).to_multiset() == node_keys(self.nodes@.take(i as int)).to_multiset(),
            decreases self.nodes@.len() - i,
        {
            let ghost before = keys(ring@);
            let ghost key = self.nodes@[i as int].id@;
            let at: usize = insertion_point(&ring, &self.nodes[i].id);
            ring.insert(at, self.nodes[i].id.clone());
            proof {
                let seen = node_keys(self.nodes@.take(i as int));
                assert(node_keys(self.nodes@.take(i + 1)) =~= seen.push(key));
                assert(keys(ring@) =~= before.insert(at as int, key));
                lemma_insert_in_order(before, at as int, key);
                broadcast use vstd::seq_lib::group_to_multiset_ensures;

                assert(before.insert(at as int, key).remove(at as int) =~= before);
                assert(before.insert(at as int, key)[at as int] == key);
                assert(before.insert(at as int, key).to_multiset() =~= before.to_multiset().insert(
                    key,
                )) by {
                    assert(before.insert(at as int, key).contains(key));
                    assert(before.insert(at as int, key).remove(at as int).to_multiset()
                        =~= before.insert(at as int, key).to_multiset().remove(key));
                }
            }
            i = i + 1;
        }
        proof {
            assert(self.nodes@.take(i as int) =~= self.nodes@);
            law_ring_is_unique(keys(ring@), self.ring());
            vstd::seq_lib::to_multiset_len(keys(ring@));
            vstd::seq_lib::to_multiset_len(node_keys(self.nodes@));
        }
        ring
    }

    /// The first link from `a` to `b`, if there is one.
    pub open spec fn link_between(self, a: DeviceKey, b: DeviceKey) -> Option<HardwareLink> {
        first_link(self.links@, a, b)
    }

    /// Finds the first link from `a` to `b`.
    fn find_link(&self, a: &DeviceId, b: &DeviceId) -> (found: Option<&HardwareLink>)
        ensures
            match found {
                Some(link) => self.link_between(a@, b@) == Some(*link),
                None => self.link_between(a@, b@) is None,
            },
    {
        let mut i: usize = 0;
        assert(self.links@.skip(0) =~= self.links@);
        while i < self.links.len()
            invariant
                i <= self.links@.len(),
                self.link_between(a@, b@) == first_link(self.links@.skip(i as int), a@, b@),
            decreases self.links@.len() - i,
        {
            assert(self.links@.skip(i as int).skip(1) =~= self.links@.skip(i + 1));
            if self.links[i].from.same(a) && self.links[i].to.same(b) {
                return Some(&self.links[i]);
            }
            i = i + 1;
        }
        None
    }

    /// The links that a ring uses, as far as they exist: between neighbours, then from the
    /// last device back to the first.
    pub open spec fn ring_links(self, ring: Seq<DeviceKey>) -> Seq<Option<HardwareLink>> {
        Seq::new(
            ring.len(),
            |i: int| self.link_between(ring[i], ring[if i + 1 < ring.len() { i + 1 } else { 0 }]),
        )
    }

    /// Whether the latencies of the ring can be added up.
    pub open spec fn cost_fits(self) -> bool {
        self.nodes@.len() >= 2 && self.connected() ==> total_latency(self.ring_links(self.ring()))
            <= u32::MAX
    }

    /// What one round over the ring costs at least: the least bandwidth and the sum of the
    /// latencies of its links. There is no cost without two boards, or when some board is out
    /// of reach.
    pub fn allreduce_cost_estimate(&self, payload_bytes: usize) -> (cost: Option<
        AllReduceEstimate,
    >)
        requires
            self.cost_fits(),
        ensures
            cost is Some <==> self.nodes@.len() >= 2 && self.connected(),
            cost matches Some(c) ==> {
                &&& keys(c.nodes@) == self.ring()
                &&& c.payload_bytes == payload_bytes
                &&& c.ring_hops == self.nodes@.len() as u32
                &&& c.min_bandwidth_mb_s == least_bandwidth(self.ring_links(self.ring()))
                &&& c.latency_us == total_latency(self.ring_links(self.ring()))
            },
    {
        if self.nodes.len() < 2 {
            return None;
        }
        if !self.validate_connectivity().connected {
            return None;
        }
        let ring: Vec<DeviceId> = self.ring_plan();
        let ghost links = self.ring_links(keys(ring@));
        let mut bandwidth_mb_s: u32 = u32::MAX;
        let mut latency_us: u32 = 0;
        let mut i: usize = 0;
        while i < ring.len()
            invariant
                i <= ring@.len(),
                links == self.ring_links(keys(ring@)),
                total_latency(links) <= u32::MAX,
                bandwidth_mb_s == least_bandwidth(links.take(i as int)),
                latency_us == total_latency(links.take(i as int)),
            decreases ring@.len() - i,
        {
            let next: usize = if i + 1 < ring.len() { i + 1 } else { 0 };
            proof {
                assert(links.take(i + 1).drop_last() =~= links.take(i as int));
                lemma_latency_prefix(links, i + 1);
            }
            match self.find_link(&ring[i], &ring[next]) {
                Some(link) => {
                    if link.bandwidth_mb_s < bandwidth_mb_s {
                        bandwidth_mb_s = link.bandwidth_mb_s;
                    }
                    latency_us = latency_us + link.latency_us;
                },
                None => {},
            }
            i = i + 1;
        }
        assert(links.take(i as int) =~= links);
        let ring_hops: u32 = ring.len() as u32;
        Some(
            AllReduceEstimate {
                nodes: ring,
                payload_bytes,
                ring_hops,
                min_bandwidth_mb_s: bandwidth_mb_s,
                latency_us,
            },
        )
    }

    /// Cuts the product of an `m` by `k` and a `k` by `n` matrix along the ring: device `i`
    /// gets the `i`-th share of the rows and of the columns, the last device what is left.
    pub fn matmul_partition_plan(&self, m: usize, k: usize, n: usize) -> (plan: MatmulPartitionPlan)
        ensures
            plan.m == m && plan.k == k && plan.n == n,
            plan.shards@.len() == self.nodes@.len(),
            shard_keys(plan.shards@) == self.ring(),
            forall|i: int|
                0 <= i < plan.shards@.len() ==> {
                    let shard = #[trigger] plan.shards@[i];
                    &&& shard.row_range == share(m, plan.shards@.len(), i)
                    &&& shard.col_range == share(n, plan.shards@.len(), i)
                    &&& shard.k == k
                },
    {
        let nodes: Vec<DeviceId> = self.ring_plan();
        let count: usize = nodes.len();
        let mut shards: Vec<MatmulShard> = Vec::new();
        let mut i: usize = 0;
        assert(shard_keys(shards@) =~= keys(nodes@).take(0));
        while i < count
            invariant
                i <= count == nodes@.len(),
                shards@.len() == i,
                shard_keys(shards@) == keys(nodes@).take(i as int),
                forall|j: int|
                    0 <= j < i ==> {
                        let shard = #[trigger] shards@[j];
                        &&& shard.row_range == share(m, count as nat, j)
                        &&& shard.col_range == share(n, count as nat, j)
                        &&& shard.k == k
                    },
            decreases count - i,
        {
            let ghost before = shards@;
            let shard = MatmulShard {
                device: nodes[i].clone(),
                row_range: share_of(m, count, i),
                col_range: share_of(n, count, i),
                k,
            };
            shards.push(shard);
            assert(shard_keys(shards@) =~= keys(nodes@).take(i + 1));
            i = i + 1;
        }
        assert(keys(nodes@).take(i as int) =~= keys(nodes@));
        MatmulPartitionPlan { m, k, n, shards }
    }
}

/// What one round of a ring all-reduce has to pay for.
#[derive(Debug, Clone, PartialEq, Eq)]
pub struct AllReduceEstimate {
    pub nodes: Vec<DeviceId>,
    pub payload_bytes: usize,
    pub ring_hops: u32,
    pub min_bandwidth_mb_s: u32,
    pub latency_us: u32,
}

/// How the duration of a round comes about: the numbers of bytes and hops and the bytes of a hop;
/// the bandwidth, which is at least one, by its bytes in a second; how long the bytes of a hop
/// take; and the latencies of all hops, with how many of their units make a second.
pub struct RoundNumbers<T> {
    pub bytes: T,
    pub hops: T,
    pub share: T,
    pub bandwidth: T,
    pub kilo: T,
    pub transfer: T,
    pub latency: T,
    pub million: T,
    pub delay: T,
}

impl AllReduceEstimate {
    /// Whether `numbers` belong to this estimate.
    pub open spec fn are_round_numbers<T: Number>(self, numbers: RoundNumbers<T>) -> bool {
        &&& T::count.ensures((self.payload_bytes as u64,), numbers.bytes)
        &&& T::count.ensures((self.ring_hops as u64,), numbers.hops)
        &&& T::over.ensures((numbers.bytes, numbers.hops), numbers.share)
        &&& T::count.ensures(
            (if self.min_bandwidth_mb_s > 1 {
                self.min_bandwidth_mb_s as u64
            } else {
                1u64
            },),
            numbers.bandwidth,
        )
        &&& T::count.ensures((1024,), numbers.kilo)
        &&& T::over.ensures(
            (numbers.share, numbers.bandwidth.product(numbers.kilo).product(numbers.kilo)),
            numbers.transfer,
        )
        &&& T::count.ensures((self.latency_us as u64,), numbers.latency)
        &&& T::count.ensures((1_000_000,), numbers.million)
        &&& T::over.ensures(
            (numbers.latency.product(numbers.hops), numbers.million),
            numbers.delay,
        )
    }

    /// Whether a round takes this long.
    pub open spec fn is_duration<T: Number>(self, seconds: T) -> bool {
        exists|numbers: RoundNumbers<T>|
            {
                &&& #[trigger] self.are_round_numbers(numbers)
                &&& seconds == numbers.transfer.product(numbers.hops).sum(numbers.delay)
            }
    }

    /// How long a round over the ring takes, in seconds: every hop transfers its part of the
    /// payload at the least bandwidth, and has its latency.
    pub fn estimated_seconds<T: Number>(&self) -> (seconds: T)
        ensures
            self.is_duration(seconds),
    {
        let bytes: T = T::count(self.payload_bytes as u64);
        let hops: T = T::count(self.ring_hops as u64);
        let share: T = bytes.over(hops);
        let least: u64 = if self.min_bandwidth_mb_s > 1 {
            self.min_bandwidth_mb_s as u64
        } else {
            1u64
        };
        let bandwidth: T = T::count(least);
        let kilo: T = T::count(1024);
        let transfer: T = share.over(bandwidth.times(kilo).times(kilo));
        let latency: T = T::count(self.latency_us as u64);
        let million: T = T::count(1_000_000);
        let delay: T = latency.times(hops).over(million);
        proof {
            let numbers = RoundNumbers {
                bytes,
                hops,
                share,
                bandwidth,
                kilo,
                transfer,
                latency,
                million,
                delay,
            };
            assert(self.are_round_numbers(numbers));
        }
        transfer.times(hops).plus(delay)
    }
}

/// The share of one device in a matrix product.
#[derive(Debug, PartialEq, Eq)]
pub struct MatmulShard {
    pub device: DeviceId,
    pub row_range: Range<usize>,
    pub col_range: Range<usize>,
    pub k: usize,
}

impl Clone for MatmulShard {
    fn clone(&self) -> (copy: Self)
        ensures
            copy == *self,
    {
        MatmulShard {
            device: self.device.clone(),
            row_range: Range { start: self.row_range.start, end: self.row_range.end },
            col_range: Range { start: self.col_range.start, end: self.col_range.end },
            k: self.k,
        }
    }
}

/// The shares of all devices in a matrix product.
#[derive(Debug, Clone, PartialEq, Eq)]
pub struct MatmulPartitionPlan {
    pub m: usize,
    pub k: usize,
    pub n: usize,
    pub shards: Vec<MatmulShard>,
}

/// Whether no device stands before one that comes first.
pub open spec fn in_order(ring: Seq<DeviceKey>) -> bool {
    forall|i: int, j: int|
        0 <= i < j < ring.len() ==> !device::device_before(#[trigger] ring[j], #[trigger] ring[i])
}

/// The devices of some shares, in order.
pub open spec fn shard_keys(shards: Seq<MatmulShard>) -> Seq<DeviceKey> {
    shards.map_values(|s: MatmulShard| s.device@)
}

/// The first link in `links` from `a` to `b`, if there is one.
pub open spec fn first_link(links: Seq<HardwareLink>, a: DeviceKey, b: DeviceKey) -> Option<
    HardwareLink,
>
    decreases links.len(),
{
    if links.len() == 0 {
        None
    } else if links[0].from@ == a && links[0].to@ == b {
        Some(links[0])
    } else {
        first_link(links.skip(1), a, b)
    }
}

/// The least bandwidth of the links that exist, at most the greatest number of 32 bits.
pub open spec fn least_bandwidth(links: Seq<Option<HardwareLink>>) -> u32
    decreases links.len(),
{
    if links.len() == 0 {
        u32::MAX
    } else {
        let before = least_bandwidth(links.drop_last());
        match links.last() {
            Some(link) => if link.bandwidth_mb_s < before {
                link.bandwidth_mb_s
            } else {
                before
            },
            None => before,
        }
    }
}

/// The latencies of the links that exist, added up.
pub open spec fn total_latency(links: Seq<Option<HardwareLink>>) -> nat
    decreases links.len(),
{
    if links.len() == 0 {
        0
    } else {
        let before = total_latency(links.drop_last());
        match links.last() {
            Some(link) => before + link.latency_us as nat,
            None => before,
        }
    }
}

proof fn lemma_latency_prefix(links: Seq<Option<HardwareLink>>, n: int)
    requires
        0 <= n <= links.len(),
    ensures
        total_latency(links.take(n)) <= total_latency(links),
    decreases links.len(),
{
    if n < links.len() {
        lemma_latency_prefix(links.drop_last(), n);
        assert(links.drop_last().take(n) =~= links.take(n));
    } else {
        assert(links.take(n) =~= links);
    }
}

/// The size of an ordinary share of `total` among `count`.
pub open spec fn share_len(total: usize, count: nat) -> int {
    if total as int / count as int > 1 {
        total as int / count as int
    } else {
        1
    }
}

/// The `i`-th share of `total` among `count`: the last one ends at `total`, the others where
/// the next one starts, if that is not beyond `total`.
pub open spec fn share(total: usize, count: nat, i: int) -> Range<usize> {
    let size = share_len(total, count);
    Range {
        start: (i * size) as usize,
        end: if i + 1 == count || (i + 1) * size > total {
            total
        } else {
            ((i + 1) * size) as usize
        },
    }
}

proof fn lemma_share_fits(total: usize, count: usize, i: int)
    requires
        0 <= i < count,
    ensures
        0 <= i * share_len(total, count as nat) <= usize::MAX,
        0 <= (i + 1) * share_len(total, count as nat) <= usize::MAX,
        total >= count ==> (i + 1) * share_len(total, count as nat) <= total,
{
    let (t, c) = (total as int, count as int);
    let q = t / c;
    let size = share_len(total, count as nat);
    vstd::arithmetic::div_mod::lemma_fundamental_div_mod(total as int, count as int);
    assert(0 <= i * size <= (i + 1) * size <= count * size) by (nonlinear_arith)
        requires
            0 <= i < count,
            size >= 1,
    ;
    assert(count * q <= total);
    if total >= count {
        assert(q >= 1) by (nonlinear_arith)
            requires
                t >= c > 0,
                t == c * q + (t % c),
                0 <= t % c < c,
        ;
    }
}

/// The `i`-th share of `total` among `count`.
fn share_of(total: usize, count: usize, i: usize) -> (range: Range<usize>)
    requires
        i < count,
    ensures
        range == share(total, count as nat, i as int),
{
    proof {
        lemma_share_fits(total, count, i as int);
        assert(i * share_len(total, count as nat) + share_len(total, count as nat) == (i + 1)
            * share_len(total, count as nat)) by (nonlinear_arith);
    }
    let part: usize = total / count;
    let size: usize = if part > 1 { part } else { 1 };
    let start: usize = i * size;
    let end: usize = if i + 1 == count || start + size > total {
        total
    } else {
        start + size
    };
    Range { start, end }
}

/// The shares cover everything without gaps or overlaps when there is at least one unit for
/// each: they start at zero, each starts where the one before ends, and the last ends at
/// `total`.
pub proof fn law_shares_tile(total: usize, count: usize, i: int)
    requires
        0 <= i < count <= total,
    ensures
        share(total, count as nat, 0).start == 0,
        i + 1 < count ==> share(total, count as nat, i).end == share(
            total,
            count as nat,
            i + 1,
        ).start,
        share(total, count as nat, count - 1).end == total,
        share(total, count as nat, i).start < share(total, count as nat, i).end,
{
    let size = share_len(total, count as nat);
    lemma_share_fits(total, count, i);
    lemma_share_fits(total, count, 0);
    assert(0 * size == 0);
    assert(i * size < (i + 1) * size) by (nonlinear_arith)
        requires
            size >= 1,
    ;
}

/// Where `id` goes into a ring in order: behind everything that does not come after it.
fn insertion_point(ring: &Vec<DeviceId>, id: &DeviceId) -> (at: usize)
    requires
        in_order(keys(ring@)),
    ensures
        at <= ring@.len(),
        forall|i: int| 0 <= i < at ==> !device::device_before(id@, #[trigger] keys(ring@)[i]),
        forall|i: int|
            at <= i < ring@.len() ==> device::device_before(id@, #[trigger] keys(ring@)[i]),
{
    let mut at: usize = ring.len();
    while at > 0 && id.is_before(&ring[at - 1])
        invariant
            at <= ring@.len(),
            forall|i: int|
                at <= i < ring@.len() ==> device::device_before(id@, #[trigger] keys(ring@)[i]),
        decreases at,
    {
        at = at - 1;
    }
    proof {
        if at > 0 {
            let last = keys(ring@)[at - 1];
            assert forall|i: int| 0 <= i < at implies !device::device_before(
                id@,
                #[trigger] keys(ring@)[i],
            ) by {
                let x = keys(ring@)[i];
                if device::device_before(id@, x) {
                    if i < at - 1 {
                        assert(!device::device_before(last, x));
                        device::law_device_order_is_total(last, x);
                        if last != x {
                            device::law_device_order_is_transitive(id@, x, last);
                        }
                    }
                }
            }
        }
    }
    at
}

proof fn lemma_insert_in_order(ring: Seq<DeviceKey>, at: int, key: DeviceKey)
    requires
        in_order(ring),
        0 <= at <= ring.len(),
        forall|i: int| 0 <= i < at ==> !device::device_before(key, #[trigger] ring[i]),
        forall|i: int| at <= i < ring.len() ==> device::device_before(key, #[trigger] ring[i]),
    ensures
        in_order(ring.insert(at, key)),
{
    let out = ring.insert(at, key);
    assert forall|i: int, j: int| 0 <= i < j < out.len() implies !device::device_before(
        #[trigger] out[j],
        #[trigger] out[i],
    ) by {
        let a = if i < at {
            ring[i]
        } else if i == at {
            key
        } else {
            ring[i - 1]
        };
        let b = if j < at {
            ring[j]
        } else if j == at {
            key
        } else {
            ring[j - 1]
        };
        assert(out[i] == a && out[j] == b);
        device::law_device_order_is_total(a, b);
        device::law_device_order_is_total(b, a);
    }
}

/// A ring order is determined by the devices: two rings of the same devices are the same.
pub proof fn law_ring_is_unique(a: Seq<DeviceKey>, b: Seq<DeviceKey>)
    requires
        in_order(a),
        in_order(b),
        a.to_multiset() == b.to_multiset(),
    ensures
        a == b,
    decreases a.len(),
{
    broadcast use vstd::seq_lib::group_to_multiset_ensures;

    assert(a.len() == a.to_multiset().len());
    assert(b.len() == b.to_multiset().len());
    if a.len() > 0 {
        let x = a.last();
        let y = b.last();
        assert(a[a.len() - 1] == x && b[b.len() - 1] == y);
        assert(a.contains(x));
        assert(a.to_multiset().count(x) > 0);
        assert(b.contains(x));
        assert(b.contains(y));
        assert(b.to_multiset().count(y) > 0);
        assert(a.contains(y));
        let i = choose|i: int| 0 <= i < b.len() && b[i] == x;
        let j = choose|j: int| 0 <= j < a.len() && a[j] == y;
        device::law_device_order_is_total(x, y);
        assert(x == y);
        assert(a.remove(a.len() - 1) =~= a.drop_last());
        assert(b.remove(b.len() - 1) =~= b.drop_last());
        assert(a.drop_last().to_multiset() =~= a.to_multiset().remove(x));
        assert(b.drop_last().to_multiset() =~= b.to_multiset().remove(x));
        law_ring_is_unique(a.drop_last(), b.drop_last());
        assert(a =~= a.drop_last().push(x));
        assert(b =~= b.drop_last().push(x));
    } else {
        assert(a =~= b);
    }
}

/// Appends a line.
fn push_line(lines: &mut Vec<String>, line: String)
    ensures
        texts(final(lines)@) == texts(old(lines)@).push(line@),
{
    lines.push(line);
    assert(texts(lines@) =~= texts(old(lines)@).push(line@));
}

/// The position of a device in `ids`.
fn index_of(ids: &Vec<DeviceId>, id: &DeviceId) -> (found: Option<usize>)
    ensures
        match found {
            Some(i) => i < ids@.len() && ids@[i as int]@ == id@ && keys(ids@).contains(id@),
            None => !keys(ids@).contains(id@),
        },
{
    let mut i: usize = 0;
    while i < ids.len()
        invariant
            i <= ids@.len(),
            forall|j: int| 0 <= j < i ==> (#[trigger] ids@[j])@ != id@,
        decreases ids@.len() - i,
    {
        if ids[i].same(id) {
            assert(keys(ids@)[i as int] == id@);
            return Some(i);
        }
        i = i + 1;
    }
    None
}

/// Whether `x` stands in `order`.
fn contains(order: &Vec<usize>, x: usize) -> (yes: bool)
    ensures
        yes == order@.contains(x),
{
    let mut i: usize = 0;
    while i < order.len()
        invariant
            i <= order@.len(),
            forall|j: int| 0 <= j < i ==> order@[j] != x,
        decreases order@.len() - i,
    {
        if order[i] == x {
            return true;
        }
        i = i + 1;
    }
    false
}

proof fn lemma_push_to_set(s: Seq<DeviceKey>, key: DeviceKey)
    ensures
        s.push(key).to_set() == s.to_set().insert(key),
{
    assert forall|x: DeviceKey| s.push(key).to_set().contains(x) == s.to_set().insert(
        key,
    ).contains(x) by {
        if s.contains(x) {
            let i = choose|i: int| 0 <= i < s.len() && s[i] == x;
            assert(s.push(key)[i] == x);
        }
        if x == key {
            assert(s.push(key)[s.len() as int] == x);
        }
    }
    assert(s.push(key).to_set() =~= s.to_set().insert(key));
}

/// There are no more distinct positions than there are places.
proof fn lemma_distinct_positions(order: Seq<usize>, n: nat)
    requires
        order.no_duplicates(),
        forall|j: int| 0 <= j < order.len() ==> (#[trigger] order[j]) < n,
    ensures
        order.len() <= n,
{
    let ints = order.map_values(|x: usize| x as int);
    assert(ints.no_duplicates());
    ints.unique_seq_to_set();
    lemma_int_range(0, n as int);
    assert(ints.to_set().subset_of(vstd::set_lib::set_int_range(0, n as int)));
    lemma_len_subset(ints.to_set(), vstd::set_lib::set_int_range(0, n as int));
}

/// No link of a ring has less bandwidth than the least, and one has that, unless there is none
/// below the greatest number.
pub proof fn law_the_least_bandwidth_is_a_lower_bound(links: Seq<Option<HardwareLink>>)
    ensures
        forall|i: int|
            0 <= i < links.len() && (#[trigger] links[i]) is Some ==> least_bandwidth(links)
                <= links[i]->0.bandwidth_mb_s,
        least_bandwidth(links) == u32::MAX || exists|i: int|
            0 <= i < links.len() && (#[trigger] links[i]) is Some && links[i]->0.bandwidth_mb_s
                == least_bandwidth(links),
    decreases links.len(),
{
    if links.len() > 0 {
        let rest = links.drop_last();
        law_the_least_bandwidth_is_a_lower_bound(rest);
        assert forall|i: int| 0 <= i < links.len() && (#[trigger] links[i]) is Some implies
            least_bandwidth(links) <= links[i]->0.bandwidth_mb_s by {
            if i < links.len() - 1 {
                assert(rest[i] == links[i]);
            }
        }
        let least = least_bandwidth(links);
        if least != u32::MAX {
            if least == least_bandwidth(rest) {
                let i = choose|i: int|
                    0 <= i < rest.len() && (#[trigger] rest[i]) is Some
                        && rest[i]->0.bandwidth_mb_s == least_bandwidth(rest);
                assert(links[i] == rest[i]);
            } else {
                assert(links[links.len() - 1] is Some);
            }
        }
    }
}

/// The latencies of two parts of a ring add up, and that of a single link is its own.
pub proof fn law_latencies_add_up(
    a: Seq<Option<HardwareLink>>,
    b: Seq<Option<HardwareLink>>,
    link: HardwareLink,
)
    ensures
        total_latency(a + b) == total_latency(a) + total_latency(b),
        total_latency(seq![Some(link)]) == link.latency_us,
        total_latency(seq![None::<HardwareLink>]) == 0,
    decreases b.len(),
{
    if b.len() > 0 {
        law_latencies_add_up(a, b.drop_last(), link);
        assert((a + b).drop_last() =~= a + b.drop_last());
        assert((a + b).last() == b.last());
    } else {
        assert(a + b =~= a);
    }
    let none = Seq::<Option<HardwareLink>>::empty();
    assert(total_latency(none) == 0);
    let (one, gap) = (seq![Some(link)], seq![None::<HardwareLink>]);
    assert(one.drop_last() =~= none && one.last() == Some(link));
    assert(gap.drop_last() =~= none && gap.last() is None);
    assert(total_latency(one) == total_latency(one.drop_last()) + link.latency_us);
    assert(total_latency(gap) == total_latency(gap.drop_last()));
}

/// How long a round takes, over real numbers: what is left of it without the latency of every hop,
/// which is counted in millionths of a second, is just enough for the whole payload at the least
/// bandwidth, which is at least one and counted in units of 1024 times 1024 bytes a second.
pub proof fn law_rounds_last_as_long_as_the_payload<T: Number>(
    reading: Reading<T>,
    estimate: AllReduceEstimate,
    seconds: T,
)
    requires
        reading.is_faithful(),
        estimate.ring_hops > 0,
        estimate.is_duration(seconds),
    ensures
        (reading.finite)(seconds),
        ({
            let bandwidth = if estimate.min_bandwidth_mb_s > 1 {
                estimate.min_bandwidth_mb_s as real
            } else {
                1real
            };
            let latency = (estimate.latency_us as real * estimate.ring_hops as real)
                / 1_000_000real;
            (reading.of(seconds) - latency) * ((bandwidth * 1024real) * 1024real)
                == estimate.payload_bytes as real
        }),
{
    let numbers = choose|numbers: RoundNumbers<T>|
        {
            &&& #[trigger] estimate.are_round_numbers(numbers)
            &&& seconds == numbers.transfer.product(numbers.hops).sum(numbers.delay)
        };
    let w = reading.of(numbers.bandwidth);
    let (b, h) = (reading.of(numbers.bytes), reading.of(numbers.hops));
    assert(reading.reads(numbers.bytes, estimate.payload_bytes as real));
    assert(reading.reads(numbers.hops, estimate.ring_hops as real));
    assert((reading.finite)(numbers.bandwidth) && w >= 1real);
    assert(reading.reads(numbers.kilo, 1024real));
    assert(reading.reads(numbers.million, 1_000_000real));
    let d = (w * 1024real) * 1024real;
    assert(d > 0real);
    reals::lemma_quotient(b, h);
    let share = reading.of(numbers.share);
    reals::lemma_quotient(share, d);
    let t = reading.of(numbers.transfer);
    assert((t * h) * d == (t * d) * h) by (nonlinear_arith);
}

} // verus!
