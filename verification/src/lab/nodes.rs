//! Which nodes the laboratory runs.

use vstd::prelude::*;
use crate::lab::links::{default_name, not_found, require_running, LabError};
use crate::lab::links;
use crate::lab::numbers::Number;
use crate::lab::state::NodeInfo;
use crate::order;
use crate::order::Key;
use crate::ordered_map::OrderedMap;
use crate::text;

verus! {

/// A node that does not answer in time.
pub const TIMED_OUT: u16 = 504;

/// How often a new node is asked whether it is ready.
pub const HEALTH_TRIES: u64 = 60;

/// How long the laboratory waits before it asks again.
pub const HEALTH_PAUSE_MS: u64 = 50;

/// A node, whether the laboratory holds its process, and when it was started.
#[derive(Debug)]
pub struct ManagedNode {
    pub info: NodeInfo,
    pub has_process: bool,
    pub started_offset_ms: u64,
}

/// The laboratory holds the process of the node, and the process has a number.
pub open spec fn is_running(node: ManagedNode) -> bool {
    node.has_process && node.info.pid is Some
}

/// The nodes of the laboratory.
#[derive(Debug)]
pub struct LabNodes {
    nodes: OrderedMap<Number, ManagedNode>,
    next_node: u64,
    next_flow: u64,
}

/// What is known of the nodes.
#[verifier::ext_equal]
pub struct NodesView {
    pub nodes: Map<u64, ManagedNode>,
    pub next_node: u64,
    pub next_flow: u64,
}

impl View for LabNodes {
    type V = NodesView;

    closed spec fn view(&self) -> NodesView {
        NodesView {
            nodes: self.nodes@,
            next_node: self.next_node,
            next_flow: self.next_flow,
        }
    }
}

/// The numbers of the nodes that run.
pub open spec fn running_ids(nodes: Map<u64, ManagedNode>) -> Set<u64> {
    nodes.dom().filter(|id: u64| is_running(nodes[id]))
}

/// The address of a port of this machine.
pub open spec fn loopback(port: u16) -> Seq<char> {
    "127.0.0.1:"@ + text::decimal(port as nat)
}

/// The address of a port of this machine.
fn loopback_address(port: u16) -> (address: String)
    ensures
        address@ == loopback(port),
{
    let mut address = "127.0.0.1:".to_owned();
    text::append_decimal(&mut address, port as u64);
    address
}

/// What is known of a node that was just started.
pub fn started_info(
    id: u64,
    name: String,
    mesh_port: u16,
    admin_port: u16,
    pid: Option<u32>,
) -> (info: NodeInfo)
    ensures
        info.id == id,
        info.name == name,
        info.mesh_addr@ == loopback(mesh_port),
        info.admin_addr@ == loopback(admin_port),
        info.pid == pid,
{
    NodeInfo {
        id,
        name,
        mesh_addr: loopback_address(mesh_port),
        admin_addr: loopback_address(admin_port),
        pid,
    }
}

/// What is said of a node that does not become ready.
pub fn not_ready(admin: &str) -> (error: LabError)
    ensures
        error.status == TIMED_OUT,
        error.message@ == "mblab-node at "@ + admin@ + " did not become ready"@,
{
    let mut message = "mblab-node at ".to_owned();
    message.append(admin);
    message.append(" did not become ready");
    LabError { status: TIMED_OUT, message }
}

/// What the laboratory does while it waits for a new node.
#[derive(Clone, Copy, Debug, Eq, PartialEq)]
pub enum HealthStep {
    /// It asks whether the node is ready.
    Ask,
    /// It waits so many milliseconds.
    Pause(u64),
    /// The node is ready.
    Ready,
    /// The node did not become ready.
    GiveUp,
}

/// What the laboratory does next, after it has asked so often: `answer` is what
/// came of the last question, unless it has paused since.
pub fn health_step(asked: u64, answer: Option<bool>) -> (step: HealthStep)
    ensures
        step == match answer {
            Some(true) => HealthStep::Ready,
            Some(false) => HealthStep::Pause(HEALTH_PAUSE_MS),
            None => if asked < HEALTH_TRIES {
                HealthStep::Ask
            } else {
                HealthStep::GiveUp
            },
        },
{
    match answer {
        Some(true) => HealthStep::Ready,
        Some(false) => HealthStep::Pause(HEALTH_PAUSE_MS),
        None => if asked < HEALTH_TRIES {
            HealthStep::Ask
        } else {
            HealthStep::GiveUp
        },
    }
}

/// What a probe carries.
pub fn probe_payload(payload: Option<String>) -> (text: String)
    ensures
        text@ == match payload {
            Some(given) => given@,
            None => "mesh-lab probe"@,
        },
{
    match payload {
        Some(given) => given,
        None => "mesh-lab probe".to_owned(),
    }
}

impl LabNodes {
    /// The nodes are in order, and each has its number.
    pub closed spec fn wf(&self) -> bool {
        &&& self.nodes.wf()
        &&& forall|id: u64| #[trigger]
            self.nodes@.contains_key(id) ==> self.nodes@[id].info.id == id
    }

    /// Each node has its number, and there are finitely many.
    pub proof fn nodes_have_numbers(&self)
        requires
            self.wf(),
        ensures
            self@.nodes.dom().finite(),
            forall|id: u64| #[trigger]
                self@.nodes.contains_key(id) ==> self@.nodes[id].info.id == id,
    {
        self.nodes.ranks_list_domain();
    }

    /// No nodes yet.
    pub fn new() -> (nodes: Self)
        ensures
            nodes.wf(),
            nodes@ == (NodesView { nodes: Map::empty(), next_node: 1, next_flow: 1 }),
    {
        LabNodes { nodes: OrderedMap::new(), next_node: 1, next_flow: 1 }
    }

    /// The number and the name of a new node.
    pub fn reserve(&mut self, name: Option<String>) -> (reserved: (u64, String))
        requires
            old(self).wf(),
        ensures
            final(self).wf(),
            reserved.0 == old(self)@.next_node,
            reserved.1@ == match name {
                Some(given) => given@,
                None => "node-"@ + text::decimal(reserved.0 as nat),
            },
            final(self)@ == (NodesView {
                next_node: old(self)@.next_node.wrapping_add(1),
                ..old(self)@
            }),
    {
        let id: u64 = self.next_node;
        self.next_node = self.next_node.wrapping_add(1);
        let name = match name {
            Some(given) => given,
            None => default_name(id),
        };
        (id, name)
    }

    /// The number of a new flow.
    pub fn take_flow(&mut self) -> (flow: u64)
        requires
            old(self).wf(),
        ensures
            final(self).wf(),
            flow == old(self)@.next_flow,
            final(self)@ == (NodesView {
                next_flow: old(self)@.next_flow.wrapping_add(1),
                ..old(self)@
            }),
    {
        let flow: u64 = self.next_flow;
        self.next_flow = self.next_flow.wrapping_add(1);
        flow
    }

    /// Takes in a node that was started, in place of the one with its number.
    pub fn insert(&mut self, info: NodeInfo, started_offset_ms: u64)
        requires
            old(self).wf(),
        ensures
            final(self).wf(),
            final(self)@ == (NodesView {
                nodes: old(self)@.nodes.insert(
                    info.id,
                    ManagedNode { info, has_process: true, started_offset_ms },
                ),
                ..old(self)@
            }),
    {
        let id: u64 = info.id;
        self.nodes.insert(Number(id), ManagedNode { info, has_process: true, started_offset_ms });
    }

    /// Forgets a node.
    pub fn remove(&mut self, id: u64) -> (removed: Result<(), LabError>)
        requires
            old(self).wf(),
        ensures
            final(self).wf(),
            final(self)@ == (NodesView { nodes: old(self)@.nodes.remove(id), ..old(self)@ }),
            match removed {
                Ok(_) => old(self)@.nodes.contains_key(id),
                Err(error) => {
                    &&& !old(self)@.nodes.contains_key(id)
                    &&& error@ == links::not_found_fault("node"@)
                },
            },
    {
        match self.nodes.remove(&Number(id)) {
            Some(_) => Ok(()),
            None => Err(not_found("node")),
        }
    }

    /// The process of a node is stopped. Gives the name of the node.
    pub fn stop(&mut self, id: u64) -> (name: Result<String, LabError>)
        requires
            old(self).wf(),
        ensures
            final(self).wf(),
            match name {
                Ok(n) => {
                    &&& old(self)@.nodes.contains_key(id)
                    &&& n == old(self)@.nodes[id].info.name
                    &&& final(self)@ == (NodesView {
                        nodes: old(self)@.nodes.insert(
                            id,
                            ManagedNode {
                                info: NodeInfo { pid: None, ..old(self)@.nodes[id].info },
                                has_process: false,
                                ..old(self)@.nodes[id]
                            },
                        ),
                        ..old(self)@
                    })
                },
                Err(error) => {
                    &&& !old(self)@.nodes.contains_key(id)
                    &&& error@ == links::not_found_fault("node"@)
                    &&& final(self)@ == old(self)@
                },
            },
    {
        let ghost before = self@;
        match self.nodes.remove(&Number(id)) {
            Some(node) => {
                let mut node = node;
                let name = node.info.name.clone();
                node.info.pid = None;
                node.has_process = false;
                self.nodes.insert(Number(id), node);
                assert(before.nodes.remove(id).insert(id, node) =~= before.nodes.insert(id, node));
                Ok(name)
            },
            None => {
                assert(self@ =~= before);
                Err(not_found("node"))
            },
        }
    }

    /// What is known of a node, and whether it runs.
    pub fn info(&self, id: u64) -> (info: Result<(NodeInfo, bool), LabError>)
        requires
            self.wf(),
        ensures
            match info {
                Ok((known, running)) => {
                    &&& self@.nodes.contains_key(id)
                    &&& known == self@.nodes[id].info
                    &&& running == is_running(self@.nodes[id])
                },
                Err(error) => {
                    &&& !self@.nodes.contains_key(id)
                    &&& error@ == links::not_found_fault("node"@)
                },
            },
    {
        match self.nodes.get(&Number(id)) {
            Some(node) => Ok((node.info.clone(), node.has_process && node.info.pid.is_some())),
            None => Err(not_found("node")),
        }
    }

    /// What is known of a node that runs and answers; for any other node, why
    /// it cannot have a link.
    pub fn require(&self, id: u64, answers: bool) -> (info: Result<NodeInfo, LabError>)
        requires
            self.wf(),
        ensures
            match info {
                Ok(known) => {
                    &&& self@.nodes.contains_key(id)
                    &&& is_running(self@.nodes[id])
                    &&& answers
                    &&& known == self@.nodes[id].info
                },
                Err(error) => if self@.nodes.contains_key(id) {
                    &&& !(is_running(self@.nodes[id]) && answers)
                    &&& error@ == links::stopped_fault(id, self@.nodes[id].info.name@)
                } else {
                    error@ == links::not_found_fault("node"@)
                },
            },
    {
        let (info, running) = match self.info(id) {
            Ok(known) => known,
            Err(error) => {
                return Err(error);
            },
        };
        match require_running(info.id, info.name.as_str(), running, answers) {
            Ok(_) => Ok(info),
            Err(error) => Err(error),
        }
    }

    /// The first node that runs.
    pub fn first_running(&self) -> (id: Option<u64>)
        requires
            self.wf(),
        ensures
            match id {
                Some(n) => {
                    &&& running_ids(self@.nodes).contains(n)
                    &&& forall|other: u64| #[trigger]
                        running_ids(self@.nodes).contains(other) ==> n <= other
                },
                None => running_ids(self@.nodes) == Set::<u64>::empty(),
            },
    {
        let mut i: usize = 0;
        proof {
            self.nodes.ranks_list_domain();
        }
        while i < self.nodes.len()
            invariant
                self.wf(),
                self.nodes.wf(),
                self@.nodes == self.nodes@,
                order::lists::<Number>(self.nodes.ranks(), self.nodes@.dom()),
                i <= self.nodes.ranks().len(),
                forall|k: int|
                    0 <= k < i ==> !is_running(self@.nodes[#[trigger] self.nodes.ranks()[k]]),
            decreases self.nodes.ranks().len() - i,
        {
            let node: &ManagedNode = self.nodes.value_at(i);
            if node.has_process && node.info.pid.is_some() {
                let id: u64 = node.info.id;
                proof {
                    let ranks = self.nodes.ranks();
                    assert(ranks[i as int] == id);
                    assert forall|other: u64| #[trigger]
                        running_ids(self@.nodes).contains(other) implies id <= other by {
                        assert(ranks.contains(other));
                        let k = choose|k: int| 0 <= k < ranks.len() && ranks[k] == other;
                        if k > i {
                            assert(Number::before(ranks[i as int], ranks[k]));
                        }
                    }
                }
                return Some(id);
            }
            i = i + 1;
        }
        proof {
            let ranks = self.nodes.ranks();
            assert forall|id: u64| !running_ids(self@.nodes).contains(id) by {
                if running_ids(self@.nodes).contains(id) {
                    assert(ranks.contains(id));
                }
            }
            assert(running_ids(self@.nodes) =~= Set::<u64>::empty());
        }
        None
    }

    /// All nodes and when they were started, by ascending number.
    pub fn all(&self) -> (nodes: Vec<(NodeInfo, u64)>)
        requires
            self.wf(),
        ensures
            nodes@ == order::ascending::<Number>(self@.nodes.dom()).map_values(
                |id: u64| (self@.nodes[id].info, self@.nodes[id].started_offset_ms),
            ),
    {
        let mut list: Vec<(NodeInfo, u64)> = Vec::new();
        let ghost goal = order::ascending::<Number>(self@.nodes.dom()).map_values(
            |id: u64| (self@.nodes[id].info, self@.nodes[id].started_offset_ms),
        );
        let mut i: usize = 0;
        proof {
            self.nodes.ranks_list_domain();
        }
        while i < self.nodes.len()
            invariant
                self.nodes.wf(),
                self.nodes@ == self@.nodes,
                self.nodes.ranks() == order::ascending::<Number>(self@.nodes.dom()),
                goal == order::ascending::<Number>(self@.nodes.dom()).map_values(
                    |id: u64| (self@.nodes[id].info, self@.nodes[id].started_offset_ms),
                ),
                i <= self.nodes.ranks().len(),
                list@ == goal.take(i as int),
            decreases self.nodes.ranks().len() - i,
        {
            let node: &ManagedNode = self.nodes.value_at(i);
            list.push((node.info.clone(), node.started_offset_ms));
            assert(goal.take(i + 1) =~= goal.take(i as int).push(goal[i as int]));
            assert(list@ =~= goal.take(i + 1));
            i = i + 1;
        }
        assert(list@ =~= goal);
        list
    }
}

/// A node whose process was stopped does not run until it is started again,
/// and then runs under the same number and name.
pub proof fn stopped_nodes_can_be_started_again(
    nodes: Map<u64, ManagedNode>,
    id: u64,
    info: NodeInfo,
    started_offset_ms: u64,
)
    requires
        nodes.contains_key(id),
        info.id == id,
        info.name == nodes[id].info.name,
        info.pid is Some,
    ensures
        ({
            let stopped = nodes.insert(
                id,
                ManagedNode {
                    info: NodeInfo { pid: None, ..nodes[id].info },
                    has_process: false,
                    ..nodes[id]
                },
            );
            let started = stopped.insert(
                id,
                ManagedNode { info, has_process: true, started_offset_ms },
            );
            &&& !running_ids(stopped).contains(id)
            &&& running_ids(started).contains(id)
            &&& started.dom() == nodes.dom()
            &&& started[id].info.name == nodes[id].info.name
            &&& forall|other: u64| #[trigger]
                nodes.contains_key(other) && other != id ==> started[other] == nodes[other]
        }),
{
    assert(nodes.dom().insert(id).insert(id) =~= nodes.dom());
}

} // verus!
