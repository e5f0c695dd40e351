//! The decisions of the cluster controller: joining a cluster, accepting nodes into it,
//! and counting the heartbeats that nodes miss. The controller's loop receives an event,
//! asks `CtrlState::step` what to do, and does it (replying, sending, waiting).
use vstd::prelude::*;
use std::collections::HashMap;

verus! {

broadcast use vstd::std_specs::hash::group_hash_axioms;

/// A node of the cluster, known by its address: the IPv4 address in the high bits, the
/// port in the low 16 bits.
pub type NodeKey = u64;

/// The limits the controller works with.
#[derive(Clone, Copy, Debug)]
pub struct CtrlLimits {
    /// How many times a node asks to join a cluster without an answer before giving up.
    pub cjq_retry: usize,
    /// How many heartbeats in a row a node may miss before it is taken out of the cluster.
    pub heartbeat_misses: usize,
}

/// What the controller keeps from one event to the next.
#[derive(Debug)]
pub struct CtrlState {
    /// This node leads the cluster.
    pub is_leader: bool,
    /// The leader is adding a node to the cluster.
    pub adding_new_node: bool,
    /// How many joining requests may still go unanswered.
    pub cjq_remaining: usize,
    /// The heartbeats each node has missed in a row.
    pub heartbeat_misses: HashMap<NodeKey, usize>,
}

/// An event, with what the controller's loop learnt of it.
#[derive(Clone, Copy, Debug)]
pub enum CtrlEvent {
    /// A node asks for the cluster graph.
    CGraphGet,
    /// A new cluster graph, once a node was added.
    CGraphUpdate,
    /// The leader accepted this node into its cluster.
    CJQAccepted,
    /// The leader asks this node to wait before asking again.
    CJQWait,
    /// A node asks to join; `known` tells whether the cluster graph holds it already.
    CJQRequest { node: NodeKey, known: bool },
    /// The node being added gave up.
    CJQAbort,
    /// Time to ask again to join a cluster.
    CJQRetry,
    /// A heartbeat; `same_cluster` tells whether it names the cluster of this node.
    CHeartbeat { same_cluster: bool },
    /// A node did not answer a heartbeat.
    NodeFailure { node: NodeKey },
    /// Every node answered: the counts start again.
    CHeartbeatReset,
    /// Time to check the heartbeats.
    CHeartbeatCheck,
    /// A node asks for a performance test.
    PClient,
    /// An event that this loop does not handle.
    Other,
}

/// What the controller's loop must do.
#[derive(Clone, Copy, Debug, PartialEq, Eq)]
pub enum CtrlAction {
    /// Send the cluster graph back.
    SendGraph,
    /// Take the new cluster graph, tell who follows it, and answer nothing.
    ReplaceGraph,
    /// Add this node to the cluster of the leader that accepted it.
    AddMyself,
    /// Ask again to join after the time the leader gave.
    RetryLater,
    /// Answer the joining node that it must wait.
    ReplyWait,
    /// Answer the joining node that it is accepted.
    ReplyAccepted,
    /// Answer nothing.
    ReplyNone,
    /// Send a joining request.
    SendJoiningRequest,
    /// Stop: no cluster answered.
    GiveUp,
    /// Answer the heartbeat.
    ReplyHeartbeat,
    /// Take the node out of the cluster graph, tell who follows it, and answer nothing.
    RemoveNode(NodeKey),
    /// Check the heartbeats of the nodes.
    CheckHeartbeats,
    /// Start the performance test server and answer with its address.
    LaunchPerfServer,
    /// Nothing to do.
    Ignore,
}

impl CtrlState {
    /// No count of missed heartbeats is at the largest value.
    pub open spec fn wf(&self) -> bool {
        forall|k: NodeKey| #[trigger] self.heartbeat_misses@.contains_key(k) ==> self.heartbeat_misses@[k] < usize::MAX
    }

    /// A controller that has done nothing yet.
    pub fn new(is_leader: bool, limits: &CtrlLimits) -> (s: CtrlState)
        ensures
            s.wf(),
            s.is_leader == is_leader,
            !s.adding_new_node,
            s.cjq_remaining == limits.cjq_retry,
            s.heartbeat_misses@ == Map::<NodeKey, usize>::empty(),
    {
        CtrlState { is_leader, adding_new_node: false, cjq_remaining: limits.cjq_retry, heartbeat_misses: HashMap::new() }
    }

    /// Decides what to do on an event, and changes the state accordingly.
    pub fn step(&mut self, limits: &CtrlLimits, event: CtrlEvent) -> (a: CtrlAction)
        requires
            old(self).wf(),
        ensures
            final(self).wf(),
            final(self).is_leader == old(self).is_leader,
            match event {
                CtrlEvent::CGraphGet => a == CtrlAction::SendGraph && *final(self) == *old(self),
                CtrlEvent::CGraphUpdate => {
                    &&& a == CtrlAction::ReplaceGraph
                    &&& !final(self).adding_new_node
                    &&& final(self).cjq_remaining == old(self).cjq_remaining
                    &&& final(self).heartbeat_misses@ == old(self).heartbeat_misses@
                },
                CtrlEvent::CJQAccepted => {
                    &&& a == CtrlAction::AddMyself
                    &&& final(self).cjq_remaining == limits.cjq_retry
                    &&& final(self).adding_new_node == old(self).adding_new_node
                    &&& final(self).heartbeat_misses@ == old(self).heartbeat_misses@
                },
                CtrlEvent::CJQWait => {
                    &&& a == CtrlAction::RetryLater
                    &&& final(self).cjq_remaining == limits.cjq_retry
                    &&& final(self).adding_new_node == old(self).adding_new_node
                    &&& final(self).heartbeat_misses@ == old(self).heartbeat_misses@
                },
                CtrlEvent::CJQRequest { node, known } => {
                    &&& final(self).cjq_remaining == old(self).cjq_remaining
                    &&& if !old(self).is_leader {
                        a == CtrlAction::ReplyNone && *final(self) == *old(self)
                    } else if old(self).adding_new_node {
                        a == CtrlAction::ReplyWait && *final(self) == *old(self)
                    } else {
                        &&& a == CtrlAction::ReplyAccepted
                        &&& final(self).adding_new_node
                        &&& final(self).heartbeat_misses@ == if known {
                            old(self).heartbeat_misses@.remove(node)
                        } else {
                            old(self).heartbeat_misses@
                        }
                    }
                },
                CtrlEvent::CJQAbort => {
                    &&& a == CtrlAction::ReplyNone
                    &&& !final(self).adding_new_node
                    &&& final(self).cjq_remaining == old(self).cjq_remaining
                    &&& final(self).heartbeat_misses@ == old(self).heartbeat_misses@
                },
                CtrlEvent::CJQRetry => {
                    &&& final(self).adding_new_node == old(self).adding_new_node
                    &&& final(self).heartbeat_misses@ == old(self).heartbeat_misses@
                    &&& if old(self).cjq_remaining > 0 {
                        a == CtrlAction::SendJoiningRequest && final(self).cjq_remaining == old(self).cjq_remaining - 1
                    } else {
                        a == CtrlAction::GiveUp && final(self).cjq_remaining == 0
                    }
                },
                CtrlEvent::CHeartbeat { same_cluster } => {
                    &&& a == (if same_cluster {
                        CtrlAction::ReplyHeartbeat
                    } else {
                        CtrlAction::ReplyNone
                    })
                    &&& *final(self) == *old(self)
                },
                CtrlEvent::NodeFailure { node } => {
                    let m = old(self).heartbeat_misses@;
                    &&& final(self).adding_new_node == old(self).adding_new_node
                    &&& final(self).cjq_remaining == old(self).cjq_remaining
                    &&& if !m.contains_key(node) {
                        a == CtrlAction::ReplyNone && final(self).heartbeat_misses@ == m.insert(node, 1)
                    } else if m[node] + 1 >= limits.heartbeat_misses {
                        a == CtrlAction::RemoveNode(node) && final(self).heartbeat_misses@ == m.remove(node)
                    } else {
                        a == CtrlAction::ReplyNone && final(self).heartbeat_misses@ == m.insert(node, (m[node] + 1) as usize)
                    }
                },
                CtrlEvent::CHeartbeatReset => {
                    &&& a == CtrlAction::ReplyNone
                    &&& final(self).adding_new_node == old(self).adding_new_node
                    &&& final(self).cjq_remaining == old(self).cjq_remaining
                    &&& final(self).heartbeat_misses@ == Map::<NodeKey, usize>::empty()
                },
                CtrlEvent::CHeartbeatCheck => {
                    &&& a == (if old(self).is_leader {
                        CtrlAction::CheckHeartbeats
                    } else {
                        CtrlAction::Ignore
                    })
                    &&& *final(self) == *old(self)
                },
                CtrlEvent::PClient => a == CtrlAction::LaunchPerfServer && *final(self) == *old(self),
                CtrlEvent::Other => a == CtrlAction::Ignore && *final(self) == *old(self),
            },
    {
        match event {
            CtrlEvent::CGraphGet => CtrlAction::SendGraph,
            CtrlEvent::CGraphUpdate => {
                self.adding_new_node = false;
                CtrlAction::ReplaceGraph
            },
            CtrlEvent::CJQAccepted => {
                self.cjq_remaining = limits.cjq_retry;
                CtrlAction::AddMyself
            },
            CtrlEvent::CJQWait => {
                self.cjq_remaining = limits.cjq_retry;
                CtrlAction::RetryLater
            },
            CtrlEvent::CJQRequest { node, known } => {
                if !self.is_leader {
                    CtrlAction::ReplyNone
                } else if self.adding_new_node {
                    CtrlAction::ReplyWait
                } else {
                    if known {
                        self.heartbeat_misses.remove(&node);
                    }
                    self.adding_new_node = true;
                    CtrlAction::ReplyAccepted
                }
            },
            CtrlEvent::CJQAbort => {
                self.adding_new_node = false;
                CtrlAction::ReplyNone
            },
            CtrlEvent::CJQRetry => {
                if self.cjq_remaining > 0 {
                    self.cjq_remaining = self.cjq_remaining - 1;
                    CtrlAction::SendJoiningRequest
                } else {
                    CtrlAction::GiveUp
                }
            },
            CtrlEvent::CHeartbeat { same_cluster } => {
                if same_cluster {
                    CtrlAction::ReplyHeartbeat
                } else {
                    CtrlAction::ReplyNone
                }
            },
            CtrlEvent::NodeFailure { node } => {
                match self.heartbeat_misses.get(&node) {
                    Some(missed) => {
                        let missed = *missed;
                        if missed + 1 >= limits.heartbeat_misses {
                            self.heartbeat_misses.remove(&node);
                            CtrlAction::RemoveNode(node)
                        } else {
                            self.heartbeat_misses.insert(node, missed + 1);
                            CtrlAction::ReplyNone
                        }
                    },
                    None => {
                        self.heartbeat_misses.insert(node, 1);
                        CtrlAction::ReplyNone
                    },
                }
            },
            CtrlEvent::CHeartbeatReset => {
                self.heartbeat_misses.clear();
                CtrlAction::ReplyNone
            },
            CtrlEvent::CHeartbeatCheck => {
                if self.is_leader {
                    CtrlAction::CheckHeartbeats
                } else {
                    CtrlAction::Ignore
                }
            },
            CtrlEvent::PClient => CtrlAction::LaunchPerfServer,
            CtrlEvent::Other => CtrlAction::Ignore,
        }
    }
}

} // verus!
