//! The decisions of the emulation manager of the leader: which cluster nodes hold a part of
//! each emulation, and whether all of them are ready, at which point the emulation starts.
//! The manager's loop receives the messages, asks `ReadyBoard`, and sends the orders.
use vstd::prelude::*;
use std::collections::HashMap;
use crate::cluster::NodeKey;
use crate::apps::TopologyRejectReason;
use crate::matrix::SymMatrix;
use crate::orchestrator::{Orchestrator, fits_somewhere, round_choice, no_fit, first_clones, reserved, loaded};
use crate::topology::{
    Topology, LinkDecl, EventDecl, XmlItem, parse_topology, xml_items, items_view, topology_spec, node_map, names_unique,
    link_view, event_view,
};

verus! {

broadcast use vstd::std_specs::hash::group_hash_axioms;

/// An emulation, known by the 128 bits of its identifier.
pub type EmulKey = u128;

/// The nodes of `s` with `node` marked ready.
pub open spec fn marked(s: Seq<(NodeKey, bool)>, node: NodeKey) -> Seq<(NodeKey, bool)> {
    s.map_values(|e: (NodeKey, bool)| if e.0 == node { (e.0, true) } else { e })
}

/// Every node of `s` is ready.
pub open spec fn all_ready(s: Seq<(NodeKey, bool)>) -> bool {
    forall|i: int| 0 <= i < s.len() ==> (#[trigger] s[i]).1
}

/// For each emulation, its cluster nodes and whether each is ready.
#[derive(Debug)]
pub struct ReadyBoard {
    pub emulations: HashMap<EmulKey, Vec<(NodeKey, bool)>>,
}

impl ReadyBoard {
    /// No emulation.
    pub fn new() -> (b: ReadyBoard)
        ensures
            b.emulations@ == Map::<EmulKey, Vec<(NodeKey, bool)>>::empty(),
    {
        ReadyBoard { emulations: HashMap::new() }
    }

    /// Records the nodes of a new emulation, none of them ready.
    pub fn register(&mut self, id: EmulKey, nodes: &Vec<NodeKey>)
        ensures
            final(self).emulations@.dom() == old(self).emulations@.dom().insert(id),
            forall|k: EmulKey| k != id && #[trigger] old(self).emulations@.contains_key(k) ==> final(self).emulations@[k]
                == old(self).emulations@[k],
            final(self).emulations@[id]@ == nodes@.map_values(|n: NodeKey| (n, false)),
    {
        let mut v: Vec<(NodeKey, bool)> = Vec::new();
        let mut i: usize = 0;
        while i < nodes.len()
            invariant
                i <= nodes@.len(),
                v@ == nodes@.subrange(0, i as int).map_values(|n: NodeKey| (n, false)),
            decreases nodes@.len() - i,
        {
            v.push((nodes[i], false));
            proof {
                assert(v@ =~= nodes@.subrange(0, i + 1).map_values(|n: NodeKey| (n, false)));
            }
            i = i + 1;
        }
        proof {
            assert(nodes@.subrange(0, nodes@.len() as int) =~= nodes@);
        }
        self.emulations.insert(id, v);
    }

    /// Marks a node of an emulation ready; tells whether all the nodes of the emulation are
    /// ready now.
    pub fn mark_ready(&mut self, id: EmulKey, node: NodeKey) -> (all: bool)
        requires
            old(self).emulations@.contains_key(id),
        ensures
            final(self).emulations@.dom() == old(self).emulations@.dom(),
            forall|k: EmulKey| k != id && #[trigger] old(self).emulations@.contains_key(k) ==> final(self).emulations@[k]
                == old(self).emulations@[k],
            final(self).emulations@[id]@ == marked(old(self).emulations@[id]@, node),
            all == all_ready(marked(old(self).emulations@[id]@, node)),
    {
        let mut nodes = match self.emulations.remove(&id) {
            Some(v) => v,
            None => Vec::new(),
        };
        let ghost before = nodes@;
        let mut all = true;
        let mut i: usize = 0;
        while i < nodes.len()
            invariant
                i <= nodes@.len(),
                nodes@.len() == before.len(),
                forall|k: int| 0 <= k < i ==> #[trigger] nodes@[k] == marked(before, node)[k],
                forall|k: int| i <= k < nodes@.len() ==> #[trigger] nodes@[k] == before[k],
                all == forall|k: int| 0 <= k < i ==> (#[trigger] marked(before, node)[k]).1,
            decreases nodes@.len() - i,
        {
            let (n, r) = nodes[i];
            if n == node {
                nodes.set(i, (n, true));
            } else {
                all = all && r;
            }
            proof {
                assert(marked(before, node)[i as int] == nodes@[i as int]);
                if all {
                    assert forall|k: int| 0 <= k < i + 1 implies (#[trigger] marked(before, node)[k]).1 by {
                        if k == i {
                            assert(nodes@[k] == marked(before, node)[k]);
                        }
                    }
                }
            }
            i = i + 1;
        }
        proof {
            assert(nodes@ =~= marked(before, node));
        }
        self.emulations.insert(id, nodes);
        all
    }

    /// The nodes of an emulation.
    pub fn nodes(&self, id: EmulKey) -> (r: Vec<NodeKey>)
        requires
            self.emulations@.contains_key(id),
        ensures
            r@ == self.emulations@[id]@.map_values(|e: (NodeKey, bool)| e.0),
    {
        let mut r: Vec<NodeKey> = Vec::new();
        match self.emulations.get(&id) {
            Some(v) => {
                let mut i: usize = 0;
                while i < v.len()
                    invariant
                        i <= v@.len(),
                        r@ == v@.subrange(0, i as int).map_values(|e: (NodeKey, bool)| e.0),
                    decreases v@.len() - i,
                {
                    r.push(v[i].0);
                    proof {
                        assert(r@ =~= v@.subrange(0, i + 1).map_values(|e: (NodeKey, bool)| e.0));
                    }
                    i = i + 1;
                }
                proof {
                    assert(v@.subrange(0, v@.len() as int) =~= v@);
                }
            },
            None => {},
        }
        r
    }

    /// Forgets an emulation.
    pub fn remove(&mut self, id: EmulKey)
        ensures
            final(self).emulations@ == old(self).emulations@.remove(id),
    {
        self.emulations.remove(&id);
    }
}

/// The hexadecimal digit of value `d` (below 16), in lower case.
pub open spec fn hex_digit(d: u128) -> char {
    if d < 10 {
        (d + 48) as char
    } else {
        (d - 10 + 97) as char
    }
}

/// The text of a 128-bit identifier: its 32 hexadecimal digits, the most significant first,
/// in lower case, in groups of 8, 4, 4, 4 and 12 joined by hyphens.
pub open spec fn uuid_text(x: u128) -> Seq<char> {
    Seq::new(
        36,
        |i: int|
            if i == 8 || i == 13 || i == 18 || i == 23 {
                '-'
            } else {
                let j = if i < 8 {
                    i
                } else if i < 13 {
                    i - 1
                } else if i < 18 {
                    i - 2
                } else if i < 23 {
                    i - 3
                } else {
                    i - 4
                };
                hex_digit((x >> ((4 * (31 - j)) as u128)) & 0xf)
            },
    )
}

/// `uuid::Uuid::new_v4`, as its 128 bits: a random identifier of version 4, whose version
/// bits read 4 and variant bits read `10`. Which identifier comes is left open.
#[verifier::external_body]
fn new_emulation_id() -> (id: EmulKey)
    ensures
        (id >> 76u128) & 0xf == 4,
        (id >> 62u128) & 0x3 == 2,
{
    uuid::Uuid::new_v4().as_u128()
}

/// `uuid::Uuid::from_u128` then `to_string`: the hyphenated lower-case text of the
/// identifier.
#[verifier::external_body]
fn emulation_id_text(id: EmulKey) -> (t: String)
    ensures
        t@ == uuid_text(id),
{
    uuid::Uuid::from_u128(id).to_string()
}

/// What the emulation manager of the leader receives.
#[derive(Debug)]
pub enum ManagerEvent {
    /// A client submits a topology file.
    NewTopology { text: String },
    /// The network of a submitted topology was built; `apps` holds the bandwidth between
    /// its applications.
    NetworkBuilt { id: EmulKey, apps: SymMatrix<u32> },
    /// Sending the emulation to its hosts succeeded or failed.
    SendResult { id: EmulKey, ok: bool },
    /// An emulation must stop.
    Abort { id: EmulKey },
    /// An application of an emulation stopped cleanly on a host.
    CleanStop { id: EmulKey, node: NodeKey, app_index: usize },
    /// A host has set up its part of an emulation.
    EmulationReady { id: EmulKey, node: NodeKey },
}

/// What the emulation manager's loop must do.
#[derive(Debug)]
pub enum ManagerAction {
    /// Refuse the submitted topology.
    Rejected(TopologyRejectReason),
    /// Tell the client its topology is accepted.
    Accepted,
    /// Build the network of the parsed topology (its bandwidths and delays are decimal
    /// numbers) and come back with `NetworkBuilt`.
    BuildNetwork(EmulKey, Topology),
    /// Send the emulation to the hosts of the placement (application `a` on host
    /// `placement[a]`) and come back with `SendResult`.
    SendEmulation(EmulKey, Vec<usize>),
    /// Tell these hosts to stop the emulation.
    Abort(EmulKey, Vec<NodeKey>),
    /// Tell these hosts to start the emulation.
    Start(EmulKey, Vec<NodeKey>),
    /// Answer nothing.
    ReplyNone,
}

/// `a` answers the submission of the text `text` parsed under the identifier `id`, whose
/// text is `id_text`: a bad file when the document is not a topology, else the parsed
/// topology to build.
pub open spec fn topology_outcome(text: Seq<char>, id_text: Seq<char>, id: EmulKey, a: ManagerAction) -> bool {
    match xml_items(text) {
        None => a matches ManagerAction::Rejected(TopologyRejectReason::BadFile(_)),
        Some(iv) => exists|items: Seq<XmlItem>|
            #[trigger] items_view(items) == iv && match topology_spec(items, id_text) {
                None => a matches ManagerAction::Rejected(TopologyRejectReason::BadFile(_)),
                Some((m, ls, es)) => a matches ManagerAction::BuildNetwork(eid, t) && eid == id && node_map(t.nodes@) == m
                    && names_unique(t.nodes@) && t.links@.map_values(|l: LinkDecl| link_view(l)) == ls
                    && t.schedule@.map_values(|e: EventDecl| event_view(e)) == es,
            },
    }
}

/// `entries` are the hosts of `placement`, once each, none ready yet.
pub open spec fn placement_hosts(entries: Seq<(NodeKey, bool)>, placement: Seq<usize>) -> bool {
    &&& forall|i: int| 0 <= i < entries.len() ==> !(#[trigger] entries[i]).1
    &&& forall|i: int, j: int| 0 <= i < j < entries.len() ==> #[trigger] entries[i].0 != #[trigger] entries[j].0
    &&& forall|i: int| 0 <= i < entries.len() ==> hosted(placement, (#[trigger] entries[i]).0)
    &&& forall|a: int| 0 <= a < placement.len() ==> listed(entries, (#[trigger] placement[a]) as NodeKey)
}

/// Some application of `placement` runs on host `x`.
pub open spec fn hosted(placement: Seq<usize>, x: NodeKey) -> bool {
    exists|a: int| 0 <= a < placement.len() && #[trigger] placement[a] as NodeKey == x
}

/// Host `x` has an entry in `entries`.
pub open spec fn listed(entries: Seq<(NodeKey, bool)>, x: NodeKey) -> bool {
    exists|i: int| 0 <= i < entries.len() && (#[trigger] entries[i]).0 == x
}

/// The hosts of a placement, once each, in the order they first come.
fn distinct_hosts(placement: &Vec<usize>) -> (r: Vec<NodeKey>)
    ensures
        forall|i: int, j: int| 0 <= i < j < r@.len() ==> #[trigger] r@[i] != #[trigger] r@[j],
        forall|x: NodeKey| r@.contains(x) <==> (exists|a: int| 0 <= a < placement@.len() && #[trigger] placement@[a] as NodeKey == x),
{
    let mut r: Vec<NodeKey> = Vec::new();
    let mut a: usize = 0;
    while a < placement.len()
        invariant
            a <= placement@.len(),
            forall|i: int, j: int| 0 <= i < j < r@.len() ==> #[trigger] r@[i] != #[trigger] r@[j],
            forall|x: NodeKey| r@.contains(x) <==> (exists|b: int| 0 <= b < a && #[trigger] placement@[b] as NodeKey == x),
        decreases placement@.len() - a,
    {
        let h = placement[a] as NodeKey;
        let mut found = false;
        let mut i: usize = 0;
        while i < r.len()
            invariant
                i <= r@.len(),
                found <==> exists|q: int| 0 <= q < i && r@[q] == h,
            decreases r@.len() - i,
        {
            if r[i] == h {
                found = true;
            }
            i = i + 1;
        }
        let ghost before = r@;
        if !found {
            r.push(h);
            proof {
                assert forall|p: int, q: int| 0 <= p < q < r@.len() implies #[trigger] r@[p] != #[trigger] r@[q] by {
                    if q == before.len() {
                        assert(r@[p] == before[p]);
                    } else {
                        assert(r@[p] == before[p] && r@[q] == before[q]);
                    }
                }
            }
        }
        proof {
            assert forall|x: NodeKey| r@.contains(x) <==> (exists|b: int| 0 <= b < a + 1 && #[trigger] placement@[b] as NodeKey == x) by {
                if r@.contains(x) && x != h {
                    let q = choose|q: int| 0 <= q < r@.len() && r@[q] == x;
                    assert(before.contains(x)) by {
                        assert(before[q] == x);
                    }
                }
                if before.contains(x) {
                    let q = choose|q: int| 0 <= q < before.len() && before[q] == x;
                    assert(r@[q] == x);
                }
                if x == h {
                    assert(placement@[a as int] as NodeKey == x);
                    if !found {
                        assert(r@[before.len() as int] == h);
                    } else {
                        let q = choose|q: int| 0 <= q < before.len() && before[q] == h;
                        assert(r@[q] == h);
                    }
                }
            }
        }
        a = a + 1;
    }
    r
}

/// A list of distinct hosts that are exactly those of a placement gives, none ready, the
/// entries of that placement.
proof fn lemma_placement_entries(hosts: Seq<NodeKey>, placement: Seq<usize>)
    requires
        forall|i: int, j: int| 0 <= i < j < hosts.len() ==> #[trigger] hosts[i] != #[trigger] hosts[j],
        forall|x: NodeKey| hosts.contains(x) <==> (exists|a: int| 0 <= a < placement.len() && #[trigger] placement[a] as NodeKey == x),
    ensures
        placement_hosts(hosts.map_values(|n: NodeKey| (n, false)), placement),
{
    let e = hosts.map_values(|n: NodeKey| (n, false));
    assert forall|i: int| 0 <= i < e.len() implies !(#[trigger] e[i]).1 by {}
    assert forall|i: int, j: int| 0 <= i < j < e.len() implies #[trigger] e[i].0 != #[trigger] e[j].0 by {
        assert(e[i].0 == hosts[i] && e[j].0 == hosts[j]);
    }
    assert forall|i: int| 0 <= i < e.len() implies hosted(placement, (#[trigger] e[i]).0) by {
        assert(hosts.contains(hosts[i]));
    }
    assert forall|a: int| 0 <= a < placement.len() implies listed(e, (#[trigger] placement[a]) as NodeKey) by {
        let x = placement[a] as NodeKey;
        assert(hosts.contains(x));
        let i = choose|i: int| 0 <= i < hosts.len() && hosts[i] == x;
        assert(e[i].0 == x);
    }
    assert(placement_hosts(e, placement));
}

/// Decides what the emulation manager does on an event, keeping the board of the
/// emulations' hosts: a submitted topology is refused as a bad file exactly when it does not
/// parse, else built; a built network is refused with no deployment exactly when no
/// placement of its applications fits, else the orchestrator takes the emulation's bandwidth
/// and load, the board records the hosts used and the emulation is sent; an abort stops and
/// forgets an emulation; the last host to be ready starts it.
pub fn manager_step(board: &mut ReadyBoard, orch: &mut Orchestrator, event: ManagerEvent) -> (a: ManagerAction)
    requires
        old(orch).wf(),
        match event {
            ManagerEvent::NetworkBuilt { id, apps } => apps.wf() && old(orch).residual().len() * (apps@.len() + 7) + apps@.len()
                < usize::MAX,
            ManagerEvent::Abort { id } => old(board).emulations@.contains_key(id),
            ManagerEvent::EmulationReady { id, node } => old(board).emulations@.contains_key(id) && listed(
                old(board).emulations@[id]@,
                node,
            ),
            _ => true,
        },
    ensures
        final(orch).wf(),
        final(orch).load_limit() == old(orch).load_limit(),
        !(event is NetworkBuilt) ==> *final(orch) == *old(orch),
        match event {
            ManagerEvent::NewTopology { text } => {
                &&& final(board).emulations@ == old(board).emulations@
                &&& exists|id: EmulKey|
                    (id >> 76u128) & 0xf == 4 && (id >> 62u128) & 0x3 == 2 && #[trigger] topology_outcome(text@, uuid_text(id), id, a)
            },
            ManagerEvent::NetworkBuilt { id, apps } => match a {
                ManagerAction::SendEmulation(i, placement) => {
                    &&& i == id
                    &&& (apps@.len() == 0 && placement@.len() == 0 || fits_somewhere(
                        old(orch).residual(),
                        old(orch).host_loads(),
                        old(orch).load_limit(),
                        apps@,
                        placement@,
                    ))
                    &&& final(orch).residual() == reserved(old(orch).residual(), apps@, placement@)
                    &&& final(orch).host_loads() == loaded(old(orch).host_loads(), placement@)
                    &&& final(orch).recorded() == old(orch).recorded().push((id, apps@, placement@))
                    &&& final(board).emulations@.dom() == old(board).emulations@.dom().insert(id)
                    &&& forall|k: EmulKey| k != id && #[trigger] old(board).emulations@.contains_key(k)
                        ==> final(board).emulations@[k] == old(board).emulations@[k]
                    &&& placement_hosts(final(board).emulations@[id]@, placement@)
                },
                ManagerAction::Rejected(TopologyRejectReason::NoDeploymentFound) => {
                    &&& apps@.len() >= 1
                    &&& final(board).emulations@ == old(board).emulations@
                    &&& final(orch).residual() == old(orch).residual()
                    &&& final(orch).host_loads() == old(orch).host_loads()
                    &&& final(orch).recorded() == old(orch).recorded()
                    &&& forall|d: nat, c: Seq<usize>|
                        d < 5 && #[trigger] round_choice(
                            old(orch).residual().len(),
                            first_clones(apps@.len(), old(orch).residual().len()) + d,
                            apps@.len(),
                            c,
                        ) ==> no_fit(old(orch).residual(), old(orch).host_loads(), old(orch).load_limit(), apps@, c)
                },
                _ => false,
            },
            ManagerEvent::SendResult { id, ok } => {
                &&& final(board).emulations@ == old(board).emulations@
                &&& if ok {
                    a is Accepted
                } else {
                    a matches ManagerAction::Rejected(TopologyRejectReason::NoDeploymentFound)
                }
            },
            ManagerEvent::Abort { id } => {
                &&& final(board).emulations@ == old(board).emulations@.remove(id)
                &&& a matches ManagerAction::Abort(i, nodes) && i == id && nodes@ == old(board).emulations@[id]@.map_values(
                    |e: (NodeKey, bool)| e.0,
                )
            },
            ManagerEvent::CleanStop { id, node, app_index } => {
                &&& final(board).emulations@ == old(board).emulations@
                &&& a is ReplyNone
            },
            ManagerEvent::EmulationReady { id, node } => {
                let marked_nodes = crate::omanager::marked(old(board).emulations@[id]@, node);
                &&& final(board).emulations@.dom() == old(board).emulations@.dom()
                &&& forall|k: EmulKey| k != id && #[trigger] old(board).emulations@.contains_key(k)
                    ==> final(board).emulations@[k] == old(board).emulations@[k]
                &&& final(board).emulations@[id]@ == marked_nodes
                &&& if all_ready(marked_nodes) {
                    a matches ManagerAction::Start(i, nodes) && i == id && nodes@ == marked_nodes.map_values(
                        |e: (NodeKey, bool)| e.0,
                    )
                } else {
                    a is ReplyNone
                }
            },
        },
{
    match event {
        ManagerEvent::NewTopology { text } => {
            let id = new_emulation_id();
            let id_text = emulation_id_text(id);
            match parse_topology(text.as_str(), id_text.as_str()) {
                Err(e) => {
                    let a = ManagerAction::Rejected(TopologyRejectReason::BadFile(e.text()));
                    proof {
                        assert(topology_outcome(text@, uuid_text(id), id, a));
                    }
                    a
                },
                Ok(t) => {
                    let a = ManagerAction::BuildNetwork(id, t);
                    proof {
                        assert(topology_outcome(text@, uuid_text(id), id, a));
                    }
                    a
                },
            }
        },
        ManagerEvent::NetworkBuilt { id, apps } => {
            match orch.new_emulation(id, apps) {
                Ok(Some(placement)) => {
                    let hosts = distinct_hosts(&placement);
                    board.register(id, &hosts);
                    proof {
                        lemma_placement_entries(hosts@, placement@);
                    }
                    ManagerAction::SendEmulation(id, placement)
                },
                _ => ManagerAction::Rejected(TopologyRejectReason::NoDeploymentFound),
            }
        },
        ManagerEvent::SendResult { id, ok } => {
            if ok {
                ManagerAction::Accepted
            } else {
                ManagerAction::Rejected(TopologyRejectReason::NoDeploymentFound)
            }
        },
        ManagerEvent::Abort { id } => {
            let nodes = board.nodes(id);
            board.remove(id);
            ManagerAction::Abort(id, nodes)
        },
        ManagerEvent::CleanStop { id, node, app_index } => ManagerAction::ReplyNone,
        ManagerEvent::EmulationReady { id, node } => {
            let all = board.mark_ready(id, node);
            if all {
                let nodes = board.nodes(id);
                ManagerAction::Start(id, nodes)
            } else {
                ManagerAction::ReplyNone
            }
        },
    }
}

} // verus!
