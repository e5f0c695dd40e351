//! The decisions of the emulation core: the bandwidth a reported flow may target, what an
//! application event does to the application, and the flows to drop when an application
//! leaves. The core's loop receives the messages, asks these functions, and does the I/O
//! (traffic control updates, broadcasts, stopping containers).
use vstd::prelude::*;
use vstd::laws_eq::obeys_concrete_eq;
use crate::apps::{AppStatus, ApplicationKind, EventAction, Flow};
use crate::bwsync::{remove_flow, contains_flow, first_match, without, replaced_all, divided, bandwidth_graph, flow_mapped, all_mapped, lemma_removal_mapped};
use crate::netgraph::{Link, Network};

verus! {

/// The bandwidth a flow may target: nothing when the flow ended, else what it asks for,
/// but no more than the path allows.
pub fn target_bandwidth(throughput: Option<u32>, max_bandwidth: u32) -> (t: u32)
    ensures
        t == match throughput {
            None => 0,
            Some(bw) => if bw <= max_bandwidth {
                bw
            } else {
                max_bandwidth
            },
        },
{
    match throughput {
        None => 0,
        Some(bw) => if bw <= max_bandwidth {
            bw
        } else {
            max_bandwidth
        },
    }
}

/// What the core must do for an application event.
#[derive(Clone, Copy, Debug, PartialEq, Eq)]
pub enum AppStep {
    /// Set the traffic control of the application towards every other application.
    InitPaths,
    /// Reconnect the application.
    Reconnect,
    /// Nothing.
    Nothing,
    /// Remove the flows of the application and disconnect it.
    Disconnect,
    /// Remove the flows of the application, disconnect it, and stop its container, which
    /// the core started.
    DisconnectAndStop,
}

/// The core started the container of this application, and may stop it: a container made
/// from an image.
pub fn controls_container(kind: &ApplicationKind) -> (b: bool)
    ensures
        b == match kind {
            ApplicationKind::BareMetal => false,
            ApplicationKind::Container(c) => c.image_view() is Some,
        },
{
    match kind {
        ApplicationKind::BareMetal => false,
        ApplicationKind::Container(c) => c.image().is_some(),
    }
}

/// The new status of an application and what to do, on an event: a join initialises a new
/// application and reconnects a stopped one; a quit stops it; a crash marks it crashed.
pub fn app_event_step(status: AppStatus, action: EventAction, kind: &ApplicationKind) -> (r: (AppStatus, AppStep))
    ensures
        r == match action {
            EventAction::Join => match status {
                AppStatus::NotInit => (AppStatus::Running, AppStep::InitPaths),
                AppStatus::Stopped => (AppStatus::Running, AppStep::Reconnect),
                _ => (status, AppStep::Nothing),
            },
            EventAction::Quit => (AppStatus::Stopped, AppStep::Disconnect),
            EventAction::Crash => (
                AppStatus::Crashed,
                if kind matches ApplicationKind::Container(c) && c.image_view() is Some {
                    AppStep::DisconnectAndStop
                } else {
                    AppStep::Disconnect
                },
            ),
        },
{
    match action {
        EventAction::Join => match status {
            AppStatus::NotInit => (AppStatus::Running, AppStep::InitPaths),
            AppStatus::Stopped => (AppStatus::Running, AppStep::Reconnect),
            _ => (status, AppStep::Nothing),
        },
        EventAction::Quit => (AppStatus::Stopped, AppStep::Disconnect),
        EventAction::Crash => {
            if controls_container(kind) {
                (AppStatus::Crashed, AppStep::DisconnectAndStop)
            } else {
                (AppStatus::Crashed, AppStep::Disconnect)
            }
        },
    }
}

/// The `n` first flows of `s` that leave from `app`, in order.
pub open spec fn leaving<T>(s: Seq<Flow<T>>, app: T, n: nat) -> Seq<Flow<T>>
    decreases n,
{
    if n == 0 {
        seq![]
    } else {
        let rest = leaving(s, app, (n - 1) as nat);
        if s[n - 1].source == app {
            rest.push(s[n - 1])
        } else {
            rest
        }
    }
}

/// The active flows that leave from `app`.
pub fn flows_from<T: Copy + PartialEq>(active_flows: &Vec<Flow<T>>, app: &T) -> (r: Vec<Flow<T>>)
    requires
        obeys_concrete_eq::<T>(),
    ensures
        r@ == leaving(active_flows@, *app, active_flows@.len()),
{
    proof {
        reveal(obeys_concrete_eq);
    }
    let mut r: Vec<Flow<T>> = Vec::new();
    let mut j: usize = 0;
    while j < active_flows.len()
        invariant
            j <= active_flows@.len(),
            obeys_concrete_eq::<T>(),
            r@ == leaving(active_flows@, *app, j as nat),
        decreases active_flows@.len() - j,
    {
        proof {
            reveal(obeys_concrete_eq);
        }
        if active_flows[j].source == *app {
            r.push(active_flows[j]);
        }
        j = j + 1;
    }
    r
}

/// The flows leaving an application are active flows.
proof fn lemma_leaving_mapped<T: Copy + PartialEq>(net: Network<T>, s: Seq<Flow<T>>, app: T, n: nat)
    requires
        n <= s.len(),
        all_mapped(net, s),
    ensures
        all_mapped(net, leaving(s, app, n)),
    decreases n,
{
    if n > 0 {
        lemma_leaving_mapped(net, s, app, (n - 1) as nat);
        let rest = leaving(s, app, (n - 1) as nat);
        assert forall|j: int| 0 <= j < leaving(s, app, n).len() implies flow_mapped(net, #[trigger] leaving(s, app, n)[j]) by {
            if j < rest.len() {
                assert(leaving(s, app, n)[j] == rest[j]);
            } else {
                assert(flow_mapped(net, s[n - 1]));
            }
        }
    }
}

/// One removal of `remove_all_flows_from`: `a1` and `g1` follow from `a0` and `g0` when the
/// flow `f` is taken out (when `a0` holds it) with `remove_flow`.
pub open spec fn removal_step<T: Copy + PartialEq, F: Fn(Link<T>, Vec<Flow<T>>) -> Vec<Flow<T>>>(
    graph: Network<T>,
    distribute: F,
    a0: Seq<Flow<T>>,
    g0: Network<T>,
    f: Flow<T>,
    a1: Seq<Flow<T>>,
    g1: Network<T>,
) -> bool {
    if first_match(a0, f, a0.len()) is Some {
        &&& exists|out: Seq<Flow<T>>|
            #[trigger] divided(graph, f, without(a0, f, a0.len()), distribute, out) && a1 == replaced_all(
                without(a0, f, a0.len()),
                out,
                out.len(),
            )
        &&& bandwidth_graph(graph, a1, g1)
    } else {
        a1 == a0 && g1 == g0
    }
}

/// Takes out of the active flows, one after the other, each flow that leaves from `app`
/// (the flows `flows_from` gives), sharing the links again after each removal.
pub fn remove_all_flows_from<T: Copy + PartialEq, F: Fn(Link<T>, Vec<Flow<T>>) -> Vec<Flow<T>> + Copy>(
    active_flows: Vec<Flow<T>>,
    bw_graph: Network<T>,
    app: &T,
    graph: &Network<T>,
    distribute: F,
) -> (r: (Vec<Flow<T>>, Network<T>))
    requires
        graph.wf(),
        obeys_concrete_eq::<T>(),
        forall|j: int| 0 <= j < active_flows@.len() ==> flow_mapped(*graph, #[trigger] active_flows@[j]),
        forall|l: Link<T>, v: Vec<Flow<T>>| #[trigger] distribute.requires((l, v)),
        forall|l: Link<T>, v: Vec<Flow<T>>, o: Vec<Flow<T>>|
            #[trigger] distribute.ensures((l, v), o) ==> all_mapped(*graph, o@),
    ensures
        exists|steps: Seq<(Seq<Flow<T>>, Network<T>)>| {
            let gone = leaving(active_flows@, *app, active_flows@.len());
            &&& #[trigger] steps.len() == gone.len() + 1
            &&& steps[0] == (active_flows@, bw_graph)
            &&& steps.last() == (r.0@, r.1)
            &&& forall|i: int|
                0 <= i < gone.len() ==> removal_step(
                    *graph,
                    distribute,
                    steps[i].0,
                    steps[i].1,
                    #[trigger] gone[i],
                    steps[i + 1].0,
                    steps[i + 1].1,
                )
        },
{
    let to_remove = flows_from(&active_flows, app);
    proof {
        lemma_leaving_mapped(*graph, active_flows@, *app, active_flows@.len());
    }
    let mut active = active_flows;
    let mut bw = bw_graph;
    let ghost a_start = active@;
    let ghost mut steps: Seq<(Seq<Flow<T>>, Network<T>)> = seq![(active@, bw)];
    let mut i: usize = 0;
    while i < to_remove.len()
        invariant
            i <= to_remove@.len(),
            graph.wf(),
            obeys_concrete_eq::<T>(),
            forall|l: Link<T>, v: Vec<Flow<T>>| #[trigger] distribute.requires((l, v)),
            forall|l: Link<T>, v: Vec<Flow<T>>, o: Vec<Flow<T>>|
                #[trigger] distribute.ensures((l, v), o) ==> all_mapped(*graph, o@),
            to_remove@ == leaving(a_start, *app, a_start.len()),
            forall|j: int| 0 <= j < to_remove@.len() ==> flow_mapped(*graph, #[trigger] to_remove@[j]),
            forall|j: int| 0 <= j < active@.len() ==> flow_mapped(*graph, #[trigger] active@[j]),
            steps.len() == i + 1,
            steps[0] == (a_start, bw_graph),
            steps[i as int] == (active@, bw),
            forall|k: int|
                0 <= k < i ==> removal_step(
                    *graph,
                    distribute,
                    steps[k].0,
                    steps[k].1,
                    #[trigger] to_remove@[k],
                    steps[k + 1].0,
                    steps[k + 1].1,
                ),
        decreases to_remove@.len() - i,
    {
        let mut f = to_remove[i];
        let ghost a0 = active@;
        let ghost g0 = bw;
        if contains_flow(&active, &f) {
            let ghost f0 = f;
            let (a1, g1) = remove_flow(active, &mut f, graph, distribute);
            proof {
                let out = choose|out: Seq<Flow<T>>|
                    #[trigger] divided(*graph, f0, without(a0, f0, a0.len()), distribute, out) && a1@ == replaced_all(
                        without(a0, f0, a0.len()),
                        out,
                        out.len(),
                    );
                lemma_removal_mapped(*graph, f0, a0, distribute, out);
            }
            active = a1;
            bw = g1;
        }
        proof {
            steps = steps.push((active@, bw));
            assert(removal_step(*graph, distribute, a0, g0, to_remove@[i as int], active@, bw));
            assert forall|k: int|
                0 <= k < i + 1 implies removal_step(
                    *graph,
                    distribute,
                    steps[k].0,
                    steps[k].1,
                    #[trigger] to_remove@[k],
                    steps[k + 1].0,
                    steps[k + 1].1,
                ) by {
                if k < i {
                    assert(steps[k] == steps.drop_last()[k]);
                    assert(steps[k + 1] == steps.drop_last()[k + 1]);
                }
            }
        }
        i = i + 1;
    }
    (active, bw)
}

} // verus!
