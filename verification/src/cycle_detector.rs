//! Detection of dependency cycles between recipes: every time a recipe
//! requests an asset, the edge from it to the asset is sent to a backend that
//! keeps the graph of all requests and checks it for a cycle.
use vstd::prelude::*;
use petgraph::graphmap::GraphMap;
use petgraph::Directed;
use std::hash::RandomState;
use std::sync::atomic::{AtomicBool, Ordering};
use std::sync::mpsc::{Receiver, Sender};
use std::sync::Arc;

use crate::reachability::is_walk;

verus! {

#[verifier::external_type_specification]
#[verifier::external_body]
#[verifier::reject_recursive_types(N)]
#[verifier::reject_recursive_types(E)]
#[verifier::reject_recursive_types(Ty)]
#[verifier::reject_recursive_types(S)]
pub struct ExGraphMap<N, E, Ty, S>(GraphMap<N, E, Ty, S>) where S: std::hash::BuildHasher;

#[verifier::external_type_specification]
#[verifier::external_body]
pub struct ExDirected(Directed);

#[verifier::external_type_specification]
#[verifier::external_body]
#[verifier::reject_recursive_types(T)]
pub struct ExSender<T>(Sender<T>);

#[verifier::external_type_specification]
#[verifier::external_body]
#[verifier::reject_recursive_types(T)]
pub struct ExReceiver<T>(Receiver<T>);

/// The graph of requests: nodes are assets, an edge runs from the requesting
/// asset to the requested one.
pub type RequestGraph = GraphMap<usize, (), Directed, RandomState>;

/// The edge sent for one request: (requesting asset, requested asset).
pub type CycleDetectorAddEdgeCmd = (usize, usize);

/// The nodes of a request graph.
pub uninterp spec fn graph_nodes(g: GraphMap<usize, (), Directed, RandomState>) -> Set<usize>;

/// The edges of a request graph.
pub uninterp spec fn graph_edges(g: GraphMap<usize, (), Directed, RandomState>) -> Set<(usize, usize)>;

/// The edge relation of a set of edges.
pub open spec fn edge_relation(edges: Set<(usize, usize)>) -> spec_fn(usize, usize) -> bool {
    |u: usize, v: usize| edges.contains((u, v))
}

/// `edges` holds a directed cycle: a walk of at least one edge that ends
/// where it starts (a self-loop is a cycle).
pub open spec fn has_cycle(edges: Set<(usize, usize)>) -> bool {
    exists|p: Seq<usize>|
        #![trigger is_walk(edge_relation(edges), p)]
        is_walk(edge_relation(edges), p) && p.len() >= 2 && p[0] == p.last()
}

/// `petgraph::graphmap::GraphMap::new`: an empty graph.
#[verifier::external_body]
fn new_request_graph() -> (g: GraphMap<usize, (), Directed, RandomState>)
    ensures
        graph_nodes(g) == Set::<usize>::empty(),
        graph_edges(g) == Set::<(usize, usize)>::empty(),
{
    GraphMap::new()
}

/// `petgraph::graphmap::GraphMap::add_node`: adds node `n` if it is not
/// there yet, and returns `n`.
#[verifier::external_body]
fn graph_add_node(g: &mut GraphMap<usize, (), Directed, RandomState>, n: usize) -> (r: usize)
    ensures
        r == n,
        graph_nodes(*final(g)) == graph_nodes(*old(g)).insert(n),
        graph_edges(*final(g)) == graph_edges(*old(g)),
{
    g.add_node(n)
}

/// `petgraph::graphmap::GraphMap::add_edge`: adds the edge from `a` to `b`,
/// and both nodes if they are not there yet; returns the weight the edge had
/// if it was there already.
#[verifier::external_body]
fn graph_add_edge(g: &mut GraphMap<usize, (), Directed, RandomState>, a: usize, b: usize) -> (r: Option<()>)
    ensures
        r is Some <==> graph_edges(*old(g)).contains((a, b)),
        graph_nodes(*final(g)) == graph_nodes(*old(g)).insert(a).insert(b),
        graph_edges(*final(g)) == graph_edges(*old(g)).insert((a, b)),
{
    g.add_edge(a, b, ())
}

/// `petgraph::algo::is_cyclic_directed`: whether the directed graph holds a
/// cycle, found as a back edge of a depth-first search. The search recurses
/// once per node of the path it follows; a graph too deep for the stack is
/// not covered by this contract.
#[verifier::external_body]
fn graph_is_cyclic(g: &GraphMap<usize, (), Directed, RandomState>) -> (r: bool)
    ensures
        r == has_cycle(graph_edges(*g)),
{
    petgraph::algo::is_cyclic_directed(g)
}

/// The edges handed to `Sender::send` through this sender, oldest first.
pub uninterp spec fn sent_through(tx: Sender<(usize, usize)>) -> Seq<(usize, usize)>;

/// `tx` and `rx` are the two ends of one channel: what is sent through `tx`
/// arrives at `rx`, in the order in which `tx` sent it, while `rx` lives.
pub uninterp spec fn connected(tx: Sender<(usize, usize)>, rx: Receiver<(usize, usize)>) -> bool;

/// `std::sync::mpsc::channel`: a new channel for request edges, whose sender
/// and receiver are connected; nothing has been sent through its sender yet.
#[verifier::external_body]
fn new_edge_channel() -> (r: (Sender<CycleDetectorAddEdgeCmd>, Receiver<CycleDetectorAddEdgeCmd>))
    ensures
        sent_through(r.0) == Seq::<(usize, usize)>::empty(),
        connected(r.0, r.1),
{
    std::sync::mpsc::channel()
}

/// `std::sync::mpsc::Sender::send`: hands the edge to the channel; the sender
/// stays on its channel. Its result, an error once the receiver is gone (then
/// the edge is not delivered), is ignored.
#[verifier::external_body]
fn send_edge(tx: &mut Sender<CycleDetectorAddEdgeCmd>, v0: usize, v1: usize)
    ensures
        sent_through(*final(tx)) == sent_through(*old(tx)).push((v0, v1)),
        forall|rx: Receiver<CycleDetectorAddEdgeCmd>|
            connected(*old(tx), rx) ==> #[trigger] connected(*final(tx), rx),
{
    let _ = tx.send((v0, v1));
}

/// `Clone::clone` of `std::sync::mpsc::Sender`: another sender on the same
/// channel, through which nothing has been sent yet.
#[verifier::external_body]
fn clone_sender(tx: &Sender<CycleDetectorAddEdgeCmd>) -> (r: Sender<CycleDetectorAddEdgeCmd>)
    ensures
        sent_through(r) == Seq::<(usize, usize)>::empty(),
        forall|rx: Receiver<CycleDetectorAddEdgeCmd>| connected(*tx, rx) ==> #[trigger] connected(r, rx),
{
    tx.clone()
}

/// The receiving side: keeps the graph of all requests received.
pub struct CycleDetectorBackend {
    pub cmd_channel: Receiver<CycleDetectorAddEdgeCmd>,
    /// Raised once a cycle is found; shared with every detector that sends to
    /// this backend.
    pub cycle_found: Arc<AtomicBool>,
    pub graph: GraphMap<usize, (), Directed, RandomState>,
}

impl CycleDetectorBackend {
    /// Adds the request `v0 -> v1` to the graph and reports whether the graph
    /// now holds a cycle; when it does, the shared flag is raised.
    pub fn add_edge_and_check(&mut self, v0: usize, v1: usize) -> (cycle: bool)
        ensures
            graph_nodes(final(self).graph) == graph_nodes(old(self).graph).insert(v0).insert(v1),
            graph_edges(final(self).graph) == graph_edges(old(self).graph).insert((v0, v1)),
            cycle == has_cycle(graph_edges(old(self).graph).insert((v0, v1))),
            final(self).cmd_channel == old(self).cmd_channel,
            final(self).cycle_found == old(self).cycle_found,
    {
        graph_add_node(&mut self.graph, v0);
        graph_add_node(&mut self.graph, v1);
        graph_add_edge(&mut self.graph, v0, v1);
        proof {
            assert(graph_nodes(self.graph) =~= graph_nodes(old(self).graph).insert(v0).insert(v1));
        }
        let cycle = graph_is_cyclic(&self.graph);
        if cycle {
            self.cycle_found.store(true, Ordering::Relaxed);
        }
        cycle
    }
}

/// The sending side, held by every evaluation.
pub struct CycleDetector {
    /// The flag its backend raises when it finds a cycle.
    pub cycle_found: Arc<AtomicBool>,
    pub cmd_channel: Sender<CycleDetectorAddEdgeCmd>,
}

impl Clone for CycleDetector {
    /// Another sender on the same channel, sharing the same flag.
    fn clone(&self) -> (r: Self)
        ensures
            sent_through(r.cmd_channel) == Seq::<CycleDetectorAddEdgeCmd>::empty(),
            forall|rx: Receiver<CycleDetectorAddEdgeCmd>|
                connected(self.cmd_channel, rx) ==> #[trigger] connected(r.cmd_channel, rx),
            r.cycle_found == self.cycle_found,
    {
        CycleDetector { cycle_found: self.cycle_found.clone(), cmd_channel: clone_sender(&self.cmd_channel) }
    }
}

impl CycleDetector {
    /// Reports the request `v0 -> v1` to the backend.
    pub fn add_edge(&mut self, v0: usize, v1: usize)
        ensures
            sent_through(final(self).cmd_channel) == sent_through(old(self).cmd_channel).push(
                (v0, v1),
            ),
            forall|rx: Receiver<CycleDetectorAddEdgeCmd>|
                connected(old(self).cmd_channel, rx) ==> #[trigger] connected(final(self).cmd_channel, rx),
            final(self).cycle_found == old(self).cycle_found,
    {
        send_edge(&mut self.cmd_channel, v0, v1);
    }
}

/// A connected pair of detector and backend: what the detector sends arrives
/// at the backend, both share one cycle flag, the backend starts with an
/// empty graph, and nothing has been sent through the detector.
pub fn create_cycle_detector() -> (r: (CycleDetector, CycleDetectorBackend))
    ensures
        sent_through(r.0.cmd_channel) == Seq::<CycleDetectorAddEdgeCmd>::empty(),
        connected(r.0.cmd_channel, r.1.cmd_channel),
        r.0.cycle_found == r.1.cycle_found,
        graph_nodes(r.1.graph) == Set::<usize>::empty(),
        graph_edges(r.1.graph) == Set::<(usize, usize)>::empty(),
{
    let (tx, rx) = new_edge_channel();
    let cycle_found = Arc::new(AtomicBool::new(false));
    (
        CycleDetector { cycle_found: cycle_found.clone(), cmd_channel: tx },
        CycleDetectorBackend { cmd_channel: rx, cycle_found, graph: new_request_graph() },
    )
}

/// Adding an edge never removes a cycle: once the backend has found one,
/// every later check finds one too.
pub proof fn law_cycles_persist(edges: Set<(usize, usize)>, e: (usize, usize))
    requires
        has_cycle(edges),
    ensures
        has_cycle(edges.insert(e)),
{
    let p = choose|p: Seq<usize>|
        #![trigger is_walk(edge_relation(edges), p)]
        is_walk(edge_relation(edges), p) && p.len() >= 2 && p[0] == p.last();
    let bigger = edges.insert(e);
    assert forall|i: int| 0 <= i < p.len() - 1 implies #[trigger] edge_relation(bigger)(
        p[i],
        p[i + 1],
    ) by {
        assert(edge_relation(edges)(p[i], p[i + 1]));
    }
    assert(is_walk(edge_relation(bigger), p));
}

/// An edge from a node to itself is a cycle.
pub proof fn law_self_loop_is_cycle(edges: Set<(usize, usize)>, v: usize)
    requires
        edges.contains((v, v)),
    ensures
        has_cycle(edges),
{
    let p = seq![v, v];
    assert(edge_relation(edges)(p[0], p[1]));
    assert(is_walk(edge_relation(edges), p));
}

} // verus!
