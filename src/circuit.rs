use vstd::prelude::*;

use petgraph::graph::{EdgeIndex, Graph, NodeIndex};
use petgraph::visit::EdgeRef;
use petgraph::{Directed, Direction};

use crate::components::{Element, InputPin, OutputPin};
use crate::pin_state::PinState;
use crate::{Component, Connection, InputPinCount};

verus! {

#[verifier::external_type_specification]
#[verifier::external_body]
#[verifier::reject_recursive_types(N)]
#[verifier::reject_recursive_types(E)]
#[verifier::reject_recursive_types(Ty)]
#[verifier::reject_recursive_types(Ix)]
pub struct ExGraph<N, E, Ty, Ix>(Graph<N, E, Ty, Ix>);

#[verifier::external_type_specification]
#[verifier::external_body]
pub struct ExDirected(Directed);

/// One element of the circuit with the state of each of its pins.
pub struct GraphNode {
    pub component: Element,
    pub input_state: Vec<PinState>,
    pub output_state: Vec<PinState>,
}

/// The nodes of a graph, by index.
pub uninterp spec fn graph_nodes(g: Graph<GraphNode, Connection, Directed, usize>) -> Seq<GraphNode>;

/// The edges of a graph, by index: source node, sink node, weight.
pub uninterp spec fn graph_edges(g: Graph<GraphNode, Connection, Directed, usize>) -> Seq<(usize, usize, Connection)>;

/// `p` is an edge that starts at `n`, by index, with its sink node.
pub open spec fn leaves(es: Seq<(usize, usize, Connection)>, n: usize, p: (usize, usize)) -> bool {
    p.0 < es.len() && es[p.0 as int].0 == n && es[p.0 as int].1 == p.1
}

/// Some edge leaves output pin `output` of `n`.
pub open spec fn has_out(es: Seq<(usize, usize, Connection)>, n: usize, output: usize) -> bool {
    exists|j: int| 0 <= j < es.len() && (#[trigger] es[j]).0 == n && es[j].2.source_id == output
}

/// Some edge ends at input pin `k` of node `n`.
pub open spec fn pin_driven(es: Seq<(usize, usize, Connection)>, n: usize, k: usize) -> bool {
    exists|j: int| 0 <= j < es.len() && es[j].1 == n && es[j].2.sink_id == k
}

/// Relies on `Graph::with_capacity`: a graph without nodes or edges.
#[verifier::external_body]
fn graph_empty() -> (r: Graph<GraphNode, Connection, Directed, usize>)
    ensures
        graph_nodes(r) == Seq::<GraphNode>::empty(),
        graph_edges(r) == Seq::<(usize, usize, Connection)>::empty(),
{
    Graph::with_capacity(0, 0)
}

/// Relies on `Graph::add_node`: the node is appended, its index returned;
/// with `usize` indices it never panics.
#[verifier::external_body]
fn graph_add_node(g: &mut Graph<GraphNode, Connection, Directed, usize>, w: GraphNode) -> (r: usize)
    ensures
        r == graph_nodes(*old(g)).len(),
        graph_nodes(*final(g)) == graph_nodes(*old(g)).push(w),
        graph_edges(*final(g)) == graph_edges(*old(g)),
{
    g.add_node(w).index()
}

/// Relies on `Graph::node_count`: the number of nodes.
#[verifier::external_body]
fn graph_node_count(g: &Graph<GraphNode, Connection, Directed, usize>) -> (r: usize)
    ensures
        r == graph_nodes(*g).len(),
{
    g.node_count()
}

/// Relies on `Graph::edge_count`: the number of edges, the length of a
/// `Vec` of non-empty edge records, which stays below `usize::MAX`.
#[verifier::external_body]
fn graph_edge_count(g: &Graph<GraphNode, Connection, Directed, usize>) -> (r: usize)
    ensures
        r == graph_edges(*g).len(),
        r < usize::MAX,
{
    g.edge_count()
}

/// Relies on `Graph`'s `Index<NodeIndex>`: the weight of node `i`.
#[verifier::external_body]
fn graph_node(g: &Graph<GraphNode, Connection, Directed, usize>, i: usize) -> (r: &GraphNode)
    requires
        i < graph_nodes(*g).len(),
    ensures
        *r == graph_nodes(*g)[i as int],
{
    &g[NodeIndex::new(i)]
}

/// Relies on `Graph`'s `IndexMut<NodeIndex>`: the weight of node `i` is
/// replaced by `w`, and the former weight returned.
#[verifier::external_body]
fn graph_replace_node(g: &mut Graph<GraphNode, Connection, Directed, usize>, i: usize, w: GraphNode) -> (r: GraphNode)
    requires
        i < graph_nodes(*old(g)).len(),
    ensures
        r == graph_nodes(*old(g))[i as int],
        graph_nodes(*final(g)) == graph_nodes(*old(g)).update(i as int, w),
        graph_edges(*final(g)) == graph_edges(*old(g)),
{
    std::mem::replace(&mut g[NodeIndex::new(i)], w)
}

/// Relies on `Graph::edges_directed` with `Incoming`: every edge that ends
/// at node `n`, here given by the sink pin of its weight.
#[verifier::external_body]
fn graph_incoming_sink_pins(g: &Graph<GraphNode, Connection, Directed, usize>, n: usize) -> (r: Vec<usize>)
    ensures
        forall|k: usize| r@.contains(k) <==> pin_driven(graph_edges(*g), n, k),
{
    g.edges_directed(NodeIndex::new(n), Direction::Incoming).map(|e| e.weight().sink_id).collect()
}

/// Relies on `Graph::edges_directed` with `Outgoing`: every edge that
/// starts at node `n`, given by its index and its sink node.
#[verifier::external_body]
fn graph_outgoing(g: &Graph<GraphNode, Connection, Directed, usize>, n: usize) -> (r: Vec<(usize, usize)>)
    ensures
        forall|p: (usize, usize)| r@.contains(p) <==> leaves(graph_edges(*g), n, p),
{
    g.edges_directed(NodeIndex::new(n), Direction::Outgoing).map(|e| (e.id().index(), e.target().index())).collect()
}

/// Relies on `Graph`'s `Index<EdgeIndex>`: the weight of edge `e`.
#[verifier::external_body]
fn graph_edge(g: &Graph<GraphNode, Connection, Directed, usize>, e: usize) -> (r: Connection)
    requires
        e < graph_edges(*g).len(),
    ensures
        r == graph_edges(*g)[e as int].2,
{
    g[EdgeIndex::new(e)]
}

/// Relies on `Graph`'s `IndexMut<EdgeIndex>`: the weight of edge `e` becomes `w`.
#[verifier::external_body]
fn graph_set_edge(g: &mut Graph<GraphNode, Connection, Directed, usize>, e: usize, w: Connection)
    requires
        e < graph_edges(*old(g)).len(),
    ensures
        graph_nodes(*final(g)) == graph_nodes(*old(g)),
        graph_edges(*final(g)) == graph_edges(*old(g)).update(
            e as int,
            (graph_edges(*old(g))[e as int].0, graph_edges(*old(g))[e as int].1, w),
        ),
{
    g[EdgeIndex::new(e)] = w;
}

/// Relies on `Graph::add_edge`: a new edge from `a` to `b` is appended;
/// with `usize` indices and both nodes present it never panics.
#[verifier::external_body]
fn graph_add_edge(g: &mut Graph<GraphNode, Connection, Directed, usize>, a: usize, b: usize, w: Connection)
    requires
        a < graph_nodes(*old(g)).len(),
        b < graph_nodes(*old(g)).len(),
    ensures
        graph_nodes(*final(g)) == graph_nodes(*old(g)),
        graph_edges(*final(g)) == graph_edges(*old(g)).push((a, b, w)),
{
    g.add_edge(NodeIndex::new(a), NodeIndex::new(b), w);
}

/// A node's pin vectors have the lengths its component declares.
pub open spec fn node_ok(n: GraphNode) -> bool {
    &&& n.output_state@.len() == n.component.spec_output_count()
    &&& match n.component.spec_input_count() {
        InputPinCount::Fixed(k) => n.input_state@.len() == k,
        InputPinCount::Any => true,
    }
}

/// Input pin `k` exists on `c`, or can be grown on a component with any
/// number of inputs.
pub open spec fn pin_fits(c: Element, k: usize) -> bool {
    match c.spec_input_count() {
        InputPinCount::Fixed(m) => k < m,
        InputPinCount::Any => k < usize::MAX,
    }
}

/// The node's outputs are what its component computes from its inputs.
pub open spec fn settled(n: GraphNode) -> bool {
    n.output_state@ == n.component.outputs_for(n.input_state@)
}

/// The graph invariant: nodes have well-sized pin vectors, edges join
/// existing nodes and end at pins their sinks have, and every input pin has
/// at most one driver.
pub open spec fn wiring_ok(ns: Seq<GraphNode>, es: Seq<(usize, usize, Connection)>) -> bool {
    &&& es.len() <= usize::MAX
    &&& forall|i: int| 0 <= i < ns.len() ==> node_ok(#[trigger] ns[i])
    &&& forall|j: int|
        0 <= j < es.len() ==> {
            &&& (#[trigger] es[j]).0 < ns.len()
            &&& es[j].1 < ns.len()
            &&& pin_fits(ns[es[j].1 as int].component, es[j].2.sink_id)
        }
    &&& forall|j1: int, j2: int|
        0 <= j1 < es.len() && 0 <= j2 < es.len() && j1 != j2 && (#[trigger] es[j1]).1 == (#[trigger] es[j2]).1
            ==> es[j1].2.sink_id != es[j2].2.sink_id
}

/// The edges join the same pins; only the states they carry may differ.
pub open spec fn same_wiring(a: Seq<(usize, usize, Connection)>, b: Seq<(usize, usize, Connection)>) -> bool {
    &&& a.len() == b.len()
    &&& forall|j: int|
        0 <= j < a.len() ==> {
            &&& (#[trigger] b[j]).0 == a[j].0
            &&& b[j].1 == a[j].1
            &&& b[j].2.source_id == a[j].2.source_id
            &&& b[j].2.sink_id == a[j].2.sink_id
        }
}

/// Each node is either untouched or holds the same component, is settled
/// and has no fewer inputs.
pub open spec fn evolved(a: Seq<GraphNode>, b: Seq<GraphNode>) -> bool {
    &&& a.len() == b.len()
    &&& forall|i: int|
        0 <= i < a.len() ==> #[trigger] b[i] == a[i] || (b[i].component == a[i].component && settled(b[i])
            && a[i].input_state@.len() <= b[i].input_state@.len())
}

/// Every node that no connection feeds is untouched.
pub open spec fn unfed_unchanged(es: Seq<(usize, usize, Connection)>, a: Seq<GraphNode>, b: Seq<GraphNode>) -> bool {
    forall|i: int| 0 <= i < a.len() && !fed(es, i as usize) ==> #[trigger] b[i] == a[i]
}

/// No edge leads out of `r`: every node reachable from a node of `r` is in `r`.
pub open spec fn closed(es: Seq<(usize, usize, Connection)>, r: Set<usize>) -> bool {
    forall|j: int| 0 <= j < es.len() && r.contains((#[trigger] es[j]).0) ==> r.contains(es[j].1)
}

/// Every successor of `n` lies in `r`.
pub open spec fn successors_in(es: Seq<(usize, usize, Connection)>, n: usize, r: Set<usize>) -> bool {
    forall|j: int| 0 <= j < es.len() && (#[trigger] es[j]).0 == n ==> r.contains(es[j].1)
}

/// Outside `r` nothing changed: nodes, edges whose source lies outside `r`,
/// and the input pins those edges drive (edge `except` aside).
pub open spec fn kept_outside(
    es: Seq<(usize, usize, Connection)>,
    es2: Seq<(usize, usize, Connection)>,
    ns: Seq<GraphNode>,
    ns2: Seq<GraphNode>,
    r: Set<usize>,
    except: int,
) -> bool {
    &&& forall|i: int| 0 <= i < ns.len() && !r.contains(i as usize) ==> #[trigger] ns2[i] == ns[i]
    &&& forall|j: int|
        0 <= j < es.len() && !r.contains((#[trigger] es[j]).0) && j != except ==> es2[j] == es[j] && pin_kept(
            ns,
            ns2,
            es[j].1,
            es[j].2.sink_id,
        )
}

proof fn lemma_kept_outside_trans(
    es: Seq<(usize, usize, Connection)>,
    es2: Seq<(usize, usize, Connection)>,
    es3: Seq<(usize, usize, Connection)>,
    ns: Seq<GraphNode>,
    ns2: Seq<GraphNode>,
    ns3: Seq<GraphNode>,
    r: Set<usize>,
    except: int,
)
    requires
        same_wiring(es, es2),
        ns.len() == ns2.len(),
        kept_outside(es, es2, ns, ns2, r, except),
        kept_outside(es2, es3, ns2, ns3, r, except),
    ensures
        kept_outside(es, es3, ns, ns3, r, except),
{
    assert forall|j: int| 0 <= j < es.len() && !r.contains((#[trigger] es[j]).0) && j != except implies es3[j]
        == es[j] && pin_kept(ns, ns3, es[j].1, es[j].2.sink_id) by {
        assert(es2[j] == es[j]);
    }
}

proof fn lemma_kept_outside_except(
    es: Seq<(usize, usize, Connection)>,
    es2: Seq<(usize, usize, Connection)>,
    ns: Seq<GraphNode>,
    ns2: Seq<GraphNode>,
    r: Set<usize>,
    x: int,
    y: int,
)
    requires
        kept_outside(es, es2, ns, ns2, r, x),
        x < 0 || x >= es.len() || r.contains(es[x].0),
    ensures
        kept_outside(es, es2, ns, ns2, r, y),
{
    assert forall|j: int| 0 <= j < es.len() && !r.contains((#[trigger] es[j]).0) && j != y implies es2[j] == es[j]
        && pin_kept(ns, ns2, es[j].1, es[j].2.sink_id) by {
        assert(j != x);
    }
}

proof fn lemma_closed_kept(a: Seq<(usize, usize, Connection)>, b: Seq<(usize, usize, Connection)>, r: Set<usize>)
    requires
        same_wiring(a, b),
    ensures
        closed(a, r) == closed(b, r),
{
    if closed(a, r) {
        assert forall|j: int| 0 <= j < b.len() && r.contains((#[trigger] b[j]).0) implies r.contains(b[j].1) by {
            assert(a[j].0 == b[j].0);
        }
    }
    if closed(b, r) {
        assert forall|j: int| 0 <= j < a.len() && r.contains((#[trigger] a[j]).0) implies r.contains(a[j].1) by {
            assert(a[j].0 == b[j].0);
        }
    }
}

/// Every edge from output pin `output` of `node` carries `state` to the
/// pin it drives; every other edge from `node` and its pin are as before.
pub open spec fn sent_on(
    es: Seq<(usize, usize, Connection)>,
    es2: Seq<(usize, usize, Connection)>,
    ns: Seq<GraphNode>,
    ns2: Seq<GraphNode>,
    node: usize,
    output: usize,
    state: PinState,
) -> bool {
    forall|j: int|
        0 <= j < es.len() && (#[trigger] es[j]).0 == node ==> if es[j].2.source_id == output {
            pin_holds(ns2, es[j].1, es[j].2.sink_id, state) && es2[j].2.state == state
        } else {
            pin_kept(ns, ns2, es[j].1, es[j].2.sink_id) && es2[j] == es[j]
        }
}

/// `sent_on` restricted to the edges listed in `done`: those carry `state`,
/// every other edge from `node` and its pin are as before.
pub open spec fn sent_along(
    es: Seq<(usize, usize, Connection)>,
    es2: Seq<(usize, usize, Connection)>,
    ns: Seq<GraphNode>,
    ns2: Seq<GraphNode>,
    node: usize,
    output: usize,
    state: PinState,
    done: Seq<(usize, usize)>,
) -> bool {
    forall|j: int|
        0 <= j < es.len() && (#[trigger] es[j]).0 == node ==> if es[j].2.source_id == output && done.contains(
            (j as usize, es[j].1),
        ) {
            pin_holds(ns2, es[j].1, es[j].2.sink_id, state) && es2[j].2.state == state
        } else {
            pin_kept(ns, ns2, es[j].1, es[j].2.sink_id) && es2[j] == es[j]
        }
}

/// One more edge `e` of `done` handled: sent along when `sent`, else left.
proof fn lemma_sent_step(
    es: Seq<(usize, usize, Connection)>,
    es1: Seq<(usize, usize, Connection)>,
    es2: Seq<(usize, usize, Connection)>,
    ns: Seq<GraphNode>,
    ns1: Seq<GraphNode>,
    ns2: Seq<GraphNode>,
    node: usize,
    output: usize,
    state: PinState,
    done: Seq<(usize, usize)>,
    e: usize,
    sent: bool,
)
    requires
        sent_along(es, es1, ns, ns1, node, output, state, done),
        same_wiring(es, es1),
        es.len() <= usize::MAX,
        e < es.len(),
        es[e as int].0 == node,
        sent == (es[e as int].2.source_id == output),
        !sent ==> es2 == es1 && ns2 == ns1,
        sent ==> forall|j: int|
            0 <= j < es1.len() && (#[trigger] es1[j]).0 == node && j != e ==> es2[j] == es1[j] && pin_kept(
                ns1,
                ns2,
                es1[j].1,
                es1[j].2.sink_id,
            ),
        sent ==> pin_holds(ns2, es[e as int].1, es[e as int].2.sink_id, state) && es2[e as int].2.state == state,
    ensures
        sent_along(es, es2, ns, ns2, node, output, state, done.push((e, es[e as int].1))),
{
    assert forall|j: int| 0 <= j < es.len() && (#[trigger] es[j]).0 == node implies if es[j].2.source_id == output
        && done.push((e, es[e as int].1)).contains((j as usize, es[j].1)) {
        pin_holds(ns2, es[j].1, es[j].2.sink_id, state) && es2[j].2.state == state
    } else {
        pin_kept(ns, ns2, es[j].1, es[j].2.sink_id) && es2[j] == es[j]
    } by {
        lemma_push_contains(done, (e, es[e as int].1), (j as usize, es[j].1));
        assert(es1[j].0 == es[j].0 && es1[j].1 == es[j].1 && es1[j].2.sink_id == es[j].2.sink_id);
        if j != e as int {
            assert((j as usize, es[j].1) != (e, es[e as int].1));
        }
    }
}

/// Input vector `v` after `w` is written to pin `k`: in place when the pin
/// exists, else after padding with `Undefined` up to `k`.
pub open spec fn written(v: Seq<PinState>, k: usize, w: PinState) -> Seq<PinState> {
    if k < v.len() {
        v.update(k as int, w)
    } else {
        v + Seq::new((k - v.len()) as nat, |i: int| PinState::Undefined) + seq![w]
    }
}

proof fn lemma_successors_in_kept(a: Seq<(usize, usize, Connection)>, b: Seq<(usize, usize, Connection)>, n: usize, r: Set<usize>)
    requires
        same_wiring(a, b),
    ensures
        successors_in(a, n, r) == successors_in(b, n, r),
{
    if successors_in(a, n, r) {
        assert forall|j: int| 0 <= j < b.len() && (#[trigger] b[j]).0 == n implies r.contains(b[j].1) by {
            assert(a[j].0 == b[j].0);
        }
    }
    if successors_in(b, n, r) {
        assert forall|j: int| 0 <= j < a.len() && (#[trigger] a[j]).0 == n implies r.contains(a[j].1) by {
            assert(a[j].0 == b[j].0);
        }
    }
}

/// Each edge but `except` ends at an existing input pin that holds the
/// state the edge carries.
pub open spec fn cached_ok(ns: Seq<GraphNode>, es: Seq<(usize, usize, Connection)>, except: int) -> bool {
    forall|j: int|
        0 <= j < es.len() && j != except ==> {
            &&& (#[trigger] es[j]).2.sink_id < ns[es[j].1 as int].input_state@.len()
            &&& ns[es[j].1 as int].input_state@[es[j].2.sink_id as int] == es[j].2.state
        }
}

/// Replacing a node by one with the same inputs keeps the cached states.
proof fn lemma_inputs_kept(ns: Seq<GraphNode>, es: Seq<(usize, usize, Connection)>, i: int, n: GraphNode, x: int)
    requires
        wiring_ok(ns, es),
        cached_ok(ns, es, x),
        0 <= i < ns.len(),
        n.input_state@ == ns[i].input_state@,
    ensures
        cached_ok(ns.update(i, n), es, x),
{
    let ns2 = ns.update(i, n);
    assert forall|j: int| 0 <= j < es.len() && j != x implies {
        &&& (#[trigger] es[j]).2.sink_id < ns2[es[j].1 as int].input_state@.len()
        &&& ns2[es[j].1 as int].input_state@[es[j].2.sink_id as int] == es[j].2.state
    } by {
        assert(ns2[es[j].1 as int].input_state@ == ns[es[j].1 as int].input_state@);
    }
}

/// Some connection ends at node `n`.
pub open spec fn fed(es: Seq<(usize, usize, Connection)>, n: usize) -> bool {
    exists|j: int| 0 <= j < es.len() && (#[trigger] es[j]).1 == n
}

/// Input pin `k` of node `n` keeps, from `a` to `b`, the state it had.
pub open spec fn pin_kept(a: Seq<GraphNode>, b: Seq<GraphNode>, n: usize, k: usize) -> bool {
    k < a[n as int].input_state@.len() ==> {
        &&& k < b[n as int].input_state@.len()
        &&& b[n as int].input_state@[k as int] == a[n as int].input_state@[k as int]
    }
}

/// Input pin `k` of node `n` exists and holds `w`.
pub open spec fn pin_holds(ns: Seq<GraphNode>, n: usize, k: usize, w: PinState) -> bool {
    k < ns[n as int].input_state@.len() && ns[n as int].input_state@[k as int] == w
}

proof fn lemma_fed_kept(a: Seq<(usize, usize, Connection)>, b: Seq<(usize, usize, Connection)>, n: usize)
    requires
        same_wiring(a, b),
    ensures
        fed(a, n) == fed(b, n),
{
    if fed(a, n) {
        let j = choose|j: int| 0 <= j < a.len() && (#[trigger] a[j]).1 == n;
        assert(b[j].1 == a[j].1);
    }
    if fed(b, n) {
        let j = choose|j: int| 0 <= j < b.len() && (#[trigger] b[j]).1 == n;
        assert(b[j].1 == a[j].1);
    }
}

proof fn lemma_fed_all(a: Seq<(usize, usize, Connection)>, b: Seq<(usize, usize, Connection)>)
    requires
        same_wiring(a, b),
    ensures
        forall|n: usize| #[trigger] fed(a, n) == fed(b, n),
{
    assert forall|n: usize| #[trigger] fed(a, n) == fed(b, n) by {
        lemma_fed_kept(a, b, n);
    }
}

/// Replacing a node by one with the same input arity keeps the invariant.
proof fn lemma_node_replaced(ns: Seq<GraphNode>, es: Seq<(usize, usize, Connection)>, i: int, n: GraphNode)
    requires
        wiring_ok(ns, es),
        0 <= i < ns.len(),
        node_ok(n),
        n.component.spec_input_count() == ns[i].component.spec_input_count(),
    ensures
        wiring_ok(ns.update(i, n), es),
{
    let ns2 = ns.update(i, n);
    assert forall|j1: int| 0 <= j1 < es.len() implies {
        &&& (#[trigger] es[j1]).0 < ns2.len()
        &&& es[j1].1 < ns2.len()
        &&& pin_fits(ns2[es[j1].1 as int].component, es[j1].2.sink_id)
    } by {
        assert(ns2[es[j1].1 as int].component.spec_input_count() == ns[es[j1].1 as int].component.spec_input_count());
    }
    assert forall|q: int| 0 <= q < ns2.len() implies node_ok(#[trigger] ns2[q]) by {
        if q != i {
            assert(ns2[q] == ns[q]);
        }
    }
}

/// Rewriting the state an edge carries keeps the invariant.
proof fn lemma_edge_rewritten(ns: Seq<GraphNode>, es: Seq<(usize, usize, Connection)>, e: int, w: Connection)
    requires
        wiring_ok(ns, es),
        0 <= e < es.len(),
        w.source_id == es[e].2.source_id,
        w.sink_id == es[e].2.sink_id,
    ensures
        wiring_ok(ns, es.update(e, (es[e].0, es[e].1, w))),
        same_wiring(es, es.update(e, (es[e].0, es[e].1, w))),
{
    let es2 = es.update(e, (es[e].0, es[e].1, w));
    assert forall|j: int| 0 <= j < es.len() implies {
        &&& (#[trigger] es2[j]).0 == es[j].0
        &&& es2[j].1 == es[j].1
        &&& es2[j].2.source_id == es[j].2.source_id
        &&& es2[j].2.sink_id == es[j].2.sink_id
    } by {}
    assert forall|j1: int, j2: int|
        0 <= j1 < es2.len() && 0 <= j2 < es2.len() && j1 != j2 && (#[trigger] es2[j1]).1 == (#[trigger] es2[j2]).1
            implies es2[j1].2.sink_id != es2[j2].2.sink_id by {
        assert(es[j1].1 == es[j2].1);
    }
    assert forall|j1: int| 0 <= j1 < es2.len() implies {
        &&& (#[trigger] es2[j1]).0 < ns.len()
        &&& es2[j1].1 < ns.len()
        &&& pin_fits(ns[es2[j1].1 as int].component, es2[j1].2.sink_id)
    } by {
        assert(es2[j1].0 == es[j1].0);
    }
}

proof fn lemma_push_contains<T>(s: Seq<T>, x: T, y: T)
    ensures
        s.push(x).contains(y) == (s.contains(y) || x == y),
{
    if s.push(x).contains(y) {
        let q = choose|q: int| 0 <= q < s.len() + 1 && s.push(x)[q] == y;
        if q < s.len() {
            assert(s[q] == y);
        }
    }
    if s.contains(y) {
        let q = choose|q: int| 0 <= q < s.len() && s[q] == y;
        assert(s.push(x)[q] == y);
    }
    if x == y {
        assert(s.push(x)[s.len() as int] == y);
    }
}

proof fn lemma_evolved_trans(a: Seq<GraphNode>, b: Seq<GraphNode>, c: Seq<GraphNode>)
    requires
        evolved(a, b),
        evolved(b, c),
    ensures
        evolved(a, c),
{
    assert forall|i: int| 0 <= i < a.len() implies #[trigger] c[i] == a[i] || (c[i].component == a[i].component
        && settled(c[i]) && a[i].input_state@.len() <= c[i].input_state@.len()) by {
        assert(b[i] == a[i] || (b[i].component == a[i].component && settled(b[i])
            && a[i].input_state@.len() <= b[i].input_state@.len()));
        assert(c[i] == b[i] || (c[i].component == b[i].component && settled(c[i])
            && b[i].input_state@.len() <= c[i].input_state@.len()));
    }
}

proof fn lemma_same_wiring_trans(
    a: Seq<(usize, usize, Connection)>,
    b: Seq<(usize, usize, Connection)>,
    c: Seq<(usize, usize, Connection)>,
)
    requires
        same_wiring(a, b),
        same_wiring(b, c),
    ensures
        same_wiring(a, c),
{
    assert forall|j: int| 0 <= j < a.len() implies {
        &&& (#[trigger] c[j]).0 == a[j].0
        &&& c[j].1 == a[j].1
        &&& c[j].2.source_id == a[j].2.source_id
        &&& c[j].2.sink_id == a[j].2.sink_id
    } by {
        assert(b[j].0 == a[j].0);
        assert(c[j].0 == b[j].0);
    }
}

fn copy_states(v: &Vec<PinState>) -> (r: Vec<PinState>)
    ensures
        r@ == v@,
{
    let mut r: Vec<PinState> = Vec::new();
    let mut i: usize = 0;
    while i < v.len()
        invariant
            i <= v@.len(),
            r@ == v@.subrange(0, i as int),
        decreases v@.len() - i,
    {
        r.push(v[i]);
        i = i + 1;
        proof {
            assert(r@ =~= v@.subrange(0, i as int));
        }
    }
    proof {
        assert(r@ =~= v@);
    }
    r
}

fn same_states(a: &Vec<PinState>, b: &Vec<PinState>) -> (r: bool)
    ensures
        r == (a@ == b@),
{
    if a.len() != b.len() {
        return false;
    }
    let mut i: usize = 0;
    while i < a.len()
        invariant
            i <= a@.len(),
            a@.len() == b@.len(),
            forall|j: int| 0 <= j < i ==> a@[j] == b@[j],
        decreases a@.len() - i,
    {
        if a[i] != b[i] {
            return false;
        }
        i = i + 1;
    }
    proof {
        assert(a@ =~= b@);
    }
    true
}

/// Why a connection was refused.
#[derive(Clone, Copy, Debug, PartialEq, Eq, Structural)]
pub enum ConnectError {
    /// The handle names no node of the circuit.
    ComponentNotFound(usize),
    /// The input pin already has a driver.
    InputAlreadyConnected,
    /// The source node has no such output pin.
    OutputPinDoesntExist,
}

/// A circuit: elements as the nodes of a directed graph, connections as its
/// edges. Node handles are the indices that `add_component` returns.
pub struct Circuit {
    graph: Graph<GraphNode, Connection, Directed, usize>,
}

impl Circuit {
    /// The nodes, by handle.
    pub closed spec fn nodes(&self) -> Seq<GraphNode> {
        graph_nodes(self.graph)
    }

    /// The connections: source node, sink node, weight.
    pub closed spec fn edges(&self) -> Seq<(usize, usize, Connection)> {
        graph_edges(self.graph)
    }

    /// The graph invariant, and every connection's cached state is the
    /// state of the input pin it drives.
    pub open spec fn wf(&self) -> bool {
        wiring_ok(self.nodes(), self.edges()) && cached_ok(self.nodes(), self.edges(), -1)
    }

    /// An empty circuit.
    pub fn new() -> (r: Self)
        ensures
            r.wf(),
            r.nodes().len() == 0,
            r.edges().len() == 0,
    {
        Circuit { graph: graph_empty() }
    }

    /// Adds a node for `component`, with every input `Undefined` (none for a
    /// component with any number of inputs) and every output `Floating`.
    pub fn add_component(&mut self, component: Element) -> (r: usize)
        requires
            old(self).wf(),
        ensures
            final(self).wf(),
            r == old(self).nodes().len(),
            final(self).nodes().len() == old(self).nodes().len() + 1,
            final(self).nodes().subrange(0, r as int) == old(self).nodes(),
            final(self).nodes()[r as int].component == component,
            final(self).nodes()[r as int].input_state@ == match component.spec_input_count() {
                InputPinCount::Fixed(k) => Seq::new(k as nat, |i: int| PinState::Undefined),
                InputPinCount::Any => Seq::<PinState>::empty(),
            },
            final(self).nodes()[r as int].output_state@ == Seq::new(
                component.spec_output_count(),
                |i: int| PinState::Floating,
            ),
            final(self).edges() == old(self).edges(),
    {
        let input_state = match component.input_count() {
            InputPinCount::Fixed(input_count) => vec![PinState::Undefined; input_count],
            _ => Vec::new(),
        };
        let n_outputs = component.output_count();
        let output_state = vec![PinState::Floating; n_outputs];
        proof {
            assert(output_state@ =~= Seq::new(component.spec_output_count(), |i: int| PinState::Floating));
            if let InputPinCount::Fixed(k) = component.spec_input_count() {
                assert(input_state@ =~= Seq::new(k as nat, |i: int| PinState::Undefined));
            }
        }
        let r = graph_add_node(&mut self.graph, GraphNode { component, input_state, output_state });
        proof {
            let ns = self.nodes();
            assert(ns.subrange(0, r as int) =~= old(self).nodes());
            assert forall|j: int| 0 <= j < self.edges().len() implies pin_fits(
                ns[(#[trigger] self.edges()[j]).1 as int].component,
                self.edges()[j].2.sink_id,
            ) by {
                assert(ns[self.edges()[j].1 as int] == old(self).nodes()[self.edges()[j].1 as int]);
            }
        }
        r
    }

    /// Connects output pin `source_id` of `from` to input pin `sink_id` of
    /// `to`, recording the source's current value on the new connection,
    /// then delivers that value into the new sink. Earlier connections stay.
    pub fn connect(&mut self, from: usize, source_id: usize, to: usize, sink_id: usize) -> (r: Result<(), ConnectError>)
        requires
            old(self).wf(),
            connect_outcome(old(self).nodes(), old(self).edges(), from, source_id, to, sink_id) is Ok ==> pin_fits(
                old(self).nodes()[to as int].component,
                sink_id,
            ),
        ensures
            final(self).wf(),
            r == connect_outcome(old(self).nodes(), old(self).edges(), from, source_id, to, sink_id),
            r is Err ==> final(self).nodes() == old(self).nodes() && final(self).edges() == old(self).edges(),
            r is Ok ==> {
                let es = old(self).edges();
                let es2 = final(self).edges();
                &&& es2.len() == es.len() + 1
                &&& same_wiring(es, es2.subrange(0, es.len() as int))
                &&& es2[es.len() as int].0 == from
                &&& es2[es.len() as int].1 == to
                &&& es2[es.len() as int].2.source_id == source_id
                &&& es2[es.len() as int].2.sink_id == sink_id
                &&& evolved(old(self).nodes(), final(self).nodes())
                &&& unfed_unchanged(es2, old(self).nodes(), final(self).nodes())
            },
            r is Ok ==> forall|rs: Set<usize>| #[trigger]
                closed(final(self).edges(), rs) && rs.contains(to) ==> {
                    &&& forall|i: int|
                        0 <= i < old(self).nodes().len() && !rs.contains(i as usize) ==> #[trigger] final(self).nodes()[i]
                            == old(self).nodes()[i]
                    &&& !rs.contains(from) ==> pin_holds(
                        final(self).nodes(),
                        to,
                        sink_id,
                        old(self).nodes()[from as int].output_state@[source_id as int],
                    ) && final(self).edges()[old(self).edges().len() as int].2.state
                        == old(self).nodes()[from as int].output_state@[source_id as int]
                },
            r is Ok ==> forall|rs: Set<usize>| #[trigger]
                closed(final(self).edges(), rs) && !rs.contains(to) && successors_in(final(self).edges(), to, rs) ==> {
                    let after = final(self).nodes()[to as int];
                    let before = old(self).nodes()[to as int];
                    &&& after.component == before.component
                    &&& after.input_state@ == written(
                        before.input_state@,
                        sink_id,
                        old(self).nodes()[from as int].output_state@[source_id as int],
                    )
                    &&& settled(after)
                },
            r is Ok && from != to && !fed(old(self).edges(), from) ==> {
                let v = old(self).nodes()[from as int].output_state@[source_id as int];
                &&& pin_holds(final(self).nodes(), to, sink_id, v)
                &&& final(self).edges()[old(self).edges().len() as int].2.state == v
            },
    {
        let count = graph_node_count(&self.graph);
        if from >= count {
            return Err(ConnectError::ComponentNotFound(from));
        }
        if to >= count {
            return Err(ConnectError::ComponentNotFound(to));
        }
        let driven = graph_incoming_sink_pins(&self.graph, to);
        if holds_index(&driven, sink_id) {
            return Err(ConnectError::InputAlreadyConnected);
        }
        let source = graph_node(&self.graph, from);
        if source_id >= source.output_state.len() {
            return Err(ConnectError::OutputPinDoesntExist);
        }
        let state = source.output_state[source_id];
        let conn = Connection { state, source_id, sink_id };
        let ghost es = self.edges();
        let ghost ns = self.nodes();
        let e = graph_edge_count(&self.graph);
        graph_add_edge(&mut self.graph, from, to, conn);
        proof {
            let es2 = self.edges();
            assert forall|j1: int, j2: int|
                0 <= j1 < es2.len() && 0 <= j2 < es2.len() && j1 != j2 && (#[trigger] es2[j1]).1 == (
                #[trigger] es2[j2]).1 implies es2[j1].2.sink_id != es2[j2].2.sink_id by {
                if j1 == e {
                    assert(!(es[j2].1 == to && es[j2].2.sink_id == sink_id));
                } else if j2 == e {
                    assert(!(es[j1].1 == to && es[j1].2.sink_id == sink_id));
                } else {
                    assert(es2[j1] == es[j1] && es2[j2] == es[j2]);
                }
            }
            assert forall|j1: int| 0 <= j1 < es2.len() implies {
                &&& (#[trigger] es2[j1]).0 < ns.len()
                &&& es2[j1].1 < ns.len()
                &&& pin_fits(ns[es2[j1].1 as int].component, es2[j1].2.sink_id)
            } by {
                if j1 != e {
                    assert(es2[j1] == es[j1]);
                }
            }
            assert forall|n: usize| n != to implies fed(es2, n) == fed(es, n) by {
                if fed(es2, n) {
                    let j = choose|j: int| 0 <= j < es2.len() && (#[trigger] es2[j]).1 == n;
                    assert(j != e);
                    assert(es[j] == es2[j]);
                }
                if fed(es, n) {
                    let j = choose|j: int| 0 <= j < es.len() && (#[trigger] es[j]).1 == n;
                    assert(es[j] == es2[j]);
                }
            }
            assert(es2[e as int].1 == to);
            assert(fed(es2, to));
        }
        let ghost mid = *self;
        self.send(from, to, e, state, u64::MAX);
        proof {
            let es3 = self.edges();
            assert(es3[e as int].0 == from && es3[e as int].1 == to);
            assert forall|j: int| 0 <= j < es.len() implies {
                &&& (#[trigger] es3.subrange(0, es.len() as int)[j]).0 == es[j].0
                &&& es3.subrange(0, es.len() as int)[j].1 == es[j].1
                &&& es3.subrange(0, es.len() as int)[j].2.source_id == es[j].2.source_id
                &&& es3.subrange(0, es.len() as int)[j].2.sink_id == es[j].2.sink_id
            } by {
                assert(mid.edges()[j] == es[j]);
                assert(es3[j].0 == mid.edges()[j].0);
            }
            lemma_fed_all(mid.edges(), es3);
            assert forall|rs: Set<usize>| #[trigger] closed(es3, rs) && rs.contains(to) implies {
                &&& forall|i: int|
                    0 <= i < ns.len() && !rs.contains(i as usize) ==> #[trigger] self.nodes()[i] == ns[i]
                &&& !rs.contains(from) ==> pin_holds(self.nodes(), to, sink_id, state) && es3[e as int].2.state == state
            } by {
                lemma_closed_kept(mid.edges(), es3, rs);
                assert(closed(mid.edges(), rs));
            }
            assert forall|rs: Set<usize>| #[trigger] closed(es3, rs) && !rs.contains(to) && successors_in(es3, to, rs) implies {
                let after = self.nodes()[to as int];
                &&& after.component == ns[to as int].component
                &&& after.input_state@ == written(ns[to as int].input_state@, sink_id, state)
                &&& settled(after)
            } by {
                lemma_closed_kept(mid.edges(), es3, rs);
                lemma_successors_in_kept(mid.edges(), es3, to, rs);
                assert(closed(mid.edges(), rs));
            }
            assert forall|q: int| 0 <= q < ns.len() && !fed(es3, q as usize) implies #[trigger] self.nodes()[q]
                == ns[q] by {
                assert(!fed(mid.edges(), q as usize));
            }
        }
        Ok(())
    }

    /// Pushes `new_state`, the new value of output pin `changed_output` of
    /// `changed_node_id`, to every input it drives; each sink whose outputs
    /// then change passes them on in turn, depth first, until nothing more
    /// changes. A loop that never settles recurses without end, as a depth of
    /// `u64::MAX` nested deliveries is never reached.
    pub fn propagate(&mut self, changed_node_id: usize, changed_output: usize, new_state: PinState)
        requires
            old(self).wf(),
            changed_node_id < old(self).nodes().len(),
        ensures
            final(self).wf(),
            evolved(old(self).nodes(), final(self).nodes()),
            same_wiring(old(self).edges(), final(self).edges()),
            unfed_unchanged(old(self).edges(), old(self).nodes(), final(self).nodes()),
            forall|j: int|
                0 <= j < old(self).edges().len() && !fed(old(self).edges(), (#[trigger] old(self).edges()[j]).0)
                    && old(self).edges()[j].0 != changed_node_id ==> pin_kept(
                    old(self).nodes(),
                    final(self).nodes(),
                    old(self).edges()[j].1,
                    old(self).edges()[j].2.sink_id,
                ) && final(self).edges()[j] == old(self).edges()[j],
            !fed(old(self).edges(), changed_node_id) ==> forall|j: int|
                0 <= j < old(self).edges().len() && (#[trigger] old(self).edges()[j]).0 == changed_node_id ==> if old(
                    self,
                ).edges()[j].2.source_id == changed_output {
                    pin_holds(final(self).nodes(), old(self).edges()[j].1, old(self).edges()[j].2.sink_id, new_state)
                        && final(self).edges()[j].2.state == new_state
                } else {
                    pin_kept(
                        old(self).nodes(),
                        final(self).nodes(),
                        old(self).edges()[j].1,
                        old(self).edges()[j].2.sink_id,
                    ) && final(self).edges()[j] == old(self).edges()[j]
                },
            !has_out(old(self).edges(), changed_node_id, changed_output) ==> final(self).nodes() == old(
                self,
            ).nodes() && final(self).edges() == old(self).edges(),
            forall|r: Set<usize>| #[trigger]
                closed(old(self).edges(), r) && r.contains(changed_node_id) ==> kept_outside(
                    old(self).edges(),
                    final(self).edges(),
                    old(self).nodes(),
                    final(self).nodes(),
                    r,
                    -1,
                ),
            forall|r: Set<usize>| #[trigger]
                closed(old(self).edges(), r) && !r.contains(changed_node_id) && successors_in(
                    old(self).edges(),
                    changed_node_id,
                    r,
                ) ==> sent_on(
                    old(self).edges(),
                    final(self).edges(),
                    old(self).nodes(),
                    final(self).nodes(),
                    changed_node_id,
                    changed_output,
                    new_state,
                ) && final(self).nodes()[changed_node_id as int] == old(self).nodes()[changed_node_id as int],
    {
        self.deliver(changed_node_id, changed_output, new_state, u64::MAX);
    }

    /// Recomputes the outputs of `node_id` from its inputs (after its input
    /// value was changed from outside), stores them, and propagates each
    /// output that changed. A node already settled is left as it is, so a
    /// second call in a row changes nothing.
    pub fn recalculate(&mut self, node_id: usize)
        requires
            old(self).wf(),
            node_id < old(self).nodes().len(),
        ensures
            final(self).wf(),
            evolved(old(self).nodes(), final(self).nodes()),
            same_wiring(old(self).edges(), final(self).edges()),
            settled(final(self).nodes()[node_id as int]),
            settled(old(self).nodes()[node_id as int]) ==> final(self).nodes() == old(self).nodes()
                && final(self).edges() == old(self).edges(),
            forall|r: Set<usize>| #[trigger]
                closed(old(self).edges(), r) && !r.contains(node_id) && successors_in(old(self).edges(), node_id, r) ==> {
                    let es = old(self).edges();
                    let before = old(self).nodes()[node_id as int];
                    let after = final(self).nodes()[node_id as int];
                    &&& after.output_state@ == before.component.outputs_for(before.input_state@)
                    &&& after.input_state == before.input_state
                    &&& forall|j: int|
                        0 <= j < es.len() && (#[trigger] es[j]).0 == node_id && es[j].2.source_id
                            < before.output_state@.len() && before.output_state@[es[j].2.source_id as int]
                            != after.output_state@[es[j].2.source_id as int] ==> pin_holds(
                            final(self).nodes(),
                            es[j].1,
                            es[j].2.sink_id,
                            after.output_state@[es[j].2.source_id as int],
                        ) && final(self).edges()[j].2.state == after.output_state@[es[j].2.source_id as int]
                },
            !fed(old(self).edges(), node_id) ==> final(self).nodes()[node_id as int].output_state@
                == old(self).nodes()[node_id as int].component.outputs_for(
                old(self).nodes()[node_id as int].input_state@,
            ),
            !fed(old(self).edges(), node_id) ==> forall|j: int|
                0 <= j < old(self).edges().len() && (#[trigger] old(self).edges()[j]).0 == node_id
                    && old(self).edges()[j].2.source_id < old(self).nodes()[node_id as int].output_state@.len()
                    && old(self).nodes()[node_id as int].output_state@[old(self).edges()[j].2.source_id as int]
                    != final(self).nodes()[node_id as int].output_state@[old(self).edges()[j].2.source_id as int]
                    ==> pin_holds(
                    final(self).nodes(),
                    old(self).edges()[j].1,
                    old(self).edges()[j].2.sink_id,
                    final(self).nodes()[node_id as int].output_state@[old(self).edges()[j].2.source_id as int],
                ) && final(self).edges()[j].2.state
                    == final(self).nodes()[node_id as int].output_state@[old(self).edges()[j].2.source_id as int],
    {
        let node = graph_node(&self.graph, node_id);
        let fresh = node.component.calculate(node.input_state.as_slice());
        if same_states(&node.output_state, &fresh) {
            return;
        }
        let outputs = copy_states(&fresh);
        let ghost ns = self.nodes();
        let ghost es = self.edges();
        let mut n = graph_replace_node(&mut self.graph, node_id, Self::vacant());
        let mut previous = fresh;
        core::mem::swap(&mut n.output_state, &mut previous);
        proof {
            assert(node_ok(ns[node_id as int]));
            lemma_node_replaced(ns, es, node_id as int, n);
        }
        let _ = graph_replace_node(&mut self.graph, node_id, n);
        let ghost stored = n;
        let mut k: usize = 0;
        while k < previous.len() && k < outputs.len()
            invariant
                ns == old(self).nodes(),
                es == old(self).edges(),
                self.wf(),
                node_id < self.nodes().len(),
                stored.output_state@ == outputs@,
                stored.input_state@ == ns[node_id as int].input_state@,
                outputs@ == ns[node_id as int].component.outputs_for(ns[node_id as int].input_state@),
                previous@ == ns[node_id as int].output_state@,
                settled(self.nodes()[node_id as int]),
                evolved(ns, self.nodes()),
                same_wiring(es, self.edges()),
                !fed(es, node_id) ==> self.nodes()[node_id as int] == stored,
                !fed(es, node_id) ==> forall|j: int|
                    0 <= j < es.len() && (#[trigger] es[j]).0 == node_id && es[j].2.source_id < k
                        && previous@[es[j].2.source_id as int] != outputs@[es[j].2.source_id as int] ==> pin_holds(
                        self.nodes(),
                        es[j].1,
                        es[j].2.sink_id,
                        outputs@[es[j].2.source_id as int],
                    ) && self.edges()[j].2.state == outputs@[es[j].2.source_id as int],
                forall|r: Set<usize>| #[trigger]
                    closed(es, r) && !r.contains(node_id) && successors_in(es, node_id, r) ==> self.nodes()[node_id as int]
                        == stored && forall|j: int|
                        0 <= j < es.len() && (#[trigger] es[j]).0 == node_id && es[j].2.source_id < k
                            && previous@[es[j].2.source_id as int] != outputs@[es[j].2.source_id as int] ==> pin_holds(
                            self.nodes(),
                            es[j].1,
                            es[j].2.sink_id,
                            outputs@[es[j].2.source_id as int],
                        ) && self.edges()[j].2.state == outputs@[es[j].2.source_id as int],
            decreases previous@.len() - k,
        {
            if previous[k] != outputs[k] {
                let ghost before = *self;
                self.deliver(node_id, k, outputs[k], u64::MAX);
                proof {
                    lemma_evolved_trans(ns, before.nodes(), self.nodes());
                    lemma_same_wiring_trans(es, before.edges(), self.edges());
                    lemma_fed_all(es, before.edges());
                    assert(self.nodes()[node_id as int] == before.nodes()[node_id as int] || settled(
                        self.nodes()[node_id as int],
                    ));
                    assert forall|r: Set<usize>| #[trigger] closed(es, r) && !r.contains(node_id) && successors_in(es, node_id, r)
                        implies self.nodes()[node_id as int] == stored && forall|j: int|
                        0 <= j < es.len() && (#[trigger] es[j]).0 == node_id && es[j].2.source_id < k + 1
                            && previous@[es[j].2.source_id as int] != outputs@[es[j].2.source_id as int] ==> pin_holds(
                            self.nodes(),
                            es[j].1,
                            es[j].2.sink_id,
                            outputs@[es[j].2.source_id as int],
                        ) && self.edges()[j].2.state == outputs@[es[j].2.source_id as int] by {
                        lemma_closed_kept(es, before.edges(), r);
                        lemma_successors_in_kept(es, before.edges(), node_id, r);
                        assert(closed(before.edges(), r));
                        assert forall|j: int|
                            0 <= j < es.len() && (#[trigger] es[j]).0 == node_id && es[j].2.source_id < k + 1
                                && previous@[es[j].2.source_id as int] != outputs@[es[j].2.source_id as int]
                                implies pin_holds(
                            self.nodes(),
                            es[j].1,
                            es[j].2.sink_id,
                            outputs@[es[j].2.source_id as int],
                        ) && self.edges()[j].2.state == outputs@[es[j].2.source_id as int] by {
                            assert(before.edges()[j].0 == es[j].0);
                            assert(before.edges()[j].1 == es[j].1);
                            assert(before.edges()[j].2.sink_id == es[j].2.sink_id);
                            assert(before.edges()[j].2.source_id == es[j].2.source_id);
                        }
                    }
                    if !fed(es, node_id) {
                        assert(!fed(before.edges(), node_id));
                        assert forall|j: int|
                            0 <= j < es.len() && (#[trigger] es[j]).0 == node_id && es[j].2.source_id < k + 1
                                && previous@[es[j].2.source_id as int] != outputs@[es[j].2.source_id as int]
                                implies pin_holds(
                            self.nodes(),
                            es[j].1,
                            es[j].2.sink_id,
                            outputs@[es[j].2.source_id as int],
                        ) && self.edges()[j].2.state == outputs@[es[j].2.source_id as int] by {
                            assert(before.edges()[j].0 == es[j].0);
                            assert(before.edges()[j].1 == es[j].1);
                            assert(before.edges()[j].2.sink_id == es[j].2.sink_id);
                            assert(before.edges()[j].2.source_id == es[j].2.source_id);
                        }
                    }
                }
            }
            k = k + 1;
        }
        proof {
            assert(previous@.len() == outputs@.len());
        }
    }

    /// The number of nodes.
    pub fn node_count(&self) -> (r: usize)
        ensures
            r == self.nodes().len(),
    {
        graph_node_count(&self.graph)
    }

    /// Whether input pin `sink_id` of `node_id` can take a connection: it
    /// exists, or the node's component takes any number of inputs.
    pub fn accepts_input(&self, node_id: usize, sink_id: usize) -> (r: bool)
        ensures
            r == (node_id < self.nodes().len() && pin_fits(self.nodes()[node_id as int].component, sink_id)),
    {
        if node_id >= graph_node_count(&self.graph) {
            return false;
        }
        match graph_node(&self.graph, node_id).component.input_count() {
            InputPinCount::Fixed(m) => sink_id < m,
            InputPinCount::Any => sink_id < usize::MAX,
        }
    }

    /// The value an input or output pin element shows: the value set on an
    /// input pin, the state of an output pin's input. `None` for a gate or a
    /// handle that names no node.
    pub fn pin_value(&self, node_id: usize) -> (r: Option<PinState>)
        requires
            self.wf(),
        ensures
            r == shown_value(self.nodes(), node_id),
    {
        if node_id >= graph_node_count(&self.graph) {
            return None;
        }
        let node = graph_node(&self.graph, node_id);
        match node.component {
            Element::Input(pin) => Some(pin.value),
            Element::Output(_) => Some(node.input_state[0]),
            _ => None,
        }
    }

    /// Sets the value of the input pin element `node_id`; its outputs follow
    /// at the next `recalculate` of the node. Any other node is left as it is.
    pub fn set_pin_value(&mut self, node_id: usize, value: PinState)
        requires
            old(self).wf(),
        ensures
            final(self).wf(),
            final(self).edges() == old(self).edges(),
            final(self).nodes().len() == old(self).nodes().len(),
            forall|i: int|
                0 <= i < old(self).nodes().len() && i != node_id ==> #[trigger] final(self).nodes()[i]
                    == old(self).nodes()[i],
            node_id < old(self).nodes().len() ==> {
                let before = old(self).nodes()[node_id as int];
                let after = final(self).nodes()[node_id as int];
                &&& after.input_state == before.input_state
                &&& after.output_state == before.output_state
                &&& after.component == if before.component is Input {
                    Element::Input(InputPin { value })
                } else {
                    before.component
                }
            },
    {
        if node_id >= graph_node_count(&self.graph) {
            return;
        }
        let ghost ns = self.nodes();
        let mut n = graph_replace_node(&mut self.graph, node_id, Self::vacant());
        if let Element::Input(_) = n.component {
            n.component = Element::Input(InputPin::new(value));
        }
        proof {
            assert(node_ok(ns[node_id as int]));
            lemma_node_replaced(ns, self.edges(), node_id as int, n);
        }
        let _ = graph_replace_node(&mut self.graph, node_id, n);
    }

    /// The node that stands in for one taken out of the graph for an update.
    fn vacant() -> (r: GraphNode) {
        GraphNode { component: Element::Output(OutputPin), input_state: Vec::new(), output_state: Vec::new() }
    }

    /// Sends `state` along every connection that leaves output pin `output`
    /// of `node`, in the order the graph lists the node's outgoing edges.
    fn deliver(&mut self, node: usize, output: usize, state: PinState, depth: u64)
        requires
            old(self).wf(),
            node < old(self).nodes().len(),
        ensures
            final(self).wf(),
            evolved(old(self).nodes(), final(self).nodes()),
            same_wiring(old(self).edges(), final(self).edges()),
            unfed_unchanged(old(self).edges(), old(self).nodes(), final(self).nodes()),
            forall|j: int|
                0 <= j < old(self).edges().len() && !fed(old(self).edges(), (#[trigger] old(self).edges()[j]).0)
                    && old(self).edges()[j].0 != node ==> pin_kept(
                    old(self).nodes(),
                    final(self).nodes(),
                    old(self).edges()[j].1,
                    old(self).edges()[j].2.sink_id,
                ) && final(self).edges()[j] == old(self).edges()[j],
            !fed(old(self).edges(), node) ==> forall|j: int|
                0 <= j < old(self).edges().len() && (#[trigger] old(self).edges()[j]).0 == node ==> if old(
                    self,
                ).edges()[j].2.source_id == output {
                    pin_holds(final(self).nodes(), old(self).edges()[j].1, old(self).edges()[j].2.sink_id, state)
                        && final(self).edges()[j].2.state == state
                } else {
                    pin_kept(
                        old(self).nodes(),
                        final(self).nodes(),
                        old(self).edges()[j].1,
                        old(self).edges()[j].2.sink_id,
                    ) && final(self).edges()[j] == old(self).edges()[j]
                },
            !has_out(old(self).edges(), node, output) ==> final(self).nodes() == old(self).nodes()
                && final(self).edges() == old(self).edges(),
            forall|r: Set<usize>| #[trigger]
                closed(old(self).edges(), r) && r.contains(node) ==> kept_outside(
                    old(self).edges(),
                    final(self).edges(),
                    old(self).nodes(),
                    final(self).nodes(),
                    r,
                    -1,
                ),
            forall|r: Set<usize>| #[trigger]
                closed(old(self).edges(), r) && !r.contains(node) && successors_in(old(self).edges(), node, r)
                    ==> sent_on(old(self).edges(), final(self).edges(), old(self).nodes(), final(self).nodes(), node, output, state)
                    && final(self).nodes()[node as int] == old(self).nodes()[node as int],
        decreases depth, 1nat,
    {
        let out_edges = graph_outgoing(&self.graph, node);
        let ghost es = old(self).edges();
        let ghost ns = old(self).nodes();
        let mut i: usize = 0;
        while i < out_edges.len()
            invariant
                es == old(self).edges(),
                ns == old(self).nodes(),
                self.wf(),
                node < self.nodes().len(),
                i <= out_edges@.len(),
                forall|p: (usize, usize)| out_edges@.contains(p) <==> leaves(es, node, p),
                evolved(ns, self.nodes()),
                same_wiring(es, self.edges()),
                unfed_unchanged(es, ns, self.nodes()),
                forall|j: int|
                    0 <= j < es.len() && !fed(es, (#[trigger] es[j]).0) && es[j].0 != node ==> pin_kept(
                        ns,
                        self.nodes(),
                        es[j].1,
                        es[j].2.sink_id,
                    ) && self.edges()[j] == es[j],
                !fed(es, node) ==> sent_along(es, self.edges(), ns, self.nodes(), node, output, state, out_edges@.subrange(0, i as int)),
                !has_out(es, node, output) ==> self.nodes() == ns && self.edges() == es,
                forall|r: Set<usize>| #[trigger]
                    closed(es, r) && r.contains(node) ==> kept_outside(es, self.edges(), ns, self.nodes(), r, -1),
                forall|r: Set<usize>| #[trigger]
                    closed(es, r) && !r.contains(node) && successors_in(es, node, r) ==> sent_along(
                        es,
                        self.edges(),
                        ns,
                        self.nodes(),
                        node,
                        output,
                        state,
                        out_edges@.subrange(0, i as int),
                    ) && self.nodes()[node as int] == ns[node as int],
            decreases out_edges@.len() - i,
        {
            let (e, sink) = out_edges[i];
            proof {
                assert(out_edges@.contains((e, sink)));
                assert(out_edges@.subrange(0, i + 1) =~= out_edges@.subrange(0, i as int).push((e, sink)));
                assert(self.edges()[e as int].0 == es[e as int].0);
            }
            let conn = graph_edge(&self.graph, e);
            if conn.source_id == output {
                let ghost before = *self;
                self.send(node, sink, e, state, depth);
                proof {
                    lemma_evolved_trans(ns, before.nodes(), self.nodes());
                    lemma_same_wiring_trans(es, before.edges(), self.edges());
                    lemma_fed_all(es, before.edges());
                    assert(has_out(es, node, output));
                    assert forall|q: int| 0 <= q < ns.len() && !fed(es, q as usize) implies #[trigger] self.nodes()[q]
                        == ns[q] by {
                        assert(before.nodes()[q] == ns[q]);
                        assert(fed(es, q as usize) == fed(before.edges(), q as usize));
                    }
                    assert forall|j: int|
                        0 <= j < es.len() && !fed(es, (#[trigger] es[j]).0) && es[j].0 != node implies pin_kept(
                        ns,
                        self.nodes(),
                        es[j].1,
                        es[j].2.sink_id,
                    ) && self.edges()[j] == es[j] by {
                        assert(before.edges()[j] == es[j]);
                        assert(j != e);
                    }
                    assert forall|r: Set<usize>| #[trigger] closed(es, r) && r.contains(node) implies kept_outside(
                        es,
                        self.edges(),
                        ns,
                        self.nodes(),
                        r,
                        -1,
                    ) by {
                        lemma_closed_kept(es, before.edges(), r);
                        assert(r.contains(sink));
                        assert(before.edges()[e as int].0 == node);
                        lemma_kept_outside_except(before.edges(), self.edges(), before.nodes(), self.nodes(), r, e as int, -1);
                        lemma_kept_outside_trans(es, before.edges(), self.edges(), ns, before.nodes(), self.nodes(), r, -1);
                    }
                    assert forall|r: Set<usize>| #[trigger] closed(es, r) && !r.contains(node) && successors_in(es, node, r) implies sent_along(
                        es,
                        self.edges(),
                        ns,
                        self.nodes(),
                        node,
                        output,
                        state,
                        out_edges@.subrange(0, i + 1),
                    ) && self.nodes()[node as int] == ns[node as int] by {
                        lemma_closed_kept(es, before.edges(), r);
                        assert(r.contains(sink));
                        assert(before.edges()[e as int].0 == node);
                        assert(before.edges()[e as int].1 == sink);
                        assert(before.edges()[e as int].2.sink_id == es[e as int].2.sink_id);
                        assert(before.nodes()[node as int] == ns[node as int]);
                        lemma_sent_step(es, before.edges(), self.edges(), ns, before.nodes(), self.nodes(), node, output, state, out_edges@.subrange(0, i as int), e, true);
                    }
                    if !fed(es, node) {
                        assert(!fed(before.edges(), node));
                        assert(before.edges()[e as int].2.sink_id == es[e as int].2.sink_id);
                        assert(before.edges()[e as int].1 == sink);
                        lemma_sent_step(es, before.edges(), self.edges(), ns, before.nodes(), self.nodes(), node, output, state, out_edges@.subrange(0, i as int), e, true);
                    }
                }
            } else {
                proof {
                    assert(es[e as int].2.source_id != output);
                    assert forall|r: Set<usize>| #[trigger] closed(es, r) && !r.contains(node) && successors_in(es, node, r) implies sent_along(
                        es,
                        self.edges(),
                        ns,
                        self.nodes(),
                        node,
                        output,
                        state,
                        out_edges@.subrange(0, i + 1),
                    ) by {
                        lemma_sent_step(es, self.edges(), self.edges(), ns, self.nodes(), self.nodes(), node, output, state, out_edges@.subrange(0, i as int), e, false);
                    }
                    if !fed(es, node) {
                        lemma_sent_step(es, self.edges(), self.edges(), ns, self.nodes(), self.nodes(), node, output, state, out_edges@.subrange(0, i as int), e, false);
                    }
                }
            }
            i = i + 1;
        }
        proof {
            assert(out_edges@.subrange(0, i as int) =~= out_edges@);
            assert forall|j: int| 0 <= j < es.len() && (#[trigger] es[j]).0 == node implies out_edges@.contains(
                (j as usize, es[j].1),
            ) by {
                assert(leaves(es, node, (j as usize, es[j].1)));
            }
        }
    }

    /// Sends `state` along edge `e`, from `node` to `sink`: records it on the
    /// edge, writes it to the sink's input pin (growing an input vector of
    /// any arity with `Undefined`), recomputes the sink and sends on each of
    /// its outputs that changed.
    fn send(&mut self, node: usize, sink: usize, e: usize, state: PinState, depth: u64)
        requires
            wiring_ok(old(self).nodes(), old(self).edges()),
            cached_ok(old(self).nodes(), old(self).edges(), e as int),
            e < old(self).edges().len(),
            old(self).edges()[e as int].0 == node,
            old(self).edges()[e as int].1 == sink,
        ensures
            final(self).wf(),
            evolved(old(self).nodes(), final(self).nodes()),
            same_wiring(old(self).edges(), final(self).edges()),
            unfed_unchanged(old(self).edges(), old(self).nodes(), final(self).nodes()),
            forall|j: int|
                0 <= j < old(self).edges().len() && !fed(old(self).edges(), (#[trigger] old(self).edges()[j]).0)
                    && j != e ==> pin_kept(
                    old(self).nodes(),
                    final(self).nodes(),
                    old(self).edges()[j].1,
                    old(self).edges()[j].2.sink_id,
                ) && final(self).edges()[j] == old(self).edges()[j],
            !fed(old(self).edges(), node) ==> pin_holds(
                final(self).nodes(),
                sink,
                old(self).edges()[e as int].2.sink_id,
                state,
            ) && final(self).edges()[e as int].2.state == state,
            forall|r: Set<usize>| #[trigger]
                closed(old(self).edges(), r) && r.contains(sink) ==> kept_outside(
                    old(self).edges(),
                    final(self).edges(),
                    old(self).nodes(),
                    final(self).nodes(),
                    r,
                    e as int,
                ),
            forall|r: Set<usize>| #[trigger]
                closed(old(self).edges(), r) && !r.contains(sink) && successors_in(old(self).edges(), sink, r) ==> {
                    let after = final(self).nodes()[sink as int];
                    let before = old(self).nodes()[sink as int];
                    &&& after.component == before.component
                    &&& after.input_state@ == written(before.input_state@, old(self).edges()[e as int].2.sink_id, state)
                    &&& settled(after)
                },
            forall|r: Set<usize>| #[trigger]
                closed(old(self).edges(), r) && r.contains(sink) && !r.contains(node) ==> pin_holds(
                    final(self).nodes(),
                    sink,
                    old(self).edges()[e as int].2.sink_id,
                    state,
                ) && final(self).edges()[e as int].2.state == state,
        decreases depth, 0nat,
    {
        let ghost es = self.edges();
        let ghost ns = self.nodes();
        let conn = graph_edge(&self.graph, e);
        let fresh_conn = Connection { state, source_id: conn.source_id, sink_id: conn.sink_id };
        proof {
            lemma_edge_rewritten(ns, es, e as int, fresh_conn);
        }
        graph_set_edge(&mut self.graph, e, fresh_conn);
        let ghost es1 = self.edges();
        proof {
            assert(pin_fits(ns[sink as int].component, conn.sink_id));
            assert(node_ok(ns[sink as int]));
            assert(fed(es, sink));
        }
        let mut n = graph_replace_node(&mut self.graph, sink, Self::vacant());
        let ghost inputs0 = n.input_state@;
        if conn.sink_id < n.input_state.len() {
            n.input_state.set(conn.sink_id, state);
        } else {
            while n.input_state.len() < conn.sink_id
                invariant
                    sink < ns.len(),
                    inputs0.len() <= n.input_state@.len() <= conn.sink_id,
                    forall|q: int| 0 <= q < inputs0.len() ==> n.input_state@[q] == inputs0[q],
                    forall|q: int| inputs0.len() <= q < n.input_state@.len() ==> n.input_state@[q] == PinState::Undefined,
                    n.component == ns[sink as int].component,
                    n.output_state == ns[sink as int].output_state,
                    n.component.spec_input_count() == InputPinCount::Any,
                decreases conn.sink_id - n.input_state@.len(),
            {
                n.input_state.push(PinState::Undefined);
            }
            n.input_state.push(state);
            proof {
                assert(n.input_state@ =~= written(inputs0, conn.sink_id, state));
            }
        }
        proof {
            assert(n.input_state@ =~= written(inputs0, conn.sink_id, state));
        }
        let fresh = n.component.calculate(n.input_state.as_slice());
        let outputs = copy_states(&fresh);
        let mut previous = fresh;
        core::mem::swap(&mut n.output_state, &mut previous);
        proof {
            assert(inputs0 == ns[sink as int].input_state@);
            assert(node_ok(n));
            lemma_node_replaced(ns, es1, sink as int, n);
        }
        let ghost stored = n;
        let _ = graph_replace_node(&mut self.graph, sink, n);
        proof {
            let ns2 = self.nodes();
            assert(ns2 == ns.update(sink as int, n));
            assert(settled(n));
            assert(pin_holds(ns2, sink, conn.sink_id, state));
            assert forall|q: int| 0 <= q < ns.len() && !fed(es, q as usize) implies #[trigger] ns2[q] == ns[q] by {}
            assert forall|j: int| 0 <= j < es.len() && j != e implies pin_kept(
                ns,
                ns2,
                #[trigger] es[j].1,
                es[j].2.sink_id,
            ) && es1[j] == es[j] by {
                if es[j].1 == sink {
                    assert(es[j].2.sink_id != es[e as int].2.sink_id);
                }
            }
            assert forall|r: Set<usize>| #[trigger] closed(es, r) && r.contains(sink) implies kept_outside(
                es,
                es1,
                ns,
                ns2,
                r,
                e as int,
            ) by {
                assert forall|j: int| 0 <= j < es.len() && !r.contains((#[trigger] es[j]).0) && j != e implies es1[j]
                    == es[j] && pin_kept(ns, ns2, es[j].1, es[j].2.sink_id) by {
                    assert(pin_kept(ns, ns2, es[j].1, es[j].2.sink_id));
                }
            }
        }
        if depth == 0 {
            return;
        }
        let mut k: usize = 0;
        while k < previous.len() && k < outputs.len()
            invariant
                es == old(self).edges(),
                ns == old(self).nodes(),
                self.wf(),
                depth > 0,
                sink < self.nodes().len(),
                e < es.len(),
                es[e as int].0 == node,
                es[e as int].1 == sink,
                fed(es, sink),
                evolved(ns, self.nodes()),
                same_wiring(es, self.edges()),
                unfed_unchanged(es, ns, self.nodes()),
                forall|j: int|
                    0 <= j < es.len() && !fed(es, (#[trigger] es[j]).0) && j != e ==> pin_kept(
                        ns,
                        self.nodes(),
                        es[j].1,
                        es[j].2.sink_id,
                    ) && self.edges()[j] == es[j],
                !fed(es, node) ==> pin_holds(self.nodes(), sink, es[e as int].2.sink_id, state)
                    && self.edges()[e as int].2.state == state,
                forall|r: Set<usize>| #[trigger]
                    closed(es, r) && r.contains(sink) ==> kept_outside(es, self.edges(), ns, self.nodes(), r, e as int),
                stored.component == ns[sink as int].component,
                stored.input_state@ == written(ns[sink as int].input_state@, es[e as int].2.sink_id, state),
                settled(stored),
                forall|r: Set<usize>| #[trigger]
                    closed(es, r) && !r.contains(sink) && successors_in(es, sink, r) ==> self.nodes()[sink as int] == stored,
                forall|r: Set<usize>| #[trigger]
                    closed(es, r) && r.contains(sink) && !r.contains(node) ==> pin_holds(
                        self.nodes(),
                        sink,
                        es[e as int].2.sink_id,
                        state,
                    ) && self.edges()[e as int].2.state == state,
            decreases previous@.len() - k,
        {
            if previous[k] != outputs[k] {
                let ghost before = *self;
                self.deliver(sink, k, outputs[k], depth - 1);
                proof {
                    lemma_evolved_trans(ns, before.nodes(), self.nodes());
                    lemma_same_wiring_trans(es, before.edges(), self.edges());
                    lemma_fed_all(es, before.edges());
                    assert forall|q: int| 0 <= q < ns.len() && !fed(es, q as usize) implies #[trigger] self.nodes()[q]
                        == ns[q] by {
                        assert(before.nodes()[q] == ns[q]);
                    }
                    assert forall|j: int|
                        0 <= j < es.len() && !fed(es, (#[trigger] es[j]).0) && j != e implies pin_kept(
                        ns,
                        self.nodes(),
                        es[j].1,
                        es[j].2.sink_id,
                    ) && self.edges()[j] == es[j] by {
                        assert(before.edges()[j].0 == es[j].0);
                        assert(es[j].0 != sink);
                    }
                    if !fed(es, node) {
                        assert(before.edges()[e as int].0 == node);
                        assert(node != sink);
                    }
                    assert forall|r: Set<usize>| #[trigger] closed(es, r) && r.contains(sink) implies kept_outside(
                        es,
                        self.edges(),
                        ns,
                        self.nodes(),
                        r,
                        e as int,
                    ) && (!r.contains(node) ==> pin_holds(self.nodes(), sink, es[e as int].2.sink_id, state)
                        && self.edges()[e as int].2.state == state) by {
                        lemma_closed_kept(es, before.edges(), r);
                        assert(closed(before.edges(), r));
                        lemma_kept_outside_except(before.edges(), self.edges(), before.nodes(), self.nodes(), r, -1, e as int);
                        lemma_kept_outside_trans(es, before.edges(), self.edges(), ns, before.nodes(), self.nodes(), r, e as int);
                        if !r.contains(node) {
                            assert(before.edges()[e as int].0 == node);
                        }
                    }
                    assert forall|r: Set<usize>| #[trigger] closed(es, r) && !r.contains(sink) && successors_in(es, sink, r) implies self.nodes()[sink as int] == stored by {
                        lemma_closed_kept(es, before.edges(), r);
                        lemma_successors_in_kept(es, before.edges(), sink, r);
                        assert(closed(before.edges(), r));
                    }
                }
            }
            k = k + 1;
        }
    }
}

/// The outcome that `connect` owes for these arguments.
pub open spec fn connect_outcome(
    ns: Seq<GraphNode>,
    es: Seq<(usize, usize, Connection)>,
    from: usize,
    source_id: usize,
    to: usize,
    sink_id: usize,
) -> Result<(), ConnectError> {
    if from >= ns.len() {
        Err(ConnectError::ComponentNotFound(from))
    } else if to >= ns.len() {
        Err(ConnectError::ComponentNotFound(to))
    } else if pin_driven(es, to, sink_id) {
        Err(ConnectError::InputAlreadyConnected)
    } else if source_id >= ns[from as int].output_state@.len() {
        Err(ConnectError::OutputPinDoesntExist)
    } else {
        Ok(())
    }
}

fn holds_index(v: &Vec<usize>, k: usize) -> (r: bool)
    ensures
        r == v@.contains(k),
{
    let mut i: usize = 0;
    while i < v.len()
        invariant
            i <= v@.len(),
            forall|j: int| 0 <= j < i ==> v@[j] != k,
        decreases v@.len() - i,
    {
        if v[i] == k {
            return true;
        }
        i = i + 1;
    }
    false
}

/// What `pin_value` reports for `node_id`.
pub open spec fn shown_value(ns: Seq<GraphNode>, node_id: usize) -> Option<PinState> {
    if node_id < ns.len() {
        match ns[node_id as int].component {
            Element::Input(pin) => Some(pin.value),
            Element::Output(_) => Some(ns[node_id as int].input_state@[0]),
            _ => None,
        }
    } else {
        None
    }
}


} // verus!