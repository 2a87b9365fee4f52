use linjs::{CanAccess, CanAlloc, CanCreate, CanExtend, HasClass, HasInstance};
use linjs::{InCompartment, JSCompartmentImpl, JSContext, JSManaged, JSRunnable, Snapshotted};
use linjs::{JSTraceable, JSTracer};

// The heap of this compartment holds graphs and nodes.
type Node<'a, C> = JSManaged<'a, C, NativeClass>;
type Graph<'a, C> = JSManaged<'a, C, NativeClass>;

enum Native<'a, C> {
    Graph { nodes: Vec<Node<'a, C>> },
    Node { data: usize, edges: Vec<Node<'a, C>> },
}
impl<'a, C> HasClass for Native<'a, C> {
    type Class = NativeClass;
}
struct NativeClass;
impl<'a, C> HasInstance<'a, C> for NativeClass {
    type Instance = Native<'a, C>;
}

type N = Native<'static, JSCompartmentImpl>;

impl<'a, C> JSTraceable for Native<'a, C> {
    // What tracing reports is stated to the verifier only; nothing calls this at run time.
    fn traced(&self) -> vstd::seq::Seq<usize> {
        unreachable!()
    }

    fn trace(&self, trc: &mut JSTracer) {
        match self {
            Native::Graph { nodes } => nodes.trace(trc),
            Native::Node { data, edges } => {
                data.trace(trc);
                edges.trace(trc);
            }
        }
    }
}

fn nodes<'a, 'b, C>(n: &'b Native<'a, C>) -> &'b Vec<Node<'a, C>> {
    match n {
        Native::Graph { nodes } => nodes,
        Native::Node { .. } => panic!("not a graph"),
    }
}

fn nodes_mut<'a, 'b, C>(n: &'b mut Native<'a, C>) -> &'b mut Vec<Node<'a, C>> {
    match n {
        Native::Graph { nodes } => nodes,
        Native::Node { .. } => panic!("not a graph"),
    }
}

fn data<C>(n: &Native<'_, C>) -> usize {
    match n {
        Native::Node { data, .. } => *data,
        Native::Graph { .. } => panic!("not a node"),
    }
}

fn edges<'a, 'b, C>(n: &'b Native<'a, C>) -> &'b Vec<Node<'a, C>> {
    match n {
        Native::Node { edges, .. } => edges,
        Native::Graph { .. } => panic!("not a node"),
    }
}

fn edges_mut<'a, 'b, C>(n: &'b mut Native<'a, C>) -> &'b mut Vec<Node<'a, C>> {
    match n {
        Native::Node { edges, .. } => edges,
        Native::Graph { .. } => panic!("not a node"),
    }
}

// Approach 1 is to root the node.
fn add_node1<S>(cx: &mut JSContext<S, N>, graph: Graph<'static, JSCompartmentImpl>)
where
    S: CanAccess + CanAlloc + InCompartment<JSCompartmentImpl>,
{
    let mut root = cx.new_root();
    let fresh: Node<'static, JSCompartmentImpl> =
        cx.manage(Native::Node { data: 1, edges: vec![] }).change_lifetime();
    let pinned = root.pin(cx, fresh);
    let node1 = *pinned;
    nodes_mut(graph.get_mut(cx)).push(node1.change_lifetime());
    pinned.unpin(cx);
}

// Approach 2 is to take a snapshot of the context right after allocation.
fn add_node2<S>(
    cx: JSContext<S, N>,
    graph: Graph<'static, JSCompartmentImpl>,
) -> JSContext<S, N>
where
    S: CanAccess + CanAlloc + InCompartment<JSCompartmentImpl>,
{
    let (mut cx, node2) = cx.snapshot_manage(Native::Node { data: 2, edges: vec![] });
    nodes_mut(graph.get_mut(&mut cx)).push(node2.change_lifetime());
    cx.release()
}

// Note that there's no rooting here.
fn add_edges<'a, S>(cx: &mut JSContext<S, N>, graph: Graph<'static, JSCompartmentImpl>)
where
    S: CanAccess + CanExtend<'a> + InCompartment<JSCompartmentImpl>,
{
    let node1: Node<'a, JSCompartmentImpl> = nodes(graph.get(cx))[0].extend_lifetime(cx);
    let node2: Node<'a, JSCompartmentImpl> = nodes(graph.get(cx))[1].extend_lifetime(cx);
    edges_mut(node1.get_mut(cx)).push(node2.change_lifetime());
    edges_mut(node2.get_mut(cx)).push(node1.change_lifetime());
}

struct Example;

impl JSRunnable<NativeClass, N> for Example {
    fn run<S>(self, cx: JSContext<S, N>)
    where
        S: CanCreate<JSCompartmentImpl>,
    {
        let cx = cx.create_compartment();
        let mut cx = cx.global_manage(Native::Graph { nodes: vec![] });
        let graph: Graph<'static, JSCompartmentImpl> = cx.global();
        add_node1(&mut cx, graph);
        let cx = add_node2(cx, graph);
        assert_eq!(data(nodes(graph.get(&cx))[0].get(&cx)), 1);
        assert_eq!(data(nodes(graph.get(&cx))[1].get(&cx)), 2);
        let mut cx: JSContext<Snapshotted<'_, _>, N> = cx.snapshot();
        add_edges(&mut cx, graph);
        assert_eq!(data(edges(nodes(graph.get(&cx))[0].get(&cx))[0].get(&cx)), 2);
        assert_eq!(data(edges(nodes(graph.get(&cx))[1].get(&cx))[0].get(&cx)), 1);
        assert!(cx.pinned_roots().is_empty());
    }
}

#[test]
fn builds_a_two_node_cyclic_graph() {
    Example.start();
}
