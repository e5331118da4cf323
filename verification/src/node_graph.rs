//! The operator graph: nodes with input and output sockets, connections
//! between them, selection, and deletion.

use vstd::prelude::*;
use crate::dfs::{
    is_post_order, lemma_post_order, lemma_unvisited_drop, lemma_unvisited_mono, lemma_visit_finish, lemma_visit_step,
    partial_visit, ranked, subset_of, unvisited, visit_result,
};
use crate::types::{ConnectionId, NodeId, NodeType, is_generator, spec_is_generator};

verus! {

/// An input socket; records the output it is connected to.
#[derive(Clone, Debug)]
pub struct InputSocket {
    pub name: String,
    pub connected_output: Option<(NodeId, usize)>,
}

/// An output socket.
#[derive(Clone, Debug)]
pub struct OutputSocket {
    pub name: String,
}

/// A node of the operator graph. `P` is the type of its canvas position.
#[derive(Clone, Debug)]
pub struct GraphNode<S, V, P> {
    pub id: NodeId,
    pub name: String,
    pub node_type: NodeType<S, V>,
    pub position: P,
    pub inputs: Vec<InputSocket>,
    pub outputs: Vec<OutputSocket>,
}

/// A connection from an output socket to an input socket.
#[derive(Clone, Copy, Debug, PartialEq, Eq, Structural)]
pub struct Connection {
    pub id: ConnectionId,
    pub from_node: NodeId,
    pub from_output: usize,
    pub to_node: NodeId,
    pub to_input: usize,
}

/// The operator graph and its selection state.
pub struct NodeGraphState<S, V, P> {
    pub nodes: Vec<GraphNode<S, V, P>>,
    pub connections: Vec<Connection>,
    pub next_node_id: usize,
    pub next_connection_id: usize,
    pub selected_node: Option<NodeId>,
    pub dragging_node: Option<NodeId>,
    pub connecting_from: Option<(NodeId, usize)>,
    pub renaming_node: Option<NodeId>,
    pub rename_buffer: String,
    pub selected_nodes: Vec<NodeId>,
    pub selected_connection: Option<ConnectionId>,
}

// ── Sockets ─────────────────────────────────────────────────────────────────

/// Names of the input sockets of an operator.
pub open spec fn input_names<S, V>(t: NodeType<S, V>) -> Seq<Seq<char>> {
    match t {
        NodeType::CreateCube { .. } | NodeType::CreateSphere { .. } | NodeType::CreateGrid { .. }
        | NodeType::LoadUsd { .. } => seq![],
        NodeType::Transform { .. } => seq!["Input"@],
        NodeType::Merge => seq!["A"@, "B"@],
        NodeType::ScatterPoints { .. } => seq!["Surface"@],
        NodeType::CopyToPoints => seq!["Template"@, "Points"@],
        NodeType::Output => seq!["Scene"@],
        NodeType::Subnet { .. } => seq!["In"@],
    }
}

/// Names of the output sockets of an operator.
pub open spec fn output_names<S, V>(t: NodeType<S, V>) -> Seq<Seq<char>> {
    match t {
        NodeType::CreateCube { .. } | NodeType::CreateSphere { .. } | NodeType::CreateGrid { .. }
        | NodeType::LoadUsd { .. } => seq!["Mesh"@],
        NodeType::Transform { .. } => seq!["Output"@],
        NodeType::Merge => seq!["Result"@],
        NodeType::ScatterPoints { .. } => seq!["Points"@],
        NodeType::CopyToPoints => seq!["Geo"@],
        NodeType::Output => seq![],
        NodeType::Subnet { .. } => seq!["Out"@],
    }
}

/// Unconnected input sockets with the given names.
pub open spec fn fresh_inputs(ins: Seq<InputSocket>, names: Seq<Seq<char>>) -> bool {
    ins.len() == names.len() && forall|i: int|
        0 <= i < ins.len() ==> #[trigger] ins[i].name@ == names[i] && ins[i].connected_output is None
}

/// Output sockets with the given names.
pub open spec fn outputs_named(outs: Seq<OutputSocket>, names: Seq<Seq<char>>) -> bool {
    outs.len() == names.len() && forall|i: int| 0 <= i < outs.len() ==> #[trigger] outs[i].name@ == names[i]
}

fn input(n: &str) -> (s: InputSocket)
    ensures
        s.name@ == n@,
        s.connected_output is None,
{
    InputSocket { name: String::from_str(n), connected_output: None }
}

fn output(n: &str) -> (s: OutputSocket)
    ensures
        s.name@ == n@,
{
    OutputSocket { name: String::from_str(n) }
}

// ── Lookup ──────────────────────────────────────────────────────────────────

/// Index of the first node with id `id`, or the number of nodes.
pub open spec fn node_index<S, V, P>(nodes: Seq<GraphNode<S, V, P>>, id: NodeId) -> int
    decreases nodes.len(),
{
    if nodes.len() == 0 {
        0
    } else if node_index(nodes.drop_last(), id) < nodes.len() - 1 {
        node_index(nodes.drop_last(), id)
    } else if nodes.last().id == id {
        nodes.len() - 1
    } else {
        nodes.len() as int
    }
}

pub proof fn lemma_node_index<S, V, P>(nodes: Seq<GraphNode<S, V, P>>, id: NodeId)
    ensures
        0 <= node_index(nodes, id) <= nodes.len(),
        node_index(nodes, id) < nodes.len() ==> nodes[node_index(nodes, id)].id == id,
        forall|j: int| 0 <= j < node_index(nodes, id) ==> #[trigger] nodes[j].id != id,
    decreases nodes.len(),
{
    if nodes.len() > 0 {
        lemma_node_index(nodes.drop_last(), id);
        assert forall|j: int| 0 <= j < node_index(nodes, id) implies #[trigger] nodes[j].id != id by {
            if j < nodes.len() - 1 {
                assert(nodes[j] == nodes.drop_last()[j]);
            }
        }
    }
}

/// Finds the first node with id `id`.
pub fn find_node<S, V, P>(nodes: &Vec<GraphNode<S, V, P>>, id: NodeId) -> (k: usize)
    ensures
        k == node_index(nodes@, id),
        k <= nodes.len(),
        k < nodes.len() ==> nodes@[k as int].id == id,
        forall|j: int| 0 <= j < k ==> #[trigger] nodes@[j].id != id,
{
    proof {
        lemma_node_index(nodes@, id);
    }
    let mut k: usize = 0;
    while k < nodes.len()
        invariant
            k <= nodes.len(),
            forall|j: int| 0 <= j < k ==> #[trigger] nodes@[j].id != id,
            node_index(nodes@, id) >= k,
        decreases nodes.len() - k,
    {
        proof {
            lemma_node_index(nodes@, id);
        }
        if nodes[k].id == id {
            return k;
        }
        k = k + 1;
    }
    proof {
        lemma_node_index(nodes@, id);
    }
    k
}

/// `new` is `old` with input `i` of its first node with id `to` set to `v`,
/// when that node and input exist; otherwise `new` is `old`.
pub open spec fn set_input<S, V, P>(
    old: Seq<GraphNode<S, V, P>>,
    new: Seq<GraphNode<S, V, P>>,
    to: NodeId,
    i: usize,
    v: Option<(NodeId, usize)>,
) -> bool {
    let k = node_index(old, to);
    if k < old.len() && i < old[k].inputs.len() {
        &&& new.len() == old.len()
        &&& forall|j: int| 0 <= j < old.len() && j != k ==> #[trigger] new[j] == old[j]
        &&& new[k].id == old[k].id
        &&& new[k].name == old[k].name
        &&& new[k].node_type == old[k].node_type
        &&& new[k].position == old[k].position
        &&& new[k].outputs == old[k].outputs
        &&& new[k].inputs@ == old[k].inputs@.update(
            i as int,
            InputSocket { name: old[k].inputs@[i as int].name, connected_output: v },
        )
    } else {
        new == old
    }
}

/// The connection targets input `i` of node `to`.
pub open spec fn targets(c: Connection, to: NodeId, i: usize) -> bool {
    c.to_node == to && c.to_input == i
}

/// The connection has id `cid`.
pub open spec fn has_id(c: Connection, cid: ConnectionId) -> bool {
    c.id == cid
}

/// Whether a connection survives dropping the connections into the input
/// `drop_to` and the connection with id `drop_id`.
pub open spec fn kept(c: Connection, drop_to: Option<(NodeId, usize)>, drop_id: Option<ConnectionId>) -> bool {
    !(drop_to matches Some(t) && targets(c, t.0, t.1)) && !(drop_id matches Some(d) && has_id(c, d))
}

/// `kept` as a predicate.
pub open spec fn keep_pred(drop_to: Option<(NodeId, usize)>, drop_id: Option<ConnectionId>) -> spec_fn(Connection) -> bool {
    |c: Connection| kept(c, drop_to, drop_id)
}

/// The connections that survive dropping those into the input `drop_to`
/// and the one with id `drop_id`, in order.
pub fn keep_connections(conns: &Vec<Connection>, drop_to: Option<(NodeId, usize)>, drop_id: Option<ConnectionId>) -> (r: Vec<Connection>)
    ensures
        r@ == conns@.filter(keep_pred(drop_to, drop_id)),
{
    let ghost pred = keep_pred(drop_to, drop_id);
    let mut r: Vec<Connection> = Vec::new();
    let mut i: usize = 0;
    proof {
        reveal_with_fuel(Seq::<Connection>::filter, 1);
        assert(conns@.take(0) =~= seq![]);
    }
    while i < conns.len()
        invariant
            i <= conns.len(),
            pred == keep_pred(drop_to, drop_id),
            r@ == conns@.take(i as int).filter(pred),
        decreases conns.len() - i,
    {
        let c = conns[i];
        let drop_a = match drop_to {
            Some(t) => c.to_node == t.0 && c.to_input == t.1,
            None => false,
        };
        let drop_b = match drop_id {
            Some(d) => c.id == d,
            None => false,
        };
        proof {
            reveal_with_fuel(Seq::<Connection>::filter, 1);
            assert(conns@.take(i + 1).drop_last() =~= conns@.take(i as int));
            assert(conns@.take(i + 1).last() == c);
            assert(pred(c) == (!drop_a && !drop_b));
        }
        if !drop_a && !drop_b {
            r.push(c);
        }
        i = i + 1;
    }
    assert(conns@.take(conns.len() as int) =~= conns@);
    r
}

/// Index of the first connection with id `cid`, or the number of
/// connections.
pub open spec fn connection_index(conns: Seq<Connection>, cid: ConnectionId) -> int
    decreases conns.len(),
{
    if conns.len() == 0 {
        0
    } else if connection_index(conns.drop_last(), cid) < conns.len() - 1 {
        connection_index(conns.drop_last(), cid)
    } else if conns.last().id == cid {
        conns.len() - 1
    } else {
        conns.len() as int
    }
}

pub proof fn lemma_connection_index(conns: Seq<Connection>, cid: ConnectionId)
    ensures
        0 <= connection_index(conns, cid) <= conns.len(),
        connection_index(conns, cid) < conns.len() ==> conns[connection_index(conns, cid)].id == cid,
        forall|j: int| 0 <= j < connection_index(conns, cid) ==> #[trigger] conns[j].id != cid,
    decreases conns.len(),
{
    if conns.len() > 0 {
        lemma_connection_index(conns.drop_last(), cid);
        assert forall|j: int| 0 <= j < connection_index(conns, cid) implies #[trigger] conns[j].id != cid by {
            if j < conns.len() - 1 {
                assert(conns[j] == conns.drop_last()[j]);
            }
        }
    }
}

pub fn find_connection(conns: &Vec<Connection>, cid: ConnectionId) -> (k: usize)
    ensures
        k == connection_index(conns@, cid),
{
    proof {
        lemma_connection_index(conns@, cid);
    }
    let mut k: usize = 0;
    while k < conns.len()
        invariant
            k <= conns.len(),
            forall|j: int| 0 <= j < k ==> #[trigger] conns@[j].id != cid,
            connection_index(conns@, cid) >= k,
        decreases conns.len() - k,
    {
        proof {
            lemma_connection_index(conns@, cid);
        }
        if conns[k].id == cid {
            return k;
        }
        k = k + 1;
    }
    proof {
        lemma_connection_index(conns@, cid);
    }
    k
}

/// Sets input `i` of the first node with id `to` to `v`, if they exist.
fn connect_input<S, V, P>(nodes: &mut Vec<GraphNode<S, V, P>>, to: NodeId, i: usize, v: Option<(NodeId, usize)>)
    ensures
        set_input(old(nodes)@, final(nodes)@, to, i, v),
{
    let k = find_node(nodes, to);
    if k < nodes.len() && i < nodes[k].inputs.len() {
        nodes[k].inputs[i].connected_output = v;
        proof {
            assert(nodes@[k as int].inputs@ =~= old(nodes)@[k as int].inputs@.update(
                i as int,
                InputSocket { name: old(nodes)@[k as int].inputs@[i as int].name, connected_output: v },
            ));
        }
    }
}

impl<S, V, P> NodeGraphState<S, V, P> {
    /// Node ids are distinct and below `next_node_id`.
    pub open spec fn wf(&self) -> bool {
        &&& ids_below(node_shapes(self.nodes@), self.next_node_id)
        &&& ids_distinct(node_shapes(self.nodes@))
    }

    /// The selection and editing state of `a` and `b` agree.
    pub open spec fn same_selection(a: &Self, b: &Self) -> bool {
        &&& a.selected_node == b.selected_node
        &&& a.dragging_node == b.dragging_node
        &&& a.connecting_from == b.connecting_from
        &&& a.renaming_node == b.renaming_node
        &&& a.rename_buffer == b.rename_buffer
        &&& a.selected_nodes == b.selected_nodes
        &&& a.selected_connection == b.selected_connection
    }

    /// The sockets of a new node of type `t`, all inputs unconnected.
    pub fn create_sockets(t: &NodeType<S, V>) -> (r: (Vec<InputSocket>, Vec<OutputSocket>))
        ensures
            fresh_inputs(r.0@, input_names(*t)),
            outputs_named(r.1@, output_names(*t)),
    {
        let r = match t {
            NodeType::CreateCube { .. } | NodeType::CreateSphere { .. } | NodeType::CreateGrid { .. }
            | NodeType::LoadUsd { .. } => (vec![], vec![output("Mesh")]),
            NodeType::Transform { .. } => (vec![input("Input")], vec![output("Output")]),
            NodeType::Merge => (vec![input("A"), input("B")], vec![output("Result")]),
            NodeType::ScatterPoints { .. } => (vec![input("Surface")], vec![output("Points")]),
            NodeType::CopyToPoints => (vec![input("Template"), input("Points")], vec![output("Geo")]),
            NodeType::Output => (vec![input("Scene")], vec![]),
            NodeType::Subnet { .. } => (vec![input("In")], vec![output("Out")]),
        };
        r
    }

    /// Adds a node with fresh sockets; its id is the next unused one.
    pub fn add_node(&mut self, name: String, node_type: NodeType<S, V>, pos: P) -> (id: NodeId)
        requires
            old(self).next_node_id < usize::MAX,
        ensures
            id == NodeId(old(self).next_node_id),
            final(self).next_node_id == old(self).next_node_id + 1,
            final(self).nodes@.len() == old(self).nodes@.len() + 1,
            final(self).nodes@.drop_last() == old(self).nodes@,
            final(self).nodes@.last().id == id,
            final(self).nodes@.last().name == name,
            final(self).nodes@.last().node_type == node_type,
            final(self).nodes@.last().position == pos,
            fresh_inputs(final(self).nodes@.last().inputs@, input_names(node_type)),
            outputs_named(final(self).nodes@.last().outputs@, output_names(node_type)),
            final(self).connections == old(self).connections,
            final(self).next_connection_id == old(self).next_connection_id,
            Self::same_selection(old(self), final(self)),
            old(self).wf() ==> final(self).wf(),
            canvas_step(*old(self), *final(self)),
    {
        let id = NodeId(self.next_node_id);
        self.next_node_id = self.next_node_id + 1;
        let (inputs, outputs) = Self::create_sockets(&node_type);
        let ghost n0 = self.nodes@;
        self.nodes.push(GraphNode { id, name, node_type, position: pos, inputs, outputs });
        assert(self.nodes@.drop_last() =~= n0);
        assert(node_shapes(self.nodes@) =~= node_shapes(n0).push(shape(self.nodes@.last())));
        proof {
            assert forall|i: int| 0 <= i < self.nodes@.len() implies graph_ids(n0).contains(#[trigger] self.nodes@[i].id)
                || self.nodes@[i].id.0 >= old(self).next_node_id by {
                if i < n0.len() {
                    assert(self.nodes@[i] == n0[i]);
                    assert(graph_ids(n0)[i] == n0[i].id);
                }
            }
            assert forall|i: int| 0 <= i < n0.len() && (#[trigger] n0[i]).node_type is Output implies node_shapes(
                self.nodes@,
            ).contains(shape(n0[i])) by {
                assert(node_shapes(self.nodes@)[i] == shape(n0[i]));
            }
        }
        id
    }

    /// Connects output `from_out` of `from` to input `to_in` of `to`,
    /// replacing any connection into that input.
    pub fn add_connection(&mut self, from: NodeId, from_out: usize, to: NodeId, to_in: usize)
        requires
            old(self).next_connection_id < usize::MAX,
        ensures
            final(self).connections@ == old(self).connections@.filter(keep_pred(Some((to, to_in)), None)).push(
                Connection {
                    id: ConnectionId(old(self).next_connection_id),
                    from_node: from,
                    from_output: from_out,
                    to_node: to,
                    to_input: to_in,
                },
            ),
            final(self).next_connection_id == old(self).next_connection_id + 1,
            set_input(old(self).nodes@, final(self).nodes@, to, to_in, Some((from, from_out))),
            final(self).next_node_id == old(self).next_node_id,
            Self::same_selection(old(self), final(self)),
            old(self).wf() ==> final(self).wf(),
            canvas_step(*old(self), *final(self)),
    {
        self.connections = keep_connections(&self.connections, Some((to, to_in)), None);
        let id = ConnectionId(self.next_connection_id);
        self.next_connection_id = self.next_connection_id + 1;
        connect_input(&mut self.nodes, to, to_in, Some((from, from_out)));
        self.connections.push(
            Connection { id, from_node: from, from_output: from_out, to_node: to, to_input: to_in },
        );
        proof {
            lemma_node_index(old(self).nodes@, to);
            lemma_set_input_shapes(old(self).nodes@, self.nodes@, to, to_in, Some((from, from_out)));
        }
        proof {
            lemma_set_input_shapes(old(self).nodes@, self.nodes@, to, to_in, Some((from, from_out)));
            lemma_canvas_same_shapes(*old(self), *self);
        }
    }

    /// Removes the connection with id `cid`, clearing the input it fed.
    pub fn remove_connection(&mut self, cid: ConnectionId)
        ensures
            final(self).connections@ == old(self).connections@.filter(keep_pred(None, Some(cid))),
            ({
                let k = connection_index(old(self).connections@, cid);
                if k < old(self).connections@.len() {
                    let c = old(self).connections@[k];
                    set_input(old(self).nodes@, final(self).nodes@, c.to_node, c.to_input, None)
                } else {
                    final(self).nodes == old(self).nodes
                }
            }),
            final(self).next_node_id == old(self).next_node_id,
            final(self).next_connection_id == old(self).next_connection_id,
            Self::same_selection(old(self), final(self)),
            old(self).wf() ==> final(self).wf(),
            canvas_step(*old(self), *final(self)),
    {
        let k = find_connection(&self.connections, cid);
        if k < self.connections.len() {
            let c = self.connections[k];
            connect_input(&mut self.nodes, c.to_node, c.to_input, None);
            proof {
                lemma_node_index(old(self).nodes@, c.to_node);
                lemma_set_input_shapes(old(self).nodes@, self.nodes@, c.to_node, c.to_input, None);
            }
        }
        self.connections = keep_connections(&self.connections, None, Some(cid));
        proof {
            lemma_canvas_same_shapes(*old(self), *self);
        }
    }
}

// ── Deletion ────────────────────────────────────────────────────────────────

/// The id of a node and whether it is the `Output` node.
pub open spec fn shape<S, V, P>(n: GraphNode<S, V, P>) -> (NodeId, bool) {
    (n.id, n.node_type is Output)
}

/// Ids and kinds of the nodes, in order.
pub open spec fn node_shapes<S, V, P>(nodes: Seq<GraphNode<S, V, P>>) -> Seq<(NodeId, bool)> {
    nodes.map_values(|n: GraphNode<S, V, P>| shape(n))
}

/// The connection starts or ends at node `d`.
pub open spec fn touches(c: Connection, d: NodeId) -> bool {
    c.from_node == d || c.to_node == d
}

proof fn lemma_set_input_shapes<S, V, P>(
    a: Seq<GraphNode<S, V, P>>,
    b: Seq<GraphNode<S, V, P>>,
    to: NodeId,
    i: usize,
    v: Option<(NodeId, usize)>,
)
    requires
        set_input(a, b, to, i, v),
    ensures
        node_shapes(b) == node_shapes(a),
{
    lemma_node_index(a, to);
    assert(node_shapes(b) =~= node_shapes(a));
}

/// Everything in `a` is in `b`.
pub open spec fn within<T>(a: Seq<T>, b: Seq<T>) -> bool {
    forall|i: int| 0 <= i < a.len() ==> b.contains(#[trigger] a[i])
}

pub proof fn lemma_filter_within<T>(s: Seq<T>, p: spec_fn(T) -> bool)
    ensures
        within(s.filter(p), s),
        forall|i: int| 0 <= i < s.filter(p).len() ==> p(#[trigger] s.filter(p)[i]),
        forall|i: int| 0 <= i < s.len() && p(#[trigger] s[i]) ==> s.filter(p).contains(s[i]),
{
    #[allow(deprecated)]
    s.filter_lemma(p);
    assert forall|i: int| 0 <= i < s.filter(p).len() implies s.contains(#[trigger] s.filter(p)[i]) by {
        filter_member(s, p, i);
    }
}

proof fn filter_member<T>(s: Seq<T>, p: spec_fn(T) -> bool, i: int)
    requires
        0 <= i < s.filter(p).len(),
    ensures
        s.contains(s.filter(p)[i]),
    decreases s.len(),
{
    reveal(Seq::filter);
    if s.len() > 0 {
        let sub = s.drop_last().filter(p);
        if i < sub.len() {
            filter_member(s.drop_last(), p, i);
            let w = choose|w: int| 0 <= w < s.drop_last().len() && s.drop_last()[w] == sub[i];
            assert(s[w] == s.filter(p)[i]);
        } else {
            assert(s[s.len() - 1] == s.filter(p)[i]);
        }
    }
}

/// The first node with id `d` is the `Output` node.
pub open spec fn is_output_id<S, V, P>(nodes: Seq<GraphNode<S, V, P>>, d: NodeId) -> bool {
    node_index(nodes, d) < nodes.len() && nodes[node_index(nodes, d)].node_type is Output
}

/// `is_output_id` negated, as a predicate.
pub open spec fn not_output_pred<S, V, P>(nodes: Seq<GraphNode<S, V, P>>) -> spec_fn(NodeId) -> bool {
    |d: NodeId| !is_output_id(nodes, d)
}

/// Deleting the selection `sel` removes the nodes with id `d`: `d` is
/// selected and is not the id of the `Output` node.
pub open spec fn removed_by<S, V, P>(nodes: Seq<GraphNode<S, V, P>>, sel: Seq<NodeId>, d: NodeId) -> bool {
    sel.contains(d) && !is_output_id(nodes, d)
}

/// The connection starts or ends at a removed node.
pub open spec fn dropped_by<S, V, P>(nodes: Seq<GraphNode<S, V, P>>, sel: Seq<NodeId>, c: Connection) -> bool {
    removed_by(nodes, sel, c.from_node) || removed_by(nodes, sel, c.to_node)
}

/// The connections that deleting `sel` keeps.
pub open spec fn conn_kept_pred<S, V, P>(nodes: Seq<GraphNode<S, V, P>>, sel: Seq<NodeId>) -> spec_fn(Connection) -> bool {
    |c: Connection| !dropped_by(nodes, sel, c)
}

/// The nodes that deleting `sel` keeps.
pub open spec fn node_kept_pred<S, V, P>(nodes: Seq<GraphNode<S, V, P>>, sel: Seq<NodeId>) -> spec_fn(GraphNode<S, V, P>) -> bool {
    |n: GraphNode<S, V, P>| !removed_by(nodes, sel, n.id)
}

/// The shapes of the nodes that deleting `sel` keeps.
pub open spec fn shape_kept_pred<S, V, P>(nodes: Seq<GraphNode<S, V, P>>, sel: Seq<NodeId>) -> spec_fn((NodeId, bool)) -> bool {
    |p: (NodeId, bool)| !removed_by(nodes, sel, p.0)
}

/// Input `i` of node `id` is fed by a connection that deleting `sel` drops.
pub open spec fn input_dropped<S, V, P>(
    nodes: Seq<GraphNode<S, V, P>>,
    sel: Seq<NodeId>,
    conns: Seq<Connection>,
    id: NodeId,
    i: int,
) -> bool {
    exists|j: int|
        0 <= j < conns.len() && dropped_by(nodes, sel, #[trigger] conns[j]) && conns[j].to_node == id
            && conns[j].to_input == i
}

/// `b` is `a` with the inputs fed by connections that deleting `sel` drops
/// disconnected.
pub open spec fn inputs_cleared<S, V, P>(
    a: GraphNode<S, V, P>,
    b: GraphNode<S, V, P>,
    nodes: Seq<GraphNode<S, V, P>>,
    sel: Seq<NodeId>,
    conns: Seq<Connection>,
) -> bool {
    &&& b.id == a.id
    &&& b.name == a.name
    &&& b.node_type == a.node_type
    &&& b.position == a.position
    &&& b.outputs == a.outputs
    &&& b.inputs@.len() == a.inputs@.len()
    &&& forall|i: int|
        0 <= i < a.inputs@.len() ==> #[trigger] b.inputs@[i] == (InputSocket {
            name: a.inputs@[i].name,
            connected_output: if input_dropped(nodes, sel, conns, a.id, i) {
                None
            } else {
                a.inputs@[i].connected_output
            },
        })
}

/// Every id is below `next`.
pub open spec fn ids_below(shapes: Seq<(NodeId, bool)>, next: usize) -> bool {
    forall|i: int| 0 <= i < shapes.len() ==> (#[trigger] shapes[i]).0.0 < next
}

/// No two shapes share an id.
pub open spec fn ids_distinct(shapes: Seq<(NodeId, bool)>) -> bool {
    forall|i: int, j: int| 0 <= i < j < shapes.len() ==> (#[trigger] shapes[i]).0 != (#[trigger] shapes[j]).0
}

proof fn lemma_filter_ids(s: Seq<(NodeId, bool)>, p: spec_fn((NodeId, bool)) -> bool, next: usize)
    ensures
        ids_below(s, next) ==> ids_below(s.filter(p), next),
        ids_distinct(s) ==> ids_distinct(s.filter(p)),
    decreases s.len(),
{
    lemma_filter_within(s, p);
    if ids_below(s, next) {
        assert forall|i: int| 0 <= i < s.filter(p).len() implies (#[trigger] s.filter(p)[i]).0.0 < next by {
            let w = choose|w: int| 0 <= w < s.len() && s[w] == s.filter(p)[i];
        }
    }
    if ids_distinct(s) && s.len() > 0 {
        reveal_with_fuel(Seq::<(NodeId, bool)>::filter, 1);
        let d = s.drop_last();
        assert(ids_distinct(d));
        lemma_filter_ids(d, p, next);
        lemma_filter_within(d, p);
        let f = s.filter(p);
        if p(s.last()) {
            assert forall|i: int, j: int| 0 <= i < j < f.len() implies (#[trigger] f[i]).0 != (#[trigger] f[j]).0 by {
                if j == f.len() - 1 {
                    let w = choose|w: int| 0 <= w < d.len() && d[w] == f[i];
                    assert(s[w] == d[w]);
                    assert(f[j] == s[s.len() - 1]);
                } else {
                    assert(f[i] == d.filter(p)[i] && f[j] == d.filter(p)[j]);
                }
            }
        }
    }
}

proof fn lemma_shapes_filter<S, V, P>(all: Seq<GraphNode<S, V, P>>, sel: Seq<NodeId>, s: Seq<GraphNode<S, V, P>>)
    ensures
        node_shapes(s.filter(node_kept_pred(all, sel))) == node_shapes(s).filter(shape_kept_pred(all, sel)),
    decreases s.len(),
{
    reveal(Seq::filter);
    reveal_with_fuel(Seq::<(NodeId, bool)>::filter, 1);
    if s.len() == 0 {
        assert(node_shapes(s.filter(node_kept_pred(all, sel))) =~= seq![]);
        assert(node_shapes(s) =~= seq![]);
    } else {
        lemma_shapes_filter(all, sel, s.drop_last());
        assert(node_shapes(s).drop_last() =~= node_shapes(s.drop_last()));
        assert(node_shapes(s).last() == shape(s.last()));
        let f = s.drop_last().filter(node_kept_pred(all, sel));
        if node_kept_pred(all, sel)(s.last()) {
            assert(node_shapes(f.push(s.last())) =~= node_shapes(f).push(shape(s.last())));
        }
    }
}

/// The selected ids that are not the `Output` node's.
fn removed_ids<S, V, P>(nodes: &Vec<GraphNode<S, V, P>>, sel: &Vec<NodeId>) -> (r: Vec<NodeId>)
    ensures
        forall|d: NodeId| #[trigger] r@.contains(d) == removed_by(nodes@, sel@, d),
{
    let ghost pred = not_output_pred(nodes@);
    let mut r: Vec<NodeId> = Vec::new();
    let mut t: usize = 0;
    proof {
        reveal_with_fuel(Seq::<NodeId>::filter, 1);
        assert(sel@.take(0) =~= seq![]);
    }
    while t < sel.len()
        invariant
            t <= sel.len(),
            pred == not_output_pred(nodes@),
            r@ == sel@.take(t as int).filter(pred),
        decreases sel.len() - t,
    {
        let d = sel[t];
        let k = find_node(nodes, d);
        let out = k < nodes.len() && match nodes[k].node_type {
            NodeType::Output => true,
            _ => false,
        };
        proof {
            reveal_with_fuel(Seq::<NodeId>::filter, 1);
            assert(sel@.take(t + 1).drop_last() =~= sel@.take(t as int));
            assert(sel@.take(t + 1).last() == d);
            assert(pred(d) == !out);
        }
        if !out {
            r.push(d);
        }
        t = t + 1;
    }
    proof {
        assert(sel@.take(sel.len() as int) =~= sel@);
        lemma_filter_within(sel@, pred);
        assert forall|d: NodeId| #[trigger] r@.contains(d) == removed_by(nodes@, sel@, d) by {
            if r@.contains(d) {
                let w = choose|w: int| 0 <= w < r@.len() && r@[w] == d;
                assert(pred(r@[w]));
                assert(sel@.contains(r@[w]));
            }
            if removed_by(nodes@, sel@, d) {
                let w = choose|w: int| 0 <= w < sel@.len() && sel@[w] == d;
                assert(pred(sel@[w]));
            }
        }
    }
    r
}

/// Whether input `i` of node `id` is fed by a connection that starts or
/// ends at a removed node.
fn fed_by_dropped<S, V, P>(
    conns: &Vec<Connection>,
    removed: &Vec<NodeId>,
    id: NodeId,
    i: usize,
    Ghost(nodes): Ghost<Seq<GraphNode<S, V, P>>>,
    Ghost(sel): Ghost<Seq<NodeId>>,
) -> (b: bool)
    requires
        forall|d: NodeId| #[trigger] removed@.contains(d) == removed_by(nodes, sel, d),
    ensures
        b == input_dropped(nodes, sel, conns@, id, i as int),
{
    let mut j: usize = 0;
    while j < conns.len()
        invariant
            j <= conns.len(),
            forall|d: NodeId| #[trigger] removed@.contains(d) == removed_by(nodes, sel, d),
            forall|q: int|
                0 <= q < j ==> !(dropped_by(nodes, sel, #[trigger] conns@[q]) && conns@[q].to_node == id
                    && conns@[q].to_input == i),
        decreases conns.len() - j,
    {
        let c = conns[j];
        let dropped = contains_id(removed, c.from_node) || contains_id(removed, c.to_node);
        if dropped && c.to_node == id && c.to_input == i {
            assert(dropped_by(nodes, sel, conns@[j as int]));
            return true;
        }
        j = j + 1;
    }
    false
}

/// Disconnects the inputs of `n` fed by connections to or from removed
/// nodes.
fn clear_dropped_inputs<S, V, P>(
    n: &mut GraphNode<S, V, P>,
    conns: &Vec<Connection>,
    removed: &Vec<NodeId>,
    Ghost(nodes): Ghost<Seq<GraphNode<S, V, P>>>,
    Ghost(sel): Ghost<Seq<NodeId>>,
)
    requires
        forall|d: NodeId| #[trigger] removed@.contains(d) == removed_by(nodes, sel, d),
    ensures
        inputs_cleared(*old(n), *final(n), nodes, sel, conns@),
{
    let ghost n0 = *n;
    let mut i: usize = 0;
    while i < n.inputs.len()
        invariant
            i <= n.inputs@.len(),
            forall|d: NodeId| #[trigger] removed@.contains(d) == removed_by(nodes, sel, d),
            n.id == n0.id,
            n.name == n0.name,
            n.node_type == n0.node_type,
            n.position == n0.position,
            n.outputs == n0.outputs,
            n.inputs@.len() == n0.inputs@.len(),
            forall|q: int|
                0 <= q < i ==> #[trigger] n.inputs@[q] == (InputSocket {
                    name: n0.inputs@[q].name,
                    connected_output: if input_dropped(nodes, sel, conns@, n0.id, q) {
                        None
                    } else {
                        n0.inputs@[q].connected_output
                    },
                }),
            forall|q: int| i <= q < n.inputs@.len() ==> #[trigger] n.inputs@[q] == n0.inputs@[q],
        decreases n.inputs@.len() - i,
    {
        if fed_by_dropped::<S, V, P>(conns, removed, n.id, i, Ghost(nodes), Ghost(sel)) {
            n.inputs[i].connected_output = None;
        }
        i = i + 1;
    }
}

/// The connections that start and end at nodes that are not removed, in
/// order.
fn kept_connections<S, V, P>(
    conns: &Vec<Connection>,
    removed: &Vec<NodeId>,
    Ghost(nodes): Ghost<Seq<GraphNode<S, V, P>>>,
    Ghost(sel): Ghost<Seq<NodeId>>,
) -> (r: Vec<Connection>)
    requires
        forall|d: NodeId| #[trigger] removed@.contains(d) == removed_by(nodes, sel, d),
    ensures
        r@ == conns@.filter(conn_kept_pred(nodes, sel)),
{
    let ghost pred = conn_kept_pred(nodes, sel);
    let mut r: Vec<Connection> = Vec::new();
    let mut i: usize = 0;
    proof {
        reveal_with_fuel(Seq::<Connection>::filter, 1);
        assert(conns@.take(0) =~= seq![]);
    }
    while i < conns.len()
        invariant
            i <= conns.len(),
            pred == conn_kept_pred(nodes, sel),
            forall|d: NodeId| #[trigger] removed@.contains(d) == removed_by(nodes, sel, d),
            r@ == conns@.take(i as int).filter(pred),
        decreases conns.len() - i,
    {
        let c = conns[i];
        let dropped = contains_id(removed, c.from_node) || contains_id(removed, c.to_node);
        proof {
            reveal_with_fuel(Seq::<Connection>::filter, 1);
            assert(conns@.take(i + 1).drop_last() =~= conns@.take(i as int));
            assert(conns@.take(i + 1).last() == c);
            assert(pred(c) == !dropped);
        }
        if !dropped {
            r.push(c);
        }
        i = i + 1;
    }
    assert(conns@.take(conns.len() as int) =~= conns@);
    r
}

/// The nodes that are not removed, in order, each with the inputs fed by
/// dropped connections disconnected.
fn kept_nodes<S, V, P>(
    nodes: Vec<GraphNode<S, V, P>>,
    conns: &Vec<Connection>,
    removed: &Vec<NodeId>,
    Ghost(all): Ghost<Seq<GraphNode<S, V, P>>>,
    Ghost(sel): Ghost<Seq<NodeId>>,
) -> (r: Vec<GraphNode<S, V, P>>)
    requires
        forall|d: NodeId| #[trigger] removed@.contains(d) == removed_by(all, sel, d),
    ensures
        r@.len() == nodes@.filter(node_kept_pred(all, sel)).len(),
        forall|k: int|
            0 <= k < r@.len() ==> inputs_cleared(
                nodes@.filter(node_kept_pred(all, sel))[k],
                #[trigger] r@[k],
                all,
                sel,
                conns@,
            ),
{
    let ghost orig = nodes@;
    let ghost pred = node_kept_pred(all, sel);
    let mut nodes = nodes;
    let mut r: Vec<GraphNode<S, V, P>> = Vec::new();
    let ghost mut t: int = 0;
    proof {
        reveal(Seq::filter);
        assert(orig.take(0) =~= seq![]);
        assert(orig.skip(0) =~= orig);
    }
    while nodes.len() > 0
        invariant
            0 <= t <= orig.len(),
            pred == node_kept_pred(all, sel),
            forall|d: NodeId| #[trigger] removed@.contains(d) == removed_by(all, sel, d),
            nodes@ == orig.skip(t),
            r@.len() == orig.take(t).filter(pred).len(),
            forall|k: int|
                0 <= k < r@.len() ==> inputs_cleared(orig.take(t).filter(pred)[k], #[trigger] r@[k], all, sel, conns@),
        decreases nodes.len(),
    {
        let mut n = nodes.remove(0);
        let ghost n0 = n;
        proof {
            reveal(Seq::filter);
            assert(orig[t] == n);
            assert(orig.take(t + 1).drop_last() =~= orig.take(t));
            assert(orig.take(t + 1).last() == n);
        }
        let gone = contains_id(removed, n.id);
        if !gone {
            let ghost r0 = r@;
            clear_dropped_inputs(&mut n, conns, removed, Ghost(all), Ghost(sel));
            r.push(n);
            proof {
                let f0 = orig.take(t).filter(pred);
                assert(orig.take(t + 1).filter(pred) == f0.push(n0));
                assert forall|k: int| 0 <= k < r@.len() implies inputs_cleared(
                    orig.take(t + 1).filter(pred)[k],
                    #[trigger] r@[k],
                    all,
                    sel,
                    conns@,
                ) by {
                    if k < r0.len() {
                        assert(r@[k] == r0[k]);
                        assert(orig.take(t + 1).filter(pred)[k] == f0[k]);
                    }
                }
            }
        }
        proof {
            t = t + 1;
            assert(nodes@ =~= orig.skip(t));
        }
    }
    proof {
        assert(orig.take(t) =~= orig);
    }
    r
}

impl<S, V, P> NodeGraphState<S, V, P> {
    /// Deletes the selected nodes (never the `Output` node) with every
    /// connection that starts or ends at them, disconnecting the inputs those
    /// connections fed, then clears the selection; with no node selected,
    /// deletes the selected connection instead.
    pub fn delete_selected(&mut self)
        ensures
            old(self).wf() ==> final(self).wf(),
            old(self).wf() ==> forall|i: int|
                0 <= i < old(self).nodes@.len() && (#[trigger] old(self).nodes@[i]).node_type is Output
                    ==> node_shapes(final(self).nodes@).contains(shape(old(self).nodes@[i])),
            old(self).selected_nodes@.len() > 0 ==> ({
                let nodes0 = old(self).nodes@;
                let sel = old(self).selected_nodes@;
                let kept = nodes0.filter(node_kept_pred(nodes0, sel));
                &&& final(self).connections@ == old(self).connections@.filter(conn_kept_pred(nodes0, sel))
                &&& final(self).nodes@.len() == kept.len()
                &&& forall|k: int|
                    0 <= k < kept.len() ==> inputs_cleared(
                        kept[k],
                        #[trigger] final(self).nodes@[k],
                        nodes0,
                        sel,
                        old(self).connections@,
                    )
                &&& final(self).selected_nodes@.len() == 0
                &&& final(self).selected_node == if old(self).selected_node matches Some(s) && sel.contains(s) {
                    None
                } else {
                    old(self).selected_node
                }
                &&& *final(self) == (NodeGraphState {
                    nodes: final(self).nodes,
                    connections: final(self).connections,
                    selected_nodes: final(self).selected_nodes,
                    selected_node: final(self).selected_node,
                    selected_connection: None,
                    ..*old(self)
                })
            }),
            old(self).selected_nodes@.len() == 0 ==> match old(self).selected_connection {
                Some(cid) => {
                    &&& final(self).connections@ == old(self).connections@.filter(keep_pred(None, Some(cid)))
                    &&& ({
                        let k = connection_index(old(self).connections@, cid);
                        if k < old(self).connections@.len() {
                            let c = old(self).connections@[k];
                            set_input(old(self).nodes@, final(self).nodes@, c.to_node, c.to_input, None)
                        } else {
                            final(self).nodes == old(self).nodes
                        }
                    })
                    &&& *final(self) == (NodeGraphState {
                        nodes: final(self).nodes,
                        connections: final(self).connections,
                        selected_connection: None,
                        ..*old(self)
                    })
                },
                None => *final(self) == *old(self),
            },
            canvas_step(*old(self), *final(self)),
    {
        if self.selected_nodes.len() > 0 {
            let ghost nodes0 = self.nodes@;
            let ghost sel0 = self.selected_nodes@;
            let mut sel: Vec<NodeId> = Vec::new();
            std::mem::swap(&mut sel, &mut self.selected_nodes);
            let removed = removed_ids(&self.nodes, &sel);
            let mut taken: Vec<GraphNode<S, V, P>> = Vec::new();
            std::mem::swap(&mut taken, &mut self.nodes);
            let new_nodes = kept_nodes(taken, &self.connections, &removed, Ghost(nodes0), Ghost(sel0));
            let new_conns = kept_connections::<S, V, P>(&self.connections, &removed, Ghost(nodes0), Ghost(sel0));
            self.nodes = new_nodes;
            self.connections = new_conns;
            let selected_gone = match self.selected_node {
                Some(sid) => contains_id(&sel, sid),
                None => false,
            };
            if selected_gone {
                self.selected_node = None;
            }
            self.selected_connection = None;
            proof {
                let kept = nodes0.filter(node_kept_pred(nodes0, sel0));
                assert(node_shapes(self.nodes@) =~= node_shapes(kept));
                lemma_shapes_filter(nodes0, sel0, nodes0);
                lemma_filter_ids(node_shapes(nodes0), shape_kept_pred(nodes0, sel0), self.next_node_id);
                if old(self).wf() {
                    assert forall|i: int|
                        0 <= i < nodes0.len() && (#[trigger] nodes0[i]).node_type is Output
                            implies node_shapes(self.nodes@).contains(shape(nodes0[i])) by {
                        lemma_node_index(nodes0, nodes0[i].id);
                        let k = node_index(nodes0, nodes0[i].id);
                        if k != i {
                            if k < i {
                                assert(node_shapes(nodes0)[k].0 != node_shapes(nodes0)[i].0);
                            } else {
                                assert(node_shapes(nodes0)[i].0 != node_shapes(nodes0)[k].0);
                            }
                        }
                        assert(node_kept_pred(nodes0, sel0)(nodes0[i]));
                        lemma_filter_within(nodes0, node_kept_pred(nodes0, sel0));
                        let w = choose|w: int| 0 <= w < kept.len() && kept[w] == nodes0[i];
                        assert(node_shapes(self.nodes@)[w] == shape(nodes0[i]));
                    }
                }
                lemma_filter_within(nodes0, node_kept_pred(nodes0, sel0));
                assert forall|i: int| 0 <= i < self.nodes@.len() implies graph_ids(nodes0).contains(
                    #[trigger] self.nodes@[i].id,
                ) || self.nodes@[i].id.0 >= old(self).next_node_id by {
                    let w = choose|w: int| 0 <= w < nodes0.len() && nodes0[w] == kept[i];
                    assert(graph_ids(nodes0)[w] == nodes0[w].id);
                }
            }
        } else {
            let ghost n0 = self.nodes@;
            match self.selected_connection.take() {
                Some(cid) => {
                    let ghost c0 = self.connections@;
                    self.remove_connection(cid);
                    proof {
                        let k = connection_index(c0, cid);
                        lemma_connection_index(c0, cid);
                        if k < c0.len() {
                            lemma_set_input_shapes(n0, self.nodes@, c0[k].to_node, c0[k].to_input, None);
                        }
                    }
                },
                None => {},
            }
            proof {
                assert(node_shapes(self.nodes@) == node_shapes(n0));
                assert forall|i: int|
                    0 <= i < n0.len() && (#[trigger] n0[i]).node_type is Output
                        implies node_shapes(self.nodes@).contains(shape(n0[i])) by {
                    assert(node_shapes(self.nodes@)[i] == shape(n0[i]));
                }
                lemma_canvas_same_shapes(*old(self), *self);
            }
        }
    }
}


pub fn contains_id(v: &Vec<NodeId>, id: NodeId) -> (b: bool)
    ensures
        b == v@.contains(id),
{
    let mut i: usize = 0;
    while i < v.len()
        invariant
            i <= v.len(),
            forall|j: int| 0 <= j < i ==> v@[j] != id,
        decreases v.len() - i,
    {
        if v[i] == id {
            return true;
        }
        i = i + 1;
    }
    false
}

// ── Evaluation order ────────────────────────────────────────────────────────

/// The node an input socket is connected to, if any.
pub open spec fn socket_source(sock: InputSocket) -> Option<NodeId> {
    match sock.connected_output {
        Some(c) => Some(c.0),
        None => None,
    }
}

/// `s` is upstream of `x`: both are nodes of the graph, and an input of the
/// first node with id `x` is connected to `s`.
pub open spec fn upstream<S, V, P>(nodes: Seq<GraphNode<S, V, P>>, s: NodeId, x: NodeId) -> bool {
    let k = node_index(nodes, x);
    &&& k < nodes.len()
    &&& exists|i: int| 0 <= i < nodes[k].inputs@.len() && #[trigger] socket_source(nodes[k].inputs@[i]) == Some(s)
    &&& node_index(nodes, s) < nodes.len()
}

/// `upstream` as a relation.
pub open spec fn upstream_rel<S, V, P>(nodes: Seq<GraphNode<S, V, P>>) -> spec_fn(NodeId, NodeId) -> bool {
    |s: NodeId, x: NodeId| upstream(nodes, s, x)
}

/// Ids of the nodes, in order.
pub open spec fn graph_ids<S, V, P>(nodes: Seq<GraphNode<S, V, P>>) -> Seq<NodeId> {
    nodes.map_values(|n: GraphNode<S, V, P>| n.id)
}

/// The source of the first input of the first `Output` node, if there is
/// such a node, it has an input, and that input is connected.
pub open spec fn spec_output_source<S, V, P>(nodes: Seq<GraphNode<S, V, P>>) -> Option<NodeId>
    decreases nodes.len(),
{
    if nodes.len() == 0 {
        None
    } else {
        let prev = nodes.drop_last();
        if first_output_index(prev) < prev.len() {
            spec_output_source(prev)
        } else if nodes.last().node_type is Output {
            if nodes.last().inputs@.len() > 0 {
                socket_source(nodes.last().inputs@[0])
            } else {
                None
            }
        } else {
            None
        }
    }
}

/// Index of the first `Output` node, or the number of nodes.
pub open spec fn first_output_index<S, V, P>(nodes: Seq<GraphNode<S, V, P>>) -> int
    decreases nodes.len(),
{
    if nodes.len() == 0 {
        0
    } else if first_output_index(nodes.drop_last()) < nodes.len() - 1 {
        first_output_index(nodes.drop_last())
    } else if nodes.last().node_type is Output {
        nodes.len() - 1
    } else {
        nodes.len() as int
    }
}

pub proof fn lemma_first_output_index<S, V, P>(nodes: Seq<GraphNode<S, V, P>>)
    ensures
        0 <= first_output_index(nodes) <= nodes.len(),
        first_output_index(nodes) < nodes.len() ==> nodes[first_output_index(nodes)].node_type is Output,
        forall|j: int| 0 <= j < first_output_index(nodes) ==> !(#[trigger] nodes[j].node_type is Output),
        spec_output_source(nodes) == (if first_output_index(nodes) < nodes.len()
            && nodes[first_output_index(nodes)].inputs@.len() > 0 {
            socket_source(nodes[first_output_index(nodes)].inputs@[0])
        } else {
            None
        }),
    decreases nodes.len(),
{
    if nodes.len() > 0 {
        let prev = nodes.drop_last();
        lemma_first_output_index(prev);
        assert forall|j: int| 0 <= j < first_output_index(nodes) implies !(#[trigger] nodes[j].node_type is Output) by {
            if j < nodes.len() - 1 {
                assert(nodes[j] == prev[j]);
            }
        }
        if first_output_index(prev) < prev.len() {
            assert(nodes[first_output_index(prev)] == prev[first_output_index(prev)]);
        }
    }
}

/// The depth-first traversal from `x`, with `v` visited and `o` listed so
/// far: unless `x` was visited, it is marked visited, the sources of its
/// inputs that are nodes of the graph are traversed in socket order, and
/// then `x` is listed. The visited and listed nodes after it.
pub open spec fn upstream_first<S, V, P>(
    nodes: Seq<GraphNode<S, V, P>>,
    x: NodeId,
    v: Seq<NodeId>,
    o: Seq<NodeId>,
) -> (Seq<NodeId>, Seq<NodeId>)
    decreases unvisited(graph_ids(nodes), v), 1nat, 0int,
{
    if v.contains(x) {
        (v, o)
    } else {
        let k = node_index(nodes, x);
        if 0 <= k < nodes.len() {
            let r = upstream_first_inputs(nodes, nodes[k].inputs@, 0, v.push(x), o, unvisited(graph_ids(nodes), v));
            (r.0, r.1.push(x))
        } else {
            (v.push(x), o.push(x))
        }
    }
}

/// The traversal of the sources of inputs `i..` of `ins`, in order, while
/// fewer than `bound` nodes are unvisited (the traversal of a node passes
/// the number unvisited before it was marked, so the bound only makes the
/// recursion well founded).
pub open spec fn upstream_first_inputs<S, V, P>(
    nodes: Seq<GraphNode<S, V, P>>,
    ins: Seq<InputSocket>,
    i: int,
    v: Seq<NodeId>,
    o: Seq<NodeId>,
    bound: nat,
) -> (Seq<NodeId>, Seq<NodeId>)
    decreases bound, 0nat, ins.len() - i,
{
    if i < 0 || i >= ins.len() || unvisited(graph_ids(nodes), v) >= bound {
        (v, o)
    } else {
        match socket_source(ins[i]) {
            Some(s) => if node_index(nodes, s) < nodes.len() {
                let r = upstream_first(nodes, s, v, o);
                upstream_first_inputs(nodes, ins, i + 1, r.0, r.1, bound)
            } else {
                upstream_first_inputs(nodes, ins, i + 1, v, o, bound)
            },
            None => upstream_first_inputs(nodes, ins, i + 1, v, o, bound),
        }
    }
}

impl<S, V, P> NodeGraphState<S, V, P> {
    /// The node whose result the viewport shows: the source of the first
    /// input of the first `Output` node.
    pub fn output_source(&self) -> (r: Option<NodeId>)
        ensures
            r == spec_output_source(self.nodes@),
    {
        proof {
            lemma_first_output_index(self.nodes@);
        }
        let mut k: usize = 0;
        while k < self.nodes.len()
            invariant
                k <= self.nodes@.len(),
                forall|j: int| 0 <= j < k ==> !(#[trigger] self.nodes@[j].node_type is Output),
                first_output_index(self.nodes@) >= k,
            decreases self.nodes@.len() - k,
        {
            proof {
                lemma_first_output_index(self.nodes@);
            }
            let is_output = match self.nodes[k].node_type {
                NodeType::Output => true,
                _ => false,
            };
            if is_output {
                if self.nodes[k].inputs.len() > 0 {
                    return match self.nodes[k].inputs[0].connected_output {
                        Some(c) => Some(c.0),
                        None => None,
                    };
                } else {
                    return None;
                }
            }
            k = k + 1;
        }
        None
    }

    /// Depth-first traversal of the nodes upstream of `x`: appends to
    /// `order` every node not yet visited, each after its upstream nodes.
    fn visit_upstream(
        &self,
        x: NodeId,
        visited: &mut Vec<NodeId>,
        order: &mut Vec<NodeId>,
        Ghost(rank): Ghost<spec_fn(NodeId) -> nat>,
    )
        requires
            node_index(self.nodes@, x) < self.nodes@.len(),
            subset_of(old(order)@, old(visited)@),
            old(order)@.no_duplicates(),
        ensures
            subset_of(final(order)@, final(visited)@),
            final(order)@.no_duplicates(),
            visit_result(upstream_rel(self.nodes@), rank, x, old(visited)@, old(order)@, final(visited)@, final(order)@),
            (final(visited)@, final(order)@) == upstream_first(self.nodes@, x, old(visited)@, old(order)@),
        decreases unvisited(graph_ids(self.nodes@), old(visited)@), if old(visited)@.contains(x) { 0nat } else { 1nat },
    {
        let ghost nodes = self.nodes@;
        let ghost rel = upstream_rel(nodes);
        let ghost ids = graph_ids(nodes);
        let ghost v0 = visited@;
        let ghost o0 = order@;
        if contains_id(visited, x) {
            assert(order@.skip(o0.len() as int) =~= seq![]);
            assert(order@.take(o0.len() as int) =~= o0);
            return;
        }
        visited.push(x);
        let k = find_node(&self.nodes, x);
        proof {
            assert(order@.skip(o0.len() as int) =~= seq![]);
            assert(order@.take(o0.len() as int) =~= o0);
            assert forall|y: NodeId| #[trigger] v0.contains(y) implies visited@.contains(y) by {
                let w = choose|w: int| 0 <= w < v0.len() && v0[w] == y;
                assert(visited@[w] == y);
            }
            assert(subset_of(v0, visited@));
            assert forall|y: NodeId| #[trigger] order@.contains(y) implies visited@.contains(y) by {
                assert(v0.contains(y));
            }
            assert(subset_of(order@, visited@));
            assert forall|y: NodeId| #[trigger] visited@.contains(y) <==> (v0.contains(y) || y == x
                || order@.skip(o0.len() as int).contains(y)) by {
                if visited@.contains(y) && y != x {
                    let w = choose|w: int| 0 <= w < visited@.len() && visited@[w] == y;
                    assert(v0[w] == y);
                }
                if y == x {
                    assert(visited@[visited@.len() - 1] == x);
                }
            }
            assert(partial_visit(rel, rank, x, v0, o0, visited@, order@));
            lemma_unvisited_drop(ids, v0, visited@, k as int);
        }
        let node = &self.nodes[k];
        let mut i: usize = 0;
        while i < node.inputs.len()
            invariant
                nodes == self.nodes@,
                rel == upstream_rel(nodes),
                ids == graph_ids(nodes),
                v0 == old(visited)@,
                !old(visited)@.contains(x),
                k < nodes.len(),
                *node == nodes[k as int],
                nodes[k as int].id == x,
                k == node_index(nodes, x),
                i <= node.inputs@.len(),
                partial_visit(rel, rank, x, v0, o0, visited@, order@),
                subset_of(v0, visited@),
                unvisited(ids, visited@) < unvisited(ids, v0),
                forall|ii: int|
                    #![trigger node.inputs@[ii]]
                    0 <= ii < i ==> (socket_source(node.inputs@[ii]) matches Some(s) ==> (node_index(nodes, s)
                        >= nodes.len() || visited@.contains(s))),
                upstream_first_inputs(nodes, node.inputs@, i as int, visited@, order@, unvisited(ids, v0))
                    == upstream_first_inputs(nodes, node.inputs@, 0, v0.push(x), o0, unvisited(ids, v0)),
            decreases node.inputs@.len() - i,
        {
            match node.inputs[i].connected_output {
                Some(c) => {
                    let s = c.0;
                    let ks = find_node(&self.nodes, s);
                    if ks < self.nodes.len() {
                        let ghost vb = visited@;
                        let ghost ob = order@;
                        proof {
                            assert(socket_source(node.inputs@[i as int]) == Some(s));
                            assert(upstream(nodes, s, x));
                            assert(rel(s, x));
                            lemma_unvisited_mono(ids, v0, vb);
                        }
                        self.visit_upstream(s, visited, order, Ghost(rank));
                        proof {
                            lemma_visit_step(rel, rank, x, s, v0, o0, vb, ob, visited@, order@);
                            lemma_unvisited_mono(ids, vb, visited@);
                            assert(subset_of(v0, visited@));
                        }
                    }
                },
                None => {},
            }
            i = i + 1;
        }
        proof {
            assert forall|s: NodeId| #[trigger] rel(s, x) implies visited@.contains(s) by {
                let ii = choose|ii: int| 0 <= ii < nodes[k as int].inputs@.len() && #[trigger] socket_source(nodes[k as int].inputs@[ii]) == Some(s);
                assert(socket_source(node.inputs@[ii]) == Some(s));
            }
        }
        let ghost ob = order@;
        order.push(x);
        proof {
            lemma_visit_finish(rel, rank, x, v0, o0, visited@, ob, order@);
        }
    }

    /// The order in which the nodes upstream of `root` are evaluated: each
    /// node once, after its upstream nodes, `root` last; empty when `root`
    /// is not a node of the graph.
    pub fn evaluation_order(&self, root: NodeId) -> (order: Vec<NodeId>)
        ensures
            node_index(self.nodes@, root) < self.nodes@.len() ==> is_post_order(upstream_rel(self.nodes@), root, order@),
            node_index(self.nodes@, root) < self.nodes@.len() ==> order@ == upstream_first(
                self.nodes@,
                root,
                seq![],
                seq![],
            ).1,
            node_index(self.nodes@, root) >= self.nodes@.len() ==> order@.len() == 0,
    {
        let mut order: Vec<NodeId> = Vec::new();
        let k = find_node(&self.nodes, root);
        if k >= self.nodes.len() {
            return order;
        }
        let mut visited: Vec<NodeId> = Vec::new();
        assert(visited@ =~= seq![] && order@ =~= seq![]);
        let ghost rank = choose|rank: spec_fn(NodeId) -> nat| ranked(upstream_rel(self.nodes@), rank);
        self.visit_upstream(root, &mut visited, &mut order, Ghost(rank));
        proof {
            lemma_post_order(upstream_rel(self.nodes@), rank, root, visited@, order@);
        }
        order
    }
}

// ── Evaluation wiring ───────────────────────────────────────────────────────

/// Index of the first `x` in `s` at or after `j`, or the length of `s`.
pub open spec fn first_from(s: Seq<NodeId>, x: NodeId, j: int) -> int
    decreases s.len() - j,
{
    if j < 0 || j >= s.len() {
        s.len() as int
    } else if s[j] == x {
        j
    } else {
        first_from(s, x, j + 1)
    }
}

/// Where the inputs `i..` of a node read their values when the nodes
/// `prev` were evaluated before it, in that order: for each connected input
/// in socket order, the position in `prev` of its source; inputs whose
/// source is not among `prev` give nothing.
pub open spec fn wired_slots(ins: Seq<InputSocket>, prev: Seq<NodeId>, i: int) -> Seq<int>
    decreases ins.len() - i,
{
    if i < 0 || i >= ins.len() {
        seq![]
    } else {
        let rest = wired_slots(ins, prev, i + 1);
        match socket_source(ins[i]) {
            Some(s) => if first_from(prev, s, 0) < prev.len() {
                seq![first_from(prev, s, 0)] + rest
            } else {
                rest
            },
            None => rest,
        }
    }
}

/// The positions `j..` of `order` that the scene explorer lists: those with
/// a result whose node is a generator, in order.
pub open spec fn scene_picks<S, V, P>(nodes: Seq<GraphNode<S, V, P>>, order: Seq<NodeId>, has: Seq<bool>, j: int) -> Seq<int>
    decreases order.len() - j,
{
    if j < 0 || j >= order.len() {
        seq![]
    } else {
        let rest = scene_picks(nodes, order, has, j + 1);
        let k = node_index(nodes, order[j]);
        if has[j] && k < nodes.len() && spec_is_generator(nodes[k].node_type) {
            seq![j] + rest
        } else {
            rest
        }
    }
}

/// The view of a list of positions.
pub open spec fn positions_view(v: Seq<usize>) -> Seq<int> {
    v.map_values(|x: usize| x as int)
}

fn first_in(order: &Vec<NodeId>, x: NodeId, k: usize) -> (j: usize)
    requires
        k <= order.len(),
    ensures
        j == first_from(order@.take(k as int), x, 0),
{
    let ghost prev = order@.take(k as int);
    let mut j: usize = 0;
    while j < k
        invariant
            j <= k <= order.len(),
            prev == order@.take(k as int),
            first_from(prev, x, j as int) == first_from(prev, x, 0),
        decreases k - j,
    {
        if order[j] == x {
            return j;
        }
        j = j + 1;
    }
    j
}

impl<S, V, P> NodeGraphState<S, V, P> {
    /// Where node `id`, evaluated after the first `k` nodes of `order`,
    /// reads the values of its inputs: see `wired_slots`.
    pub fn input_slots(&self, id: NodeId, order: &Vec<NodeId>, k: usize) -> (slots: Vec<usize>)
        requires
            k <= order.len(),
        ensures
            node_index(self.nodes@, id) < self.nodes@.len() ==> positions_view(slots@) == wired_slots(
                self.nodes@[node_index(self.nodes@, id)].inputs@,
                order@.take(k as int),
                0,
            ),
            node_index(self.nodes@, id) >= self.nodes@.len() ==> slots@.len() == 0,
            forall|i: int| 0 <= i < slots@.len() ==> #[trigger] slots@[i] < k,
    {
        let mut out: Vec<usize> = Vec::new();
        let n = find_node(&self.nodes, id);
        if n >= self.nodes.len() {
            return out;
        }
        let ghost prev = order@.take(k as int);
        let ins = &self.nodes[n].inputs;
        let mut i: usize = 0;
        assert(positions_view(out@) =~= seq![]);
        while i < ins.len()
            invariant
                i <= ins@.len(),
                k <= order.len(),
                prev == order@.take(k as int),
                positions_view(out@) + wired_slots(ins@, prev, i as int) == wired_slots(ins@, prev, 0),
                forall|q: int| 0 <= q < out@.len() ==> #[trigger] out@[q] < k,
            decreases ins@.len() - i,
        {
            let ghost before = out@;
            match ins[i].connected_output {
                Some(c) => {
                    let j = first_in(order, c.0, k);
                    proof {
                        assert(socket_source(ins@[i as int]) == Some(c.0));
                    }
                    if j < k {
                        out.push(j);
                        proof {
                            assert(positions_view(out@) =~= positions_view(before).push(j as int));
                            assert(positions_view(out@) + wired_slots(ins@, prev, i + 1) =~= positions_view(before)
                                + wired_slots(ins@, prev, i as int));
                        }
                    }
                },
                None => {},
            }
            i = i + 1;
        }
        proof {
            assert(positions_view(out@) + seq![] =~= positions_view(out@));
        }
        out
    }

    /// The positions of `order` that the scene explorer lists, given which
    /// of them have a result (`has`): see `scene_picks`.
    pub fn scene_entries(&self, order: &Vec<NodeId>, has: &Vec<bool>) -> (picks: Vec<usize>)
        requires
            has@.len() == order@.len(),
        ensures
            positions_view(picks@) == scene_picks(self.nodes@, order@, has@, 0),
            forall|i: int| 0 <= i < picks@.len() ==> #[trigger] picks@[i] < order@.len(),
    {
        let mut out: Vec<usize> = Vec::new();
        let mut j: usize = 0;
        assert(positions_view(out@) =~= seq![]);
        while j < order.len()
            invariant
                j <= order@.len(),
                has@.len() == order@.len(),
                positions_view(out@) + scene_picks(self.nodes@, order@, has@, j as int) == scene_picks(
                    self.nodes@,
                    order@,
                    has@,
                    0,
                ),
                forall|q: int| 0 <= q < out@.len() ==> #[trigger] out@[q] < order@.len(),
            decreases order@.len() - j,
        {
            let ghost before = out@;
            let k = find_node(&self.nodes, order[j]);
            if has[j] && k < self.nodes.len() && is_generator(&self.nodes[k].node_type) {
                out.push(j);
                proof {
                    assert(positions_view(out@) =~= positions_view(before).push(j as int));
                    assert(positions_view(out@) + scene_picks(self.nodes@, order@, has@, j + 1) =~= positions_view(
                        before,
                    ) + scene_picks(self.nodes@, order@, has@, j as int));
                }
            }
            j = j + 1;
        }
        proof {
            assert(positions_view(out@) + seq![] =~= positions_view(out@));
        }
        out
    }
}

// ── Laws of connecting ──────────────────────────────────────────────────────

/// After a connection into an input is added (as `add_connection` does:
/// the connections into that input dropped, the new one appended), it is
/// the only connection into that input.
pub proof fn lemma_one_connection_per_input(conns: Seq<Connection>, c: Connection)
    ensures
        ({
            let r = conns.filter(keep_pred(Some((c.to_node, c.to_input)), None)).push(c);
            &&& r.last() == c
            &&& forall|j: int| 0 <= j < r.len() - 1 ==> !targets(#[trigger] r[j], c.to_node, c.to_input)
        }),
{
    let p = keep_pred(Some((c.to_node, c.to_input)), None);
    let f = conns.filter(p);
    lemma_filter_within(conns, p);
    let r = f.push(c);
    assert forall|j: int| 0 <= j < r.len() - 1 implies !targets(#[trigger] r[j], c.to_node, c.to_input) by {
        assert(r[j] == f[j]);
        assert(p(f[j]));
    }
}

/// Ids and kinds of the nodes, in order.
pub open spec fn node_kinds<S, V, P>(nodes: Seq<GraphNode<S, V, P>>) -> Seq<(NodeId, NodeType<S, V>)> {
    nodes.map_values(|n: GraphNode<S, V, P>| (n.id, n.node_type))
}

/// At most one connection goes into each input socket.
pub open spec fn one_wire_per_input(conns: Seq<Connection>) -> bool {
    forall|i: int, j: int|
        0 <= i < j < conns.len() ==> !targets(#[trigger] conns[j], (#[trigger] conns[i]).to_node, conns[i].to_input)
}

/// Connecting or disconnecting an input (as `set_input` describes) keeps
/// the nodes' ids, their order and their kinds.
pub proof fn lemma_set_input_keeps_kinds<S, V, P>(
    a: Seq<GraphNode<S, V, P>>,
    b: Seq<GraphNode<S, V, P>>,
    to: NodeId,
    i: usize,
    v: Option<(NodeId, usize)>,
)
    requires
        set_input(a, b, to, i, v),
    ensures
        node_kinds(b) == node_kinds(a),
{
    lemma_node_index(a, to);
    assert(node_kinds(b) =~= node_kinds(a));
}

/// Adding a connection `c` into an input (as `add_connection` does) adds
/// no other connection: every connection after it is an old one or `c`.
pub proof fn lemma_connect_adds_only(conns: Seq<Connection>, c: Connection)
    ensures
        forall|j: int|
            0 <= j < conns.filter(keep_pred(Some((c.to_node, c.to_input)), None)).push(c).len() ==> conns.contains(
                #[trigger] conns.filter(keep_pred(Some((c.to_node, c.to_input)), None)).push(c)[j],
            ) || conns.filter(keep_pred(Some((c.to_node, c.to_input)), None)).push(c)[j] == c,
{
    let p = keep_pred(Some((c.to_node, c.to_input)), None);
    let f = conns.filter(p);
    lemma_filter_within(conns, p);
    assert forall|j: int| 0 <= j < f.push(c).len() implies conns.contains(#[trigger] f.push(c)[j]) || f.push(c)[j] == c by {
        if j < f.len() {
            assert(f.push(c)[j] == f[j]);
        }
    }
}

/// Keeping only some connections keeps at most one connection per input.
pub proof fn lemma_filter_keeps_one_wire(conns: Seq<Connection>, p: spec_fn(Connection) -> bool)
    requires
        one_wire_per_input(conns),
    ensures
        one_wire_per_input(conns.filter(p)),
    decreases conns.len(),
{
    if conns.len() > 0 {
        reveal_with_fuel(Seq::<Connection>::filter, 1);
        let d = conns.drop_last();
        assert(one_wire_per_input(d));
        lemma_filter_keeps_one_wire(d, p);
        lemma_filter_within(d, p);
        let f = conns.filter(p);
        if p(conns.last()) {
            assert forall|i: int, j: int| 0 <= i < j < f.len() implies !targets(
                #[trigger] f[j],
                (#[trigger] f[i]).to_node,
                f[i].to_input,
            ) by {
                if j == f.len() - 1 {
                    let w = choose|w: int| 0 <= w < d.len() && d[w] == f[i];
                    assert(conns[w] == d[w]);
                    assert(f[j] == conns[conns.len() - 1]);
                } else {
                    assert(f[i] == d.filter(p)[i] && f[j] == d.filter(p)[j]);
                }
            }
        }
    }
}

/// Connecting an input (as `add_connection` does) keeps at most one
/// connection per input.
pub proof fn lemma_connect_keeps_one_wire(conns: Seq<Connection>, c: Connection)
    requires
        one_wire_per_input(conns),
    ensures
        one_wire_per_input(conns.filter(keep_pred(Some((c.to_node, c.to_input)), None)).push(c)),
{
    let p = keep_pred(Some((c.to_node, c.to_input)), None);
    lemma_filter_keeps_one_wire(conns, p);
    lemma_one_connection_per_input(conns, c);
    let r = conns.filter(p).push(c);
    assert forall|i: int, j: int| 0 <= i < j < r.len() implies !targets(#[trigger] r[j], (#[trigger] r[i]).to_node, r[i].to_input) by {
        if j == r.len() - 1 {
            assert(r[j] == c);
            assert(!targets(r[i], c.to_node, c.to_input));
        } else {
            assert(r[i] == conns.filter(p)[i] && r[j] == conns.filter(p)[j]);
        }
    }
}

/// After removing the connection with id `cid` (as `remove_connection`
/// does), no connection with that id is left, and every other connection
/// is kept in order.
pub proof fn lemma_remove_connection_removes(conns: Seq<Connection>, cid: ConnectionId)
    ensures
        ({
            let r = conns.filter(keep_pred(None, Some(cid)));
            &&& forall|j: int| 0 <= j < r.len() ==> (#[trigger] r[j]).id != cid
            &&& forall|j: int| 0 <= j < conns.len() && (#[trigger] conns[j]).id != cid ==> r.contains(conns[j])
        }),
{
    let p = keep_pred(None, Some(cid));
    lemma_filter_within(conns, p);
    let r = conns.filter(p);
    assert forall|j: int| 0 <= j < r.len() implies (#[trigger] r[j]).id != cid by {
        assert(p(r[j]));
    }
    assert forall|j: int| 0 <= j < conns.len() && (#[trigger] conns[j]).id != cid implies r.contains(conns[j]) by {
        assert(p(conns[j]));
    }
}

// ── Laws of editing ─────────────────────────────────────────────────────────

/// What every edit on the graph canvas keeps, from `a` to `b`: node ids
/// only grow, every node of `b` is a node of `a` or has an id from
/// `a.next_node_id` on, validity is kept, and on a valid graph the `Output`
/// node stays.
pub open spec fn canvas_step<S, V, P>(a: NodeGraphState<S, V, P>, b: NodeGraphState<S, V, P>) -> bool {
    &&& a.next_node_id <= b.next_node_id
    &&& forall|i: int|
        0 <= i < b.nodes@.len() ==> graph_ids(a.nodes@).contains(#[trigger] b.nodes@[i].id) || b.nodes@[i].id.0
            >= a.next_node_id
    &&& a.wf() ==> b.wf()
    &&& a.wf() ==> forall|i: int|
        0 <= i < a.nodes@.len() && (#[trigger] a.nodes@[i]).node_type is Output ==> node_shapes(b.nodes@).contains(
            shape(a.nodes@[i]),
        )
}

/// What every edit from the widget of node `n` keeps, from `a` to `b`: the
/// nodes' ids, order and kinds, and the connections but for new ones into
/// `n` from another node.
pub open spec fn node_widget_step<S, V, P>(a: NodeGraphState<S, V, P>, b: NodeGraphState<S, V, P>, n: NodeId) -> bool {
    &&& node_kinds(b.nodes@) == node_kinds(a.nodes@)
    &&& forall|j: int|
        0 <= j < b.connections@.len() ==> a.connections@.contains(#[trigger] b.connections@[j]) || (
        b.connections@[j].to_node == n && b.connections@[j].from_node != n)
}

/// Edits on the canvas compose: whatever sequence of them a frame makes
/// keeps the `Output` node of a valid graph and gives new nodes fresh ids.
pub proof fn lemma_canvas_steps_compose<S, V, P>(
    a: NodeGraphState<S, V, P>,
    b: NodeGraphState<S, V, P>,
    c: NodeGraphState<S, V, P>,
)
    requires
        canvas_step(a, b),
        canvas_step(b, c),
    ensures
        canvas_step(a, c),
{
    assert forall|i: int| 0 <= i < c.nodes@.len() implies graph_ids(a.nodes@).contains(#[trigger] c.nodes@[i].id)
        || c.nodes@[i].id.0 >= a.next_node_id by {
        if graph_ids(b.nodes@).contains(c.nodes@[i].id) {
            let w = choose|w: int| 0 <= w < graph_ids(b.nodes@).len() && graph_ids(b.nodes@)[w] == c.nodes@[i].id;
            assert(graph_ids(b.nodes@)[w] == b.nodes@[w].id);
        }
    }
    if a.wf() {
        assert forall|i: int| 0 <= i < a.nodes@.len() && (#[trigger] a.nodes@[i]).node_type is Output implies node_shapes(
            c.nodes@,
        ).contains(shape(a.nodes@[i])) by {
            let sb = node_shapes(b.nodes@);
            let w = choose|w: int| 0 <= w < sb.len() && sb[w] == shape(a.nodes@[i]);
            assert(sb[w] == shape(b.nodes@[w]));
            assert(b.nodes@[w].node_type is Output);
        }
    }
}

/// Edits from one node's widget compose: whatever sequence of them a frame
/// makes keeps the nodes' ids, order and kinds and adds only connections
/// into that node from another node.
pub proof fn lemma_node_widget_steps_compose<S, V, P>(
    a: NodeGraphState<S, V, P>,
    b: NodeGraphState<S, V, P>,
    c: NodeGraphState<S, V, P>,
    n: NodeId,
)
    requires
        node_widget_step(a, b, n),
        node_widget_step(b, c, n),
    ensures
        node_widget_step(a, c, n),
{
    assert forall|j: int| 0 <= j < c.connections@.len() implies a.connections@.contains(#[trigger] c.connections@[j])
        || (c.connections@[j].to_node == n && c.connections@[j].from_node != n) by {
        if b.connections@.contains(c.connections@[j]) {
            let w = choose|w: int| 0 <= w < b.connections@.len() && b.connections@[w] == c.connections@[j];
            assert(a.connections@.contains(b.connections@[w]) || (b.connections@[w].to_node == n
                && b.connections@[w].from_node != n));
        }
    }
}

proof fn lemma_kinds_shapes<S, V, P>(a: Seq<GraphNode<S, V, P>>, b: Seq<GraphNode<S, V, P>>)
    requires
        node_kinds(b) == node_kinds(a),
    ensures
        node_shapes(b) == node_shapes(a),
{
    assert(node_kinds(b).len() == b.len() && node_kinds(a).len() == a.len());
    assert forall|i: int| 0 <= i < b.len() implies #[trigger] node_shapes(b)[i] == node_shapes(a)[i] by {
        assert(node_kinds(b)[i] == node_kinds(a)[i]);
    }
    assert(node_shapes(b) =~= node_shapes(a));
}

proof fn lemma_canvas_same_shapes<S, V, P>(a: NodeGraphState<S, V, P>, b: NodeGraphState<S, V, P>)
    requires
        node_shapes(b.nodes@) == node_shapes(a.nodes@),
        b.next_node_id == a.next_node_id,
    ensures
        canvas_step(a, b),
{
    assert(node_shapes(b.nodes@).len() == b.nodes@.len());
    assert(node_shapes(a.nodes@).len() == a.nodes@.len());
    assert forall|i: int| 0 <= i < b.nodes@.len() implies graph_ids(a.nodes@).contains(#[trigger] b.nodes@[i].id)
        || b.nodes@[i].id.0 >= a.next_node_id by {
        assert(node_shapes(b.nodes@)[i] == node_shapes(a.nodes@)[i]);
        assert(graph_ids(a.nodes@)[i] == a.nodes@[i].id);
    }
    assert forall|i: int| 0 <= i < a.nodes@.len() && (#[trigger] a.nodes@[i]).node_type is Output implies node_shapes(
        b.nodes@,
    ).contains(shape(a.nodes@[i])) by {
        assert(node_shapes(b.nodes@)[i] == shape(a.nodes@[i]));
    }
}

proof fn lemma_widget_same<S, V, P>(a: NodeGraphState<S, V, P>, b: NodeGraphState<S, V, P>)
    requires
        node_kinds(b.nodes@) == node_kinds(a.nodes@),
        b.connections == a.connections,
    ensures
        forall|n: NodeId| #[trigger] node_widget_step(a, b, n),
{
    assert forall|n: NodeId| #[trigger] node_widget_step(a, b, n) by {
        assert forall|j: int| 0 <= j < b.connections@.len() implies a.connections@.contains(#[trigger] b.connections@[j]) by {
            assert(a.connections@[j] == b.connections@[j]);
        }
    }
}

impl<S, V, P> NodeGraphState<S, V, P> {
    /// A graph holding only its `Output` node (id 0, at `output_pos`), with
    /// nothing selected.
    pub fn new(output_pos: P) -> (g: Self)
        ensures
            g.nodes@.len() == 1,
            g.nodes@[0].id == NodeId(0),
            g.nodes@[0].name@ == "Output"@,
            g.nodes@[0].node_type is Output,
            g.nodes@[0].position == output_pos,
            fresh_inputs(g.nodes@[0].inputs@, input_names(NodeType::<S, V>::Output)),
            outputs_named(g.nodes@[0].outputs@, output_names(NodeType::<S, V>::Output)),
            g.connections@.len() == 0,
            g.next_node_id == 1,
            g.next_connection_id == 0,
            g.selected_node is None,
            g.dragging_node is None,
            g.connecting_from is None,
            g.renaming_node is None,
            g.rename_buffer@.len() == 0,
            g.selected_nodes@.len() == 0,
            g.selected_connection is None,
            g.wf(),
    {
        let mut g = NodeGraphState {
            nodes: Vec::new(),
            connections: Vec::new(),
            next_node_id: 0,
            next_connection_id: 0,
            selected_node: None,
            dragging_node: None,
            connecting_from: None,
            renaming_node: None,
            rename_buffer: String::new(),
            selected_nodes: Vec::new(),
            selected_connection: None,
        };
        g.add_node(String::from_str("Output"), NodeType::Output, output_pos);
        g
    }
}

// ── Editing interactions ────────────────────────────────────────────────────

impl<S, V, P> NodeGraphState<S, V, P> {
    /// Clicking a wire selects it and clears the node selection.
    pub fn click_connection(&mut self, cid: ConnectionId)
        ensures
            final(self).selected_nodes@.len() == 0,
            *final(self) == (NodeGraphState {
                selected_connection: Some(cid),
                selected_node: None,
                selected_nodes: final(self).selected_nodes,
                ..*old(self)
            }),
            canvas_step(*old(self), *final(self)),
    {
        self.selected_connection = Some(cid);
        self.selected_nodes.clear();
        self.selected_node = None;
        proof {
            lemma_canvas_same_shapes(*old(self), *self);
        }
    }

    /// Clicking the empty canvas clears every selection.
    pub fn click_canvas(&mut self)
        ensures
            final(self).selected_nodes@.len() == 0,
            *final(self) == (NodeGraphState {
                selected_connection: None,
                selected_node: None,
                selected_nodes: final(self).selected_nodes,
                ..*old(self)
            }),
            canvas_step(*old(self), *final(self)),
    {
        self.selected_nodes.clear();
        self.selected_node = None;
        self.selected_connection = None;
        proof {
            lemma_canvas_same_shapes(*old(self), *self);
        }
    }

    /// Clicking a node's title selects it; without shift the other selected
    /// nodes are dropped, with shift it joins them.
    pub fn click_node(&mut self, id: NodeId, shift: bool)
        ensures
            final(self).selected_node == Some(id),
            ({
                let base = if shift { old(self).selected_nodes@ } else { Seq::<NodeId>::empty() };
                final(self).selected_nodes@ == if base.contains(id) { base } else { base.push(id) }
            }),
            *final(self) == (NodeGraphState {
                selected_node: Some(id),
                selected_nodes: final(self).selected_nodes,
                ..*old(self)
            }),
            canvas_step(*old(self), *final(self)),
            forall|n: NodeId| #[trigger] node_widget_step(*old(self), *final(self), n),
    {
        if !shift {
            self.selected_nodes.clear();
        }
        self.selected_node = Some(id);
        if !contains_id(&self.selected_nodes, id) {
            self.selected_nodes.push(id);
        }
        proof {
            lemma_canvas_same_shapes(*old(self), *self);
            lemma_widget_same(*old(self), *self);
        }
    }

    /// Starting to drag a node's title: a node outside the selection becomes
    /// the whole selection; the node is the one being dragged. Nothing
    /// happens while a wire is being drawn.
    pub fn start_node_drag(&mut self, id: NodeId)
        ensures
            old(self).connecting_from is Some ==> *final(self) == *old(self),
            old(self).connecting_from is None ==> {
                &&& final(self).dragging_node == Some(id)
                &&& if old(self).selected_nodes@.contains(id) {
                    final(self).selected_nodes == old(self).selected_nodes
                        && final(self).selected_node == old(self).selected_node
                } else {
                    final(self).selected_nodes@ == seq![id] && final(self).selected_node == Some(id)
                }
                &&& *final(self) == (NodeGraphState {
                    dragging_node: Some(id),
                    selected_node: final(self).selected_node,
                    selected_nodes: final(self).selected_nodes,
                    ..*old(self)
                })
            },
            canvas_step(*old(self), *final(self)),
            forall|n: NodeId| #[trigger] node_widget_step(*old(self), *final(self), n),
    {
        if self.connecting_from.is_some() {
            proof {
                lemma_canvas_same_shapes(*old(self), *self);
                lemma_widget_same(*old(self), *self);
            }
            return;
        }
        if !contains_id(&self.selected_nodes, id) {
            self.selected_nodes = vec![id];
            self.selected_node = Some(id);
        }
        self.dragging_node = Some(id);
        proof {
            lemma_canvas_same_shapes(*old(self), *self);
            lemma_widget_same(*old(self), *self);
        }
    }

    /// Releasing a dragged node.
    pub fn stop_node_drag(&mut self)
        ensures
            *final(self) == (NodeGraphState { dragging_node: None, ..*old(self) }),
            canvas_step(*old(self), *final(self)),
            forall|n: NodeId| #[trigger] node_widget_step(*old(self), *final(self), n),
    {
        self.dragging_node = None;
        proof {
            lemma_canvas_same_shapes(*old(self), *self);
            lemma_widget_same(*old(self), *self);
        }
    }

    /// Pressing on output `out` of node `id` starts a wire from it (when a
    /// drag starts there, or when no wire is being drawn yet).
    pub fn press_output(&mut self, id: NodeId, out: usize, drag_started: bool)
        ensures
            *final(self) == (NodeGraphState {
                connecting_from: if drag_started || old(self).connecting_from is None {
                    Some((id, out))
                } else {
                    old(self).connecting_from
                },
                ..*old(self)
            }),
            canvas_step(*old(self), *final(self)),
            forall|n: NodeId| #[trigger] node_widget_step(*old(self), *final(self), n),
    {
        if drag_started || self.connecting_from.is_none() {
            self.connecting_from = Some((id, out));
        }
        proof {
            lemma_canvas_same_shapes(*old(self), *self);
            lemma_widget_same(*old(self), *self);
        }
    }

    /// Releasing over input `i` of node `to` ends the wire being drawn: it is
    /// connected unless it starts at the same node.
    pub fn release_on_input(&mut self, to: NodeId, i: usize)
        requires
            old(self).next_connection_id < usize::MAX,
        ensures
            final(self).connecting_from is None,
            match old(self).connecting_from {
                Some((f, fo)) => if f != to {
                    &&& final(self).connections@ == old(self).connections@.filter(keep_pred(Some((to, i)), None)).push(
                        Connection {
                            id: ConnectionId(old(self).next_connection_id),
                            from_node: f,
                            from_output: fo,
                            to_node: to,
                            to_input: i,
                        },
                    )
                    &&& final(self).next_connection_id == old(self).next_connection_id + 1
                    &&& set_input(old(self).nodes@, final(self).nodes@, to, i, Some((f, fo)))
                } else {
                    final(self).connections == old(self).connections && final(self).nodes == old(self).nodes
                        && final(self).next_connection_id == old(self).next_connection_id
                },
                None => final(self).connections == old(self).connections && final(self).nodes == old(self).nodes
                    && final(self).next_connection_id == old(self).next_connection_id,
            },
            *final(self) == (NodeGraphState {
                connecting_from: None,
                nodes: final(self).nodes,
                connections: final(self).connections,
                next_connection_id: final(self).next_connection_id,
                ..*old(self)
            }),
            old(self).wf() ==> final(self).wf(),
            node_kinds(final(self).nodes@) == node_kinds(old(self).nodes@),
            forall|j: int|
                0 <= j < final(self).connections@.len() ==> old(self).connections@.contains(
                    #[trigger] final(self).connections@[j],
                ) || (final(self).connections@[j].to_node == to && final(self).connections@[j].from_node != to),
            one_wire_per_input(old(self).connections@) ==> one_wire_per_input(final(self).connections@),
            canvas_step(*old(self), *final(self)),
            node_widget_step(*old(self), *final(self), to),
    {
        match self.connecting_from {
            Some((f, fo)) => {
                if f != to {
                    let ghost n0 = self.nodes@;
                    let ghost c0 = self.connections@;
                    let ghost c = Connection {
                        id: ConnectionId(self.next_connection_id),
                        from_node: f,
                        from_output: fo,
                        to_node: to,
                        to_input: i,
                    };
                    self.add_connection(f, fo, to, i);
                    proof {
                        lemma_set_input_keeps_kinds(n0, self.nodes@, to, i, Some((f, fo)));
                        lemma_connect_adds_only(c0, c);
                        if one_wire_per_input(c0) {
                            lemma_connect_keeps_one_wire(c0, c);
                        }
                    }
                }
                self.connecting_from = None;
            },
            None => {},
        }
        proof {
            assert forall|j: int| 0 <= j < self.connections@.len() implies old(self).connections@.contains(
                #[trigger] self.connections@[j],
            ) || (self.connections@[j].to_node == to && self.connections@[j].from_node != to) by {
                if self.connections == old(self).connections {
                    assert(old(self).connections@[j] == self.connections@[j]);
                }
            }
            lemma_kinds_shapes(old(self).nodes@, self.nodes@);
            lemma_canvas_same_shapes(*old(self), *self);
        }
    }

    /// Escape, or a release over empty canvas, drops the wire being drawn.
    pub fn cancel_wire(&mut self)
        ensures
            *final(self) == (NodeGraphState { connecting_from: None, ..*old(self) }),
            canvas_step(*old(self), *final(self)),
    {
        self.connecting_from = None;
        proof {
            lemma_canvas_same_shapes(*old(self), *self);
        }
    }

    /// The marquee has selected `ids`.
    pub fn set_marquee_selection(&mut self, ids: Vec<NodeId>)
        ensures
            *final(self) == (NodeGraphState { selected_nodes: ids, ..*old(self) }),
            canvas_step(*old(self), *final(self)),
    {
        self.selected_nodes = ids;
        proof {
            lemma_canvas_same_shapes(*old(self), *self);
        }
    }

    /// Ending the marquee drag makes the first selected node the current one.
    pub fn commit_marquee(&mut self)
        ensures
            final(self).selected_node == if old(self).selected_nodes@.len() > 0 {
                Some(old(self).selected_nodes@[0])
            } else {
                None
            },
            *final(self) == (NodeGraphState { selected_node: final(self).selected_node, ..*old(self) }),
            canvas_step(*old(self), *final(self)),
    {
        self.selected_node = if self.selected_nodes.len() > 0 {
            Some(self.selected_nodes[0])
        } else {
            None
        };
        proof {
            lemma_canvas_same_shapes(*old(self), *self);
        }
    }

    /// Double-clicking a node's body starts renaming it, with its name in
    /// the edit buffer.
    pub fn start_rename(&mut self, id: NodeId)
        ensures
            final(self).renaming_node == Some(id),
            ({
                let k = node_index(old(self).nodes@, id);
                k < old(self).nodes@.len() ==> final(self).rename_buffer == old(self).nodes@[k].name
            }),
            ({
                let k = node_index(old(self).nodes@, id);
                k >= old(self).nodes@.len() ==> final(self).rename_buffer == old(self).rename_buffer
            }),
            *final(self) == (NodeGraphState {
                renaming_node: Some(id),
                rename_buffer: final(self).rename_buffer,
                ..*old(self)
            }),
            canvas_step(*old(self), *final(self)),
            forall|n: NodeId| #[trigger] node_widget_step(*old(self), *final(self), n),
    {
        let k = find_node(&self.nodes, id);
        if k < self.nodes.len() {
            self.rename_buffer = self.nodes[k].name.clone();
        }
        self.renaming_node = Some(id);
        proof {
            lemma_canvas_same_shapes(*old(self), *self);
            lemma_widget_same(*old(self), *self);
        }
    }

    /// Enter gives the node being renamed the edited name.
    pub fn commit_rename(&mut self)
        ensures
            final(self).renaming_node is None,
            match old(self).renaming_node {
                Some(id) => {
                    let k = node_index(old(self).nodes@, id);
                    if k < old(self).nodes@.len() {
                        &&& final(self).nodes@.len() == old(self).nodes@.len()
                        &&& final(self).nodes@[k].name@ == old(self).rename_buffer@
                        &&& final(self).nodes@[k].id == old(self).nodes@[k].id
                        &&& final(self).nodes@[k].node_type == old(self).nodes@[k].node_type
                        &&& final(self).nodes@[k].inputs == old(self).nodes@[k].inputs
                        &&& final(self).nodes@[k].outputs == old(self).nodes@[k].outputs
                        &&& final(self).nodes@[k].position == old(self).nodes@[k].position
                        &&& forall|j: int| 0 <= j < old(self).nodes@.len() && j != k ==> #[trigger] final(self).nodes@[j] == old(self).nodes@[j]
                    } else {
                        final(self).nodes == old(self).nodes
                    }
                },
                None => final(self).nodes == old(self).nodes,
            },
            *final(self) == (NodeGraphState { renaming_node: None, nodes: final(self).nodes, ..*old(self) }),
            old(self).wf() ==> final(self).wf(),
            node_kinds(final(self).nodes@) == node_kinds(old(self).nodes@),
            canvas_step(*old(self), *final(self)),
            forall|n: NodeId| #[trigger] node_widget_step(*old(self), *final(self), n),
    {
        match self.renaming_node {
            Some(id) => {
                let k = find_node(&self.nodes, id);
                if k < self.nodes.len() {
                    let new_name = self.rename_buffer.clone();
                    let ghost n0 = self.nodes@;
                    self.nodes[k].name = new_name;
                    proof {
                        assert(node_shapes(self.nodes@) =~= node_shapes(n0));
                        assert(node_kinds(self.nodes@) =~= node_kinds(n0));
                    }
                }
            },
            None => {},
        }
        self.renaming_node = None;
        proof {
            lemma_kinds_shapes(old(self).nodes@, self.nodes@);
            lemma_canvas_same_shapes(*old(self), *self);
            lemma_widget_same(*old(self), *self);
        }
    }

    /// Escape, or losing focus, abandons the rename.
    pub fn cancel_rename(&mut self)
        ensures
            *final(self) == (NodeGraphState { renaming_node: None, ..*old(self) }),
            canvas_step(*old(self), *final(self)),
            forall|n: NodeId| #[trigger] node_widget_step(*old(self), *final(self), n),
    {
        self.renaming_node = None;
        proof {
            lemma_canvas_same_shapes(*old(self), *self);
            lemma_widget_same(*old(self), *self);
        }
    }
}

/// The subnet a node opens when double-clicked, if it is a subnet node.
pub fn dive_target<S, V>(t: &NodeType<S, V>) -> (r: Option<crate::types::SubnetId>)
    ensures
        match *t {
            NodeType::Subnet { id, .. } => r == Some(id),
            _ => r is None,
        },
{
    match t {
        NodeType::Subnet { id, .. } => Some(*id),
        _ => None,
    }
}

} // verus!
