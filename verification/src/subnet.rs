//! Subnet graphs: the per-point networks inside a `Subnet` operator. Each
//! has a `SubInput` and a `SubOutput` node; evaluation runs the nodes that
//! feed `SubOutput` in dependency order.

use vstd::prelude::*;
use crate::node_graph::{
    Connection, contains_id, keep_connections, keep_pred, connection_index, find_connection, one_wire_per_input,
    lemma_connect_adds_only, lemma_connect_keeps_one_wire, lemma_filter_keeps_one_wire, lemma_filter_within,
};
use crate::dfs::{
    acyclic, has_later_feeder, is_post_order, lemma_post_order, lemma_unvisited_drop, lemma_unvisited_mono,
    lemma_visit_finish, lemma_visit_step, partial_visit, ranked, subset_of, unvisited, visit_result,
};
use crate::text::{chars_of, decimal_chars, push_all, push_str_chars, spec_decimal, string_from_chars};
use crate::types::{ConnectionId, GetAttributeTarget, NodeId, NodeType, SubnetId, SubnetNodeType};
use crate::node_graph::{GraphNode, NodeGraphState};

verus! {

/// An input socket of a subnet node: its name, the kind of value it takes,
/// and the output it is connected to.
#[derive(Clone, Debug)]
pub struct SubnetInputSocket {
    pub name: String,
    pub value_hint: &'static str,
    pub connected_output: Option<(NodeId, usize)>,
}

/// An output socket of a subnet node.
#[derive(Clone, Debug)]
pub struct SubnetOutputSocket {
    pub name: String,
    pub value_hint: &'static str,
}

/// A node of a subnet graph. `P` is the type of its canvas position.
#[derive(Clone, Debug)]
pub struct SubnetNode<S, V, P> {
    pub id: NodeId,
    pub name: String,
    pub node_type: SubnetNodeType<S, V>,
    pub position: P,
    pub inputs: Vec<SubnetInputSocket>,
    pub outputs: Vec<SubnetOutputSocket>,
}

/// A connection between two subnet nodes.
pub type SubnetConnection = Connection;

/// A subnet graph and its editing state.
pub struct SubnetGraph<S, V, P> {
    pub id: SubnetId,
    pub name: String,
    pub nodes: Vec<SubnetNode<S, V, P>>,
    pub connections: Vec<SubnetConnection>,
    pub next_node_id: usize,
    pub next_connection_id: usize,
    pub selected_node: Option<NodeId>,
    pub dragging_node: Option<NodeId>,
    pub connecting_from: Option<(NodeId, usize)>,
}

// ── Sockets ─────────────────────────────────────────────────────────────────

/// Names and value kinds of the input sockets of a subnet node.
pub open spec fn subnet_inputs<S, V>(t: SubnetNodeType<S, V>) -> Seq<(Seq<char>, Seq<char>)> {
    match t {
        SubnetNodeType::SubInput => seq![],
        SubnetNodeType::SubOutput => seq![("Output"@, "AnyMesh"@)],
        SubnetNodeType::AddVec3 | SubnetNodeType::SubtractVec3 | SubnetNodeType::CrossProduct
        | SubnetNodeType::DotProduct | SubnetNodeType::LerpVec3 { .. } => seq![("A"@, "Vec3"@), ("B"@, "Vec3"@)],
        SubnetNodeType::MultiplyVec3 { .. } | SubnetNodeType::Normalize => seq![("Vec"@, "Vec3"@)],
        SubnetNodeType::ConstVec3 { .. } | SubnetNodeType::ConstFloat { .. } | SubnetNodeType::ConstInt { .. }
        | SubnetNodeType::GetTemplate | SubnetNodeType::GetAttribute { .. } => seq![],
        SubnetNodeType::ScatterPoints { .. } => seq![("Geometry"@, "Mesh"@)],
        SubnetNodeType::CopyToPoints => seq![("Points"@, "Points"@), ("Template"@, "Mesh"@)],
    }
}

/// Names and value kinds of the output sockets of a subnet node.
pub open spec fn subnet_outputs<S, V>(t: SubnetNodeType<S, V>) -> Seq<(Seq<char>, Seq<char>)> {
    match t {
        SubnetNodeType::SubInput => seq![("Mesh"@, "Mesh"@), ("Points"@, "Vec3"@), ("Template"@, "Mesh"@)],
        SubnetNodeType::SubOutput => seq![("Out"@, "AnyMesh"@)],
        SubnetNodeType::AddVec3 | SubnetNodeType::SubtractVec3 | SubnetNodeType::CrossProduct
        | SubnetNodeType::MultiplyVec3 { .. } | SubnetNodeType::Normalize | SubnetNodeType::LerpVec3 { .. } =>
            seq![("Result"@, "Vec3"@)],
        SubnetNodeType::DotProduct | SubnetNodeType::ConstFloat { .. } => seq![("Value"@, "Float"@)],
        SubnetNodeType::ConstVec3 { .. } => seq![("Value"@, "Vec3"@)],
        SubnetNodeType::ConstInt { .. } => seq![("Value"@, "Int"@)],
        SubnetNodeType::ScatterPoints { .. } => seq![("Points"@, "Points"@)],
        SubnetNodeType::GetTemplate => seq![("Template"@, "Mesh"@)],
        SubnetNodeType::GetAttribute { .. } => seq![("Value"@, "Any"@)],
        SubnetNodeType::CopyToPoints => seq![("Instances"@, "Mesh"@)],
    }
}

/// Unconnected input sockets with the given names and value kinds.
pub open spec fn fresh_subnet_inputs(ins: Seq<SubnetInputSocket>, spec: Seq<(Seq<char>, Seq<char>)>) -> bool {
    ins.len() == spec.len() && forall|i: int|
        0 <= i < ins.len() ==> (#[trigger] ins[i]).name@ == spec[i].0 && ins[i].value_hint@ == spec[i].1
            && ins[i].connected_output is None
}

/// Output sockets with the given names and value kinds.
pub open spec fn subnet_outputs_named(outs: Seq<SubnetOutputSocket>, spec: Seq<(Seq<char>, Seq<char>)>) -> bool {
    outs.len() == spec.len() && forall|i: int|
        0 <= i < outs.len() ==> (#[trigger] outs[i]).name@ == spec[i].0 && outs[i].value_hint@ == spec[i].1
}

fn sin(n: &str, h: &'static str) -> (s: SubnetInputSocket)
    ensures
        s.name@ == n@,
        s.value_hint@ == h@,
        s.connected_output is None,
{
    SubnetInputSocket { name: String::from_str(n), value_hint: h, connected_output: None }
}

fn sout(n: &str, h: &'static str) -> (s: SubnetOutputSocket)
    ensures
        s.name@ == n@,
        s.value_hint@ == h@,
{
    SubnetOutputSocket { name: String::from_str(n), value_hint: h }
}

// ── Lookup ──────────────────────────────────────────────────────────────────

/// Index of the first node with id `id`, or the number of nodes.
pub open spec fn subnet_node_index<S, V, P>(nodes: Seq<SubnetNode<S, V, P>>, id: NodeId) -> int
    decreases nodes.len(),
{
    if nodes.len() == 0 {
        0
    } else if subnet_node_index(nodes.drop_last(), id) < nodes.len() - 1 {
        subnet_node_index(nodes.drop_last(), id)
    } else if nodes.last().id == id {
        nodes.len() - 1
    } else {
        nodes.len() as int
    }
}

pub proof fn lemma_subnet_node_index<S, V, P>(nodes: Seq<SubnetNode<S, V, P>>, id: NodeId)
    ensures
        0 <= subnet_node_index(nodes, id) <= nodes.len(),
        subnet_node_index(nodes, id) < nodes.len() ==> nodes[subnet_node_index(nodes, id)].id == id,
        forall|j: int| 0 <= j < subnet_node_index(nodes, id) ==> #[trigger] nodes[j].id != id,
    decreases nodes.len(),
{
    if nodes.len() > 0 {
        lemma_subnet_node_index(nodes.drop_last(), id);
        assert forall|j: int| 0 <= j < subnet_node_index(nodes, id) implies #[trigger] nodes[j].id != id by {
            if j < nodes.len() - 1 {
                assert(nodes[j] == nodes.drop_last()[j]);
            }
        }
    }
}

/// Finds the first node with id `id`.
pub fn find_subnet_node<S, V, P>(nodes: &Vec<SubnetNode<S, V, P>>, id: NodeId) -> (k: usize)
    ensures
        k == subnet_node_index(nodes@, id),
        k <= nodes.len(),
        k < nodes.len() ==> nodes@[k as int].id == id,
        forall|j: int| 0 <= j < k ==> #[trigger] nodes@[j].id != id,
{
    proof {
        lemma_subnet_node_index(nodes@, id);
    }
    let mut k: usize = 0;
    while k < nodes.len()
        invariant
            k <= nodes.len(),
            forall|j: int| 0 <= j < k ==> #[trigger] nodes@[j].id != id,
            subnet_node_index(nodes@, id) >= k,
        decreases nodes.len() - k,
    {
        proof {
            lemma_subnet_node_index(nodes@, id);
        }
        if nodes[k].id == id {
            return k;
        }
        k = k + 1;
    }
    proof {
        lemma_subnet_node_index(nodes@, id);
    }
    k
}

/// `new` is `old` with input `i` of its first node with id `to` set to `v`,
/// when that node and input exist; otherwise `new` is `old`.
pub open spec fn subnet_set_input<S, V, P>(
    old: Seq<SubnetNode<S, V, P>>,
    new: Seq<SubnetNode<S, V, P>>,
    to: NodeId,
    i: usize,
    v: Option<(NodeId, usize)>,
) -> bool {
    let k = subnet_node_index(old, to);
    if k < old.len() && i < old[k].inputs.len() {
        &&& new.len() == old.len()
        &&& forall|j: int| 0 <= j < old.len() && j != k ==> #[trigger] new[j] == old[j]
        &&& new[k].id == old[k].id
        &&& new[k].name == old[k].name
        &&& new[k].node_type == old[k].node_type
        &&& new[k].position == old[k].position
        &&& new[k].outputs == old[k].outputs
        &&& new[k].inputs@ == old[k].inputs@.update(
            i as int,
            SubnetInputSocket {
                name: old[k].inputs@[i as int].name,
                value_hint: old[k].inputs@[i as int].value_hint,
                connected_output: v,
            },
        )
    } else {
        new == old
    }
}

fn connect_subnet_input<S, V, P>(
    nodes: &mut Vec<SubnetNode<S, V, P>>,
    to: NodeId,
    i: usize,
    v: Option<(NodeId, usize)>,
)
    ensures
        subnet_set_input(old(nodes)@, final(nodes)@, to, i, v),
{
    let k = find_subnet_node(nodes, to);
    if k < nodes.len() && i < nodes[k].inputs.len() {
        nodes[k].inputs[i].connected_output = v;
        proof {
            assert(nodes@[k as int].inputs@ =~= old(nodes)@[k as int].inputs@.update(
                i as int,
                SubnetInputSocket {
                    name: old(nodes)@[k as int].inputs@[i as int].name,
                    value_hint: old(nodes)@[k as int].inputs@[i as int].value_hint,
                    connected_output: v,
                },
            ));
        }
    }
}

/// Ids and kinds of the nodes, in order.
pub open spec fn subnet_node_kinds<S, V, P>(nodes: Seq<SubnetNode<S, V, P>>) -> Seq<(NodeId, SubnetNodeType<S, V>)> {
    nodes.map_values(|n: SubnetNode<S, V, P>| (n.id, n.node_type))
}

/// Connecting or disconnecting an input (as `subnet_set_input` describes)
/// keeps the nodes' ids, their order and their kinds.
pub proof fn lemma_subnet_set_input_keeps_kinds<S, V, P>(
    a: Seq<SubnetNode<S, V, P>>,
    b: Seq<SubnetNode<S, V, P>>,
    to: NodeId,
    i: usize,
    v: Option<(NodeId, usize)>,
)
    requires
        subnet_set_input(a, b, to, i, v),
    ensures
        subnet_node_kinds(b) == subnet_node_kinds(a),
{
    lemma_subnet_node_index(a, to);
    assert(subnet_node_kinds(b) =~= subnet_node_kinds(a));
}

/// Ids of the nodes, in order.
pub open spec fn subnet_ids<S, V, P>(nodes: Seq<SubnetNode<S, V, P>>) -> Seq<NodeId> {
    nodes.map_values(|n: SubnetNode<S, V, P>| n.id)
}

impl<S, V, P> SubnetGraph<S, V, P> {
    /// Node ids are distinct and below `next_node_id`.
    pub open spec fn wf(&self) -> bool {
        &&& forall|i: int| 0 <= i < self.nodes@.len() ==> (#[trigger] self.nodes@[i]).id.0 < self.next_node_id
        &&& forall|i: int, j: int|
            0 <= i < j < self.nodes@.len() ==> (#[trigger] self.nodes@[i]).id != (#[trigger] self.nodes@[j]).id
    }

    /// The sockets of a new node of type `t`, all inputs unconnected.
    pub fn create_sockets(t: &SubnetNodeType<S, V>) -> (r: (Vec<SubnetInputSocket>, Vec<SubnetOutputSocket>))
        ensures
            fresh_subnet_inputs(r.0@, subnet_inputs(*t)),
            subnet_outputs_named(r.1@, subnet_outputs(*t)),
    {
        match t {
            SubnetNodeType::SubInput => (
                vec![],
                vec![sout("Mesh", "Mesh"), sout("Points", "Vec3"), sout("Template", "Mesh")],
            ),
            SubnetNodeType::SubOutput => (vec![sin("Output", "AnyMesh")], vec![sout("Out", "AnyMesh")]),
            SubnetNodeType::AddVec3 | SubnetNodeType::SubtractVec3 | SubnetNodeType::CrossProduct => (
                vec![sin("A", "Vec3"), sin("B", "Vec3")],
                vec![sout("Result", "Vec3")],
            ),
            SubnetNodeType::MultiplyVec3 { .. } => (vec![sin("Vec", "Vec3")], vec![sout("Result", "Vec3")]),
            SubnetNodeType::Normalize => (vec![sin("Vec", "Vec3")], vec![sout("Result", "Vec3")]),
            SubnetNodeType::DotProduct => (vec![sin("A", "Vec3"), sin("B", "Vec3")], vec![sout("Value", "Float")]),
            SubnetNodeType::LerpVec3 { .. } => (
                vec![sin("A", "Vec3"), sin("B", "Vec3")],
                vec![sout("Result", "Vec3")],
            ),
            SubnetNodeType::ConstVec3 { .. } => (vec![], vec![sout("Value", "Vec3")]),
            SubnetNodeType::ConstFloat { .. } => (vec![], vec![sout("Value", "Float")]),
            SubnetNodeType::ConstInt { .. } => (vec![], vec![sout("Value", "Int")]),
            SubnetNodeType::ScatterPoints { .. } => (vec![sin("Geometry", "Mesh")], vec![sout("Points", "Points")]),
            SubnetNodeType::GetTemplate => (vec![], vec![sout("Template", "Mesh")]),
            SubnetNodeType::GetAttribute { .. } => (vec![], vec![sout("Value", "Any")]),
            SubnetNodeType::CopyToPoints => (
                vec![sin("Points", "Points"), sin("Template", "Mesh")],
                vec![sout("Instances", "Mesh")],
            ),
        }
    }

    /// Adds a node with fresh sockets; its id is the next unused one.
    pub fn add_node(&mut self, name: String, t: SubnetNodeType<S, V>, pos: P) -> (id: NodeId)
        requires
            old(self).next_node_id < usize::MAX,
        ensures
            id == NodeId(old(self).next_node_id),
            final(self).next_node_id == old(self).next_node_id + 1,
            final(self).nodes@.len() == old(self).nodes@.len() + 1,
            final(self).nodes@.drop_last() == old(self).nodes@,
            final(self).nodes@.last().id == id,
            final(self).nodes@.last().name == name,
            final(self).nodes@.last().node_type == t,
            final(self).nodes@.last().position == pos,
            fresh_subnet_inputs(final(self).nodes@.last().inputs@, subnet_inputs(t)),
            subnet_outputs_named(final(self).nodes@.last().outputs@, subnet_outputs(t)),
            final(self).connections == old(self).connections,
            final(self).next_connection_id == old(self).next_connection_id,
            final(self).id == old(self).id,
            final(self).name == old(self).name,
            final(self).selected_node == old(self).selected_node,
            final(self).dragging_node == old(self).dragging_node,
            final(self).connecting_from == old(self).connecting_from,
            old(self).wf() ==> final(self).wf(),
            subnet_step(*old(self), *final(self)),
    {
        let id = NodeId(self.next_node_id);
        self.next_node_id = self.next_node_id + 1;
        let (inputs, outputs) = Self::create_sockets(&t);
        let ghost n0 = self.nodes@;
        self.nodes.push(SubnetNode { id, name, node_type: t, position: pos, inputs, outputs });
        assert(self.nodes@.drop_last() =~= n0);
        proof {
            assert(self.nodes@.take(n0.len() as int) =~= n0);
            assert forall|j: int| 0 <= j < self.connections@.len() implies old(self).connections@.contains(
                #[trigger] self.connections@[j],
            ) by {
                assert(old(self).connections@[j] == self.connections@[j]);
            }
        }
        id
    }

    /// A subnet graph holding only its `SubInput` node (id 0, at
    /// `input_pos`) and its `SubOutput` node (id 1, at `output_pos`).
    pub fn new(id: SubnetId, name: String, input_pos: P, output_pos: P) -> (g: Self)
        ensures
            g.id == id,
            g.name == name,
            g.nodes@.len() == 2,
            g.nodes@[0].id == NodeId(0),
            g.nodes@[0].name@ == "SubInput"@,
            g.nodes@[0].node_type is SubInput,
            g.nodes@[0].position == input_pos,
            fresh_subnet_inputs(g.nodes@[0].inputs@, subnet_inputs(SubnetNodeType::<S, V>::SubInput)),
            subnet_outputs_named(g.nodes@[0].outputs@, subnet_outputs(SubnetNodeType::<S, V>::SubInput)),
            g.nodes@[1].id == NodeId(1),
            g.nodes@[1].name@ == "SubOutput"@,
            g.nodes@[1].node_type is SubOutput,
            g.nodes@[1].position == output_pos,
            fresh_subnet_inputs(g.nodes@[1].inputs@, subnet_inputs(SubnetNodeType::<S, V>::SubOutput)),
            subnet_outputs_named(g.nodes@[1].outputs@, subnet_outputs(SubnetNodeType::<S, V>::SubOutput)),
            g.connections@.len() == 0,
            g.next_node_id == 2,
            g.next_connection_id == 0,
            g.selected_node is None,
            g.dragging_node is None,
            g.connecting_from is None,
            g.wf(),
    {
        let mut g = SubnetGraph {
            id,
            name,
            nodes: Vec::new(),
            connections: Vec::new(),
            next_node_id: 0,
            next_connection_id: 0,
            selected_node: None,
            dragging_node: None,
            connecting_from: None,
        };
        g.add_node(String::from_str("SubInput"), SubnetNodeType::SubInput, input_pos);
        g.add_node(String::from_str("SubOutput"), SubnetNodeType::SubOutput, output_pos);
        g
    }

    /// Connects output `from_out` of `from` to input `to_in` of `to`,
    /// replacing any connection into that input.
    pub fn add_connection(&mut self, from: NodeId, from_out: usize, to: NodeId, to_in: usize)
        requires
            old(self).next_connection_id < usize::MAX,
        ensures
            final(self).connections@ == old(self).connections@.filter(keep_pred(Some((to, to_in)), None)).push(
                Connection {
                    id: ConnectionId(old(self).next_connection_id),
                    from_node: from,
                    from_output: from_out,
                    to_node: to,
                    to_input: to_in,
                },
            ),
            final(self).next_connection_id == old(self).next_connection_id + 1,
            subnet_set_input(old(self).nodes@, final(self).nodes@, to, to_in, Some((from, from_out))),
            final(self).next_node_id == old(self).next_node_id,
            final(self).id == old(self).id,
            final(self).name == old(self).name,
            final(self).selected_node == old(self).selected_node,
            final(self).dragging_node == old(self).dragging_node,
            final(self).connecting_from == old(self).connecting_from,
            old(self).wf() ==> final(self).wf(),
            subnet_node_kinds(final(self).nodes@) == subnet_node_kinds(old(self).nodes@),
            one_wire_per_input(old(self).connections@) ==> one_wire_per_input(final(self).connections@),
    {
        let ghost c0 = self.connections@;
        self.connections = keep_connections(&self.connections, Some((to, to_in)), None);
        let id = ConnectionId(self.next_connection_id);
        self.next_connection_id = self.next_connection_id + 1;
        connect_subnet_input(&mut self.nodes, to, to_in, Some((from, from_out)));
        self.connections.push(
            Connection { id, from_node: from, from_output: from_out, to_node: to, to_input: to_in },
        );
        proof {
            lemma_subnet_node_index(old(self).nodes@, to);
            lemma_subnet_set_input_keeps_kinds(old(self).nodes@, self.nodes@, to, to_in, Some((from, from_out)));
            if one_wire_per_input(c0) {
                lemma_connect_keeps_one_wire(
                    c0,
                    Connection { id, from_node: from, from_output: from_out, to_node: to, to_input: to_in },
                );
            }
        }
    }

    /// Removes the connection with id `cid`, clearing the input it fed.
    pub fn remove_connection(&mut self, cid: ConnectionId)
        ensures
            final(self).connections@ == old(self).connections@.filter(keep_pred(None, Some(cid))),
            ({
                let k = connection_index(old(self).connections@, cid);
                if k < old(self).connections@.len() {
                    let c = old(self).connections@[k];
                    subnet_set_input(old(self).nodes@, final(self).nodes@, c.to_node, c.to_input, None)
                } else {
                    final(self).nodes == old(self).nodes
                }
            }),
            final(self).next_node_id == old(self).next_node_id,
            final(self).next_connection_id == old(self).next_connection_id,
            final(self).id == old(self).id,
            final(self).name == old(self).name,
            final(self).selected_node == old(self).selected_node,
            final(self).dragging_node == old(self).dragging_node,
            final(self).connecting_from == old(self).connecting_from,
            old(self).wf() ==> final(self).wf(),
            subnet_node_kinds(final(self).nodes@) == subnet_node_kinds(old(self).nodes@),
            one_wire_per_input(old(self).connections@) ==> one_wire_per_input(final(self).connections@),
            subnet_step(*old(self), *final(self)),
    {
        let k = find_connection(&self.connections, cid);
        if k < self.connections.len() {
            let c = self.connections[k];
            connect_subnet_input(&mut self.nodes, c.to_node, c.to_input, None);
            proof {
                lemma_subnet_node_index(old(self).nodes@, c.to_node);
                lemma_subnet_set_input_keeps_kinds(old(self).nodes@, self.nodes@, c.to_node, c.to_input, None);
            }
        }
        proof {
            if one_wire_per_input(old(self).connections@) {
                lemma_filter_keeps_one_wire(old(self).connections@, keep_pred(None, Some(cid)));
            }
        }
        self.connections = keep_connections(&self.connections, None, Some(cid));
        proof {
            lemma_filter_within(old(self).connections@, keep_pred(None, Some(cid)));
            lemma_subnet_same_nodes(*old(self), *self);
        }
    }
}


// ── Execution order ─────────────────────────────────────────────────────────

/// The first node with id `s` is a `SubInput` node.
pub open spec fn names_sub_input<S, V, P>(nodes: Seq<SubnetNode<S, V, P>>, s: NodeId) -> bool {
    let k = subnet_node_index(nodes, s);
    k < nodes.len() && nodes[k].node_type is SubInput
}

/// The node an input socket is connected to, if any.
pub open spec fn input_source(sock: SubnetInputSocket) -> Option<NodeId> {
    match sock.connected_output {
        Some(c) => Some(c.0),
        None => None,
    }
}

/// `s` feeds `x`: an input of the first node with id `x` is connected to
/// `s`, and `s` is not the `SubInput` node (whose data is already there).
pub open spec fn feeds<S, V, P>(nodes: Seq<SubnetNode<S, V, P>>, s: NodeId, x: NodeId) -> bool {
    let k = subnet_node_index(nodes, x);
    &&& k < nodes.len()
    &&& exists|i: int| 0 <= i < nodes[k].inputs@.len() && #[trigger] input_source(nodes[k].inputs@[i]) == Some(s)
    &&& !names_sub_input(nodes, s)
}

/// `feeds` as a relation.
pub open spec fn feeds_rel<S, V, P>(nodes: Seq<SubnetNode<S, V, P>>) -> spec_fn(NodeId, NodeId) -> bool {
    |s: NodeId, x: NodeId| feeds(nodes, s, x)
}

/// The depth-first traversal from `x`, with `v` visited and `o` listed so
/// far: unless `x` was visited, it is marked visited, the sources of its
/// inputs (other than the `SubInput` node) are traversed in socket order,
/// and then `x` is listed. The visited and listed nodes after it.
pub open spec fn depth_first<S, V, P>(
    nodes: Seq<SubnetNode<S, V, P>>,
    x: NodeId,
    v: Seq<NodeId>,
    o: Seq<NodeId>,
) -> (Seq<NodeId>, Seq<NodeId>)
    decreases unvisited(subnet_ids(nodes), v), 1nat, 0int,
{
    if v.contains(x) {
        (v, o)
    } else {
        let k = subnet_node_index(nodes, x);
        if 0 <= k < nodes.len() {
            let r = depth_first_inputs(nodes, nodes[k].inputs@, 0, v.push(x), o, unvisited(subnet_ids(nodes), v));
            (r.0, r.1.push(x))
        } else {
            (v.push(x), o.push(x))
        }
    }
}

/// The traversal of the sources of inputs `i..` of `ins`, in order, while
/// fewer than `bound` nodes are unvisited (the traversal of a node passes
/// the number unvisited before it was marked, so the bound only makes the
/// recursion well founded).
pub open spec fn depth_first_inputs<S, V, P>(
    nodes: Seq<SubnetNode<S, V, P>>,
    ins: Seq<SubnetInputSocket>,
    i: int,
    v: Seq<NodeId>,
    o: Seq<NodeId>,
    bound: nat,
) -> (Seq<NodeId>, Seq<NodeId>)
    decreases bound, 0nat, ins.len() - i,
{
    if i < 0 || i >= ins.len() || unvisited(subnet_ids(nodes), v) >= bound {
        (v, o)
    } else {
        match input_source(ins[i]) {
            Some(s) => if !names_sub_input(nodes, s) {
                let r = depth_first(nodes, s, v, o);
                depth_first_inputs(nodes, ins, i + 1, r.0, r.1, bound)
            } else {
                depth_first_inputs(nodes, ins, i + 1, v, o, bound)
            },
            None => depth_first_inputs(nodes, ins, i + 1, v, o, bound),
        }
    }
}

impl<S, V, P> SubnetGraph<S, V, P> {
    fn is_sub_input(&self, s: NodeId) -> (b: bool)
        ensures
            b == names_sub_input(self.nodes@, s),
    {
        let k = find_subnet_node(&self.nodes, s);
        k < self.nodes.len() && match self.nodes[k].node_type {
            SubnetNodeType::SubInput => true,
            _ => false,
        }
    }

    /// Depth-first traversal of the nodes feeding `x`: appends to `order`
    /// every node not yet visited, each after the nodes that feed it.
    fn visit_node(
        &self,
        x: NodeId,
        visited: &mut Vec<NodeId>,
        order: &mut Vec<NodeId>,
        Ghost(rank): Ghost<spec_fn(NodeId) -> nat>,
    )
        requires
            subset_of(old(order)@, old(visited)@),
            old(order)@.no_duplicates(),
        ensures
            subset_of(final(order)@, final(visited)@),
            final(order)@.no_duplicates(),
            visit_result(feeds_rel(self.nodes@), rank, x, old(visited)@, old(order)@, final(visited)@, final(order)@),
            (final(visited)@, final(order)@) == depth_first(self.nodes@, x, old(visited)@, old(order)@),
        decreases unvisited(subnet_ids(self.nodes@), old(visited)@), if old(visited)@.contains(x) { 0nat } else { 1nat },
    {
        let ghost nodes = self.nodes@;
        let ghost rel = feeds_rel(nodes);
        let ghost ids = subnet_ids(nodes);
        let ghost v0 = visited@;
        let ghost o0 = order@;
        if contains_id(visited, x) {
            assert(order@.skip(o0.len() as int) =~= seq![]);
            assert(order@.take(o0.len() as int) =~= o0);
            return;
        }
        visited.push(x);
        let k = find_subnet_node(&self.nodes, x);
        proof {
            assert(order@.skip(o0.len() as int) =~= seq![]);
            assert(order@.take(o0.len() as int) =~= o0);
            assert forall|y: NodeId| #[trigger] v0.contains(y) implies visited@.contains(y) by {
                let w = choose|w: int| 0 <= w < v0.len() && v0[w] == y;
                assert(visited@[w] == y);
            }
            assert(subset_of(v0, visited@));
            assert forall|y: NodeId| #[trigger] order@.contains(y) implies visited@.contains(y) by {
                assert(v0.contains(y));
            }
            assert(subset_of(order@, visited@));
            assert forall|y: NodeId| #[trigger] visited@.contains(y) <==> (v0.contains(y) || y == x
                || order@.skip(o0.len() as int).contains(y)) by {
                if visited@.contains(y) && y != x {
                    let w = choose|w: int| 0 <= w < visited@.len() && visited@[w] == y;
                    assert(v0[w] == y);
                }
                if y == x {
                    assert(visited@[visited@.len() - 1] == x);
                }
            }
            assert(partial_visit(rel, rank, x, v0, o0, visited@, order@));
            if k < nodes.len() {
                lemma_unvisited_drop(ids, v0, visited@, k as int);
            }
        }
        if k < self.nodes.len() {
            let node = &self.nodes[k];
            let mut i: usize = 0;
            while i < node.inputs.len()
                invariant
                    nodes == self.nodes@,
                    v0 == old(visited)@,
                    !old(visited)@.contains(x),
                    k < nodes.len(),
                    *node == nodes[k as int],
                    nodes[k as int].id == x,
                    k == subnet_node_index(nodes, x),
                    i <= node.inputs@.len(),
                    partial_visit(rel, rank, x, v0, o0, visited@, order@),
                    subset_of(v0, visited@),
                    unvisited(ids, visited@) < unvisited(ids, v0),
                    ids == subnet_ids(nodes),
                    rel == feeds_rel(nodes),
                    forall|ii: int|
                        #![trigger node.inputs@[ii]]
                        0 <= ii < i ==> (input_source(node.inputs@[ii]) matches Some(s) ==> (names_sub_input(nodes, s)
                            || visited@.contains(s))),
                    depth_first_inputs(nodes, node.inputs@, i as int, visited@, order@, unvisited(ids, v0))
                        == depth_first_inputs(nodes, node.inputs@, 0, v0.push(x), o0, unvisited(ids, v0)),
                decreases node.inputs@.len() - i,
            {
                match node.inputs[i].connected_output {
                    Some(c) => {
                        let s = c.0;
                        if !self.is_sub_input(s) {
                            let ghost vb = visited@;
                            let ghost ob = order@;
                            proof {
                                assert(input_source(node.inputs@[i as int]) == Some(s));
                                assert(feeds(nodes, s, x));
                                assert(rel(s, x));
                                lemma_unvisited_mono(ids, v0, vb);
                            }
                            self.visit_node(s, visited, order, Ghost(rank));
                            proof {
                                lemma_visit_step(rel, rank, x, s, v0, o0, vb, ob, visited@, order@);
                                lemma_unvisited_mono(ids, vb, visited@);
                                assert(subset_of(v0, visited@));
                            }
                        }
                    },
                    None => {},
                }
                i = i + 1;
            }
            proof {
                assert forall|s: NodeId| #[trigger] rel(s, x) implies visited@.contains(s) by {
                    let ii = choose|ii: int| 0 <= ii < nodes[k as int].inputs@.len() && #[trigger] input_source(nodes[k as int].inputs@[ii]) == Some(s);
                    assert(input_source(node.inputs@[ii]) == Some(s));
                }
            }
        }
        let ghost ob = order@;
        order.push(x);
        proof {
            lemma_visit_finish(rel, rank, x, v0, o0, visited@, ob, order@);
        }
    }
}


/// `order` lists `target` last, after everything that feeds it: no node
/// twice, every node's feeders included, every node but `target` feeding a
/// later one, and, when `feeds` has no cycle, every node after all of its
/// feeders.
pub open spec fn is_execution_order<S, V, P>(nodes: Seq<SubnetNode<S, V, P>>, target: NodeId, order: Seq<NodeId>) -> bool {
    is_post_order(feeds_rel(nodes), target, order)
}

// ── Evaluation ──────────────────────────────────────────────────────────────

/// Index of the first node whose kind satisfies `sub_output` (when true,
/// `SubOutput`; otherwise `SubInput`), or the number of nodes.
pub open spec fn first_io_index<S, V, P>(nodes: Seq<SubnetNode<S, V, P>>, sub_output: bool) -> int
    decreases nodes.len(),
{
    if nodes.len() == 0 {
        0
    } else if first_io_index(nodes.drop_last(), sub_output) < nodes.len() - 1 {
        first_io_index(nodes.drop_last(), sub_output)
    } else if (if sub_output { nodes.last().node_type is SubOutput } else { nodes.last().node_type is SubInput }) {
        nodes.len() - 1
    } else {
        nodes.len() as int
    }
}

/// The node type is `SubOutput` (when `sub_output`) or `SubInput`.
pub open spec fn is_io_kind<S, V>(t: SubnetNodeType<S, V>, sub_output: bool) -> bool {
    if sub_output {
        t is SubOutput
    } else {
        t is SubInput
    }
}

pub proof fn lemma_first_io_index<S, V, P>(nodes: Seq<SubnetNode<S, V, P>>, sub_output: bool)
    ensures
        0 <= first_io_index(nodes, sub_output) <= nodes.len(),
        first_io_index(nodes, sub_output) < nodes.len() ==> is_io_kind(
            nodes[first_io_index(nodes, sub_output)].node_type,
            sub_output,
        ),
        forall|j: int|
            0 <= j < first_io_index(nodes, sub_output) ==> !is_io_kind(#[trigger] nodes[j].node_type, sub_output),
    decreases nodes.len(),
{
    if nodes.len() > 0 {
        lemma_first_io_index(nodes.drop_last(), sub_output);
        assert forall|j: int| 0 <= j < first_io_index(nodes, sub_output) implies !is_io_kind(
            #[trigger] nodes[j].node_type,
            sub_output,
        ) by {
            if j < nodes.len() - 1 {
                assert(nodes[j] == nodes.drop_last()[j]);
            }
        }
    }
}

fn find_io<S, V, P>(nodes: &Vec<SubnetNode<S, V, P>>, sub_output: bool) -> (k: usize)
    ensures
        k == first_io_index(nodes@, sub_output),
{
    proof {
        lemma_first_io_index(nodes@, sub_output);
    }
    let mut k: usize = 0;
    while k < nodes.len()
        invariant
            k <= nodes.len(),
            forall|j: int| 0 <= j < k ==> !is_io_kind(#[trigger] nodes@[j].node_type, sub_output),
            first_io_index(nodes@, sub_output) >= k,
        decreases nodes.len() - k,
    {
        proof {
            lemma_first_io_index(nodes@, sub_output);
        }
        let hit = match nodes[k].node_type {
            SubnetNodeType::SubInput => !sub_output,
            SubnetNodeType::SubOutput => sub_output,
            _ => false,
        };
        if hit {
            return k;
        }
        k = k + 1;
    }
    proof {
        lemma_first_io_index(nodes@, sub_output);
    }
    k
}

/// The node feeding the first `SubOutput`, when the graph has a `SubInput`
/// and a `SubOutput` and the latter's first input is connected.
pub open spec fn output_source<S, V, P>(nodes: Seq<SubnetNode<S, V, P>>) -> Option<NodeId> {
    let i = first_io_index(nodes, false);
    let o = first_io_index(nodes, true);
    if i < nodes.len() && o < nodes.len() {
        input_source(nodes[o].inputs@[0])
    } else {
        None
    }
}

/// The first `SubOutput` node, if any, has an input.
pub open spec fn output_has_input<S, V, P>(nodes: Seq<SubnetNode<S, V, P>>) -> bool {
    let o = first_io_index(nodes, true);
    o < nodes.len() ==> nodes[o].inputs@.len() > 0
}

/// A step of subnet evaluation: the work one node does on the attribute
/// streams, with the names of the streams it reads. Every step writes `P`.
#[derive(Clone, Debug)]
pub enum IceStep<S, V> {
    /// Nothing to do (`SubInput`, `SubOutput`, `GetTemplate`).
    Nothing,
    Add { a: String, b: String },
    Subtract { a: String, b: String },
    Cross { a: String, b: String },
    Multiply { input: String, scalar: S },
    Normalize { input: String },
    Lerp { a: String, b: String, t: S },
    /// Store `value` once per point as `const_vec3`.
    FillVec3 { value: V },
    /// Store `value` once per point as `const_float`.
    FillFloat { value: S },
    /// Store `value` once per point as `const_int`.
    FillInt { value: i32 },
    Scatter { count: u32, seed: u32 },
    /// Fail unless a stream named `name` exists.
    RequireAttribute { name: String },
    CopyToPoints,
}

/// The stream a `GetAttribute` node names.
pub open spec fn target_name(t: GetAttributeTarget) -> Seq<char> {
    match t {
        GetAttributeTarget::P => "P"@,
        GetAttributeTarget::N => "N"@,
        GetAttributeTarget::PtIndex => "ptIndex"@,
        GetAttributeTarget::PrimIndex => "primIndex"@,
        GetAttributeTarget::PtsNumber => "ptsNumber"@,
        GetAttributeTarget::PrimsNumber => "primsNumber"@,
        GetAttributeTarget::Uv => "uv"@,
        GetAttributeTarget::Custom(s) => s@,
    }
}

/// `Node NodeId(<id>) not found`.
pub open spec fn node_missing_message(id: NodeId) -> Seq<char> {
    "Node NodeId("@ + spec_decimal(id.0 as nat) + ") not found"@
}

/// `Input <i> not found`.
pub open spec fn input_missing_message(i: usize) -> Seq<char> {
    "Input "@ + spec_decimal(i as nat) + " not found"@
}

/// `getAttribute: '<name>' not found in context`.
pub open spec fn attribute_missing_message(name: Seq<char>) -> Seq<char> {
    "getAttribute: '"@ + name + "' not found in context"@
}

/// The error a `DotProduct` node gives.
pub open spec fn dot_product_message() -> Seq<char> {
    "DotProduct not yet implemented in new system"@
}

fn wrap_decimal(pre: &str, n: usize, post: &str) -> (s: String)
    ensures
        s@ == pre@ + spec_decimal(n as nat) + post@,
{
    let mut v: Vec<char> = Vec::new();
    push_str_chars(&mut v, pre);
    let d = decimal_chars(n);
    push_all(&mut v, &d);
    push_str_chars(&mut v, post);
    string_from_chars(&v)
}

/// The message of a `GetAttribute` node whose stream does not exist.
pub fn attribute_missing(name: &str) -> (s: String)
    ensures
        s@ == attribute_missing_message(name@),
{
    let mut v: Vec<char> = Vec::new();
    push_str_chars(&mut v, "getAttribute: '");
    push_str_chars(&mut v, name);
    push_str_chars(&mut v, "' not found in context");
    string_from_chars(&v)
}

fn target_string(t: &GetAttributeTarget) -> (s: String)
    ensures
        s@ == target_name(*t),
{
    match t {
        GetAttributeTarget::P => String::from_str("P"),
        GetAttributeTarget::N => String::from_str("N"),
        GetAttributeTarget::PtIndex => String::from_str("ptIndex"),
        GetAttributeTarget::PrimIndex => String::from_str("primIndex"),
        GetAttributeTarget::PtsNumber => String::from_str("ptsNumber"),
        GetAttributeTarget::PrimsNumber => String::from_str("primsNumber"),
        GetAttributeTarget::Uv => String::from_str("uv"),
        GetAttributeTarget::Custom(c) => {
            let v = chars_of(c.as_str());
            string_from_chars(&v)
        },
    }
}

/// The error node `n` stops with, if any: a missing input (the first one
/// read, as the node reads them), or the unimplemented dot product.
pub open spec fn step_error<S, V, P>(n: SubnetNode<S, V, P>) -> Option<Seq<char>> {
    let ni = n.inputs@.len();
    match n.node_type {
        SubnetNodeType::AddVec3 | SubnetNodeType::SubtractVec3 | SubnetNodeType::CrossProduct
        | SubnetNodeType::LerpVec3 { .. } => if ni == 0 {
            Some(input_missing_message(0))
        } else if ni == 1 {
            Some(input_missing_message(1))
        } else {
            None
        },
        SubnetNodeType::MultiplyVec3 { .. } | SubnetNodeType::Normalize => if ni == 0 {
            Some(input_missing_message(0))
        } else {
            None
        },
        SubnetNodeType::DotProduct => Some(dot_product_message()),
        _ => None,
    }
}

/// `step` is the work node `n` does (when it does not fail). Every stream
/// a node reads is `P`.
pub open spec fn is_step_for<S, V, P>(n: SubnetNode<S, V, P>, step: IceStep<S, V>) -> bool {
    match n.node_type {
        SubnetNodeType::SubInput | SubnetNodeType::SubOutput | SubnetNodeType::GetTemplate => step is Nothing,
        SubnetNodeType::AddVec3 => step matches IceStep::Add { a, b } && a@ == "P"@ && b@ == "P"@,
        SubnetNodeType::SubtractVec3 => step matches IceStep::Subtract { a, b } && a@ == "P"@ && b@ == "P"@,
        SubnetNodeType::CrossProduct => step matches IceStep::Cross { a, b } && a@ == "P"@ && b@ == "P"@,
        SubnetNodeType::LerpVec3 { t } => step matches IceStep::Lerp { a, b, t: t2 } && a@ == "P"@ && b@ == "P"@
            && t2 == t,
        SubnetNodeType::MultiplyVec3 { scalar } => step matches IceStep::Multiply { input, scalar: s2 } && input@
            == "P"@ && s2 == scalar,
        SubnetNodeType::Normalize => step matches IceStep::Normalize { input } && input@ == "P"@,
        SubnetNodeType::DotProduct => false,
        SubnetNodeType::ConstVec3 { value } => step == IceStep::<S, V>::FillVec3 { value },
        SubnetNodeType::ConstFloat { value } => step == IceStep::<S, V>::FillFloat { value },
        SubnetNodeType::ConstInt { value } => step == IceStep::<S, V>::FillInt { value },
        SubnetNodeType::ScatterPoints { count, seed } => step == IceStep::<S, V>::Scatter { count, seed },
        SubnetNodeType::GetAttribute { target } => step matches IceStep::RequireAttribute { name } && name@
            == target_name(target),
        SubnetNodeType::CopyToPoints => step is CopyToPoints,
    }
}

/// The name of the stream input `idx` of `node` reads: always `P`; an error
/// when the node has no such input.
pub fn input_attribute_name<S, V, P>(node: &SubnetNode<S, V, P>, idx: usize) -> (r: Result<String, String>)
    ensures
        idx < node.inputs@.len() ==> (r matches Ok(name) && name@ == "P"@),
        idx >= node.inputs@.len() ==> (r matches Err(e) && e@ == input_missing_message(idx)),
{
    if idx < node.inputs.len() {
        Ok(String::from_str("P"))
    } else {
        Err(wrap_decimal("Input ", idx, " not found"))
    }
}

/// The names of the streams inputs `a` and `b` of `node` read; the error of
/// the first missing one.
pub fn input_attribute_names<S, V, P>(node: &SubnetNode<S, V, P>, a: usize, b: usize) -> (r: Result<(String, String), String>)
    ensures
        a >= node.inputs@.len() ==> (r matches Err(e) && e@ == input_missing_message(a)),
        a < node.inputs@.len() && b >= node.inputs@.len() ==> (r matches Err(e) && e@ == input_missing_message(b)),
        a < node.inputs@.len() && b < node.inputs@.len() ==> (r matches Ok(p) && p.0@ == "P"@ && p.1@ == "P"@),
{
    let x = input_attribute_name(node, a)?;
    let y = input_attribute_name(node, b)?;
    Ok((x, y))
}

impl<S: Copy, V: Copy, P> SubnetGraph<S, V, P> {
    /// The step node `node_id` performs during evaluation, or the error
    /// that stops evaluation there.
    pub fn plan_step(&self, node_id: NodeId) -> (r: Result<IceStep<S, V>, String>)
        ensures
            ({
                let k = subnet_node_index(self.nodes@, node_id);
                if k >= self.nodes@.len() {
                    r matches Err(e) && e@ == node_missing_message(node_id)
                } else {
                    match step_error(self.nodes@[k]) {
                        Some(m) => r matches Err(e) && e@ == m,
                        None => r matches Ok(step) && is_step_for(self.nodes@[k], step),
                    }
                }
            }),
    {
        let k = find_subnet_node(&self.nodes, node_id);
        if k >= self.nodes.len() {
            return Err(wrap_decimal("Node NodeId(", node_id.0, ") not found"));
        }
        let node = &self.nodes[k];
        match &node.node_type {
            SubnetNodeType::SubInput => Ok(IceStep::Nothing),
            SubnetNodeType::SubOutput => Ok(IceStep::Nothing),
            SubnetNodeType::AddVec3 => {
                let (a, b) = input_attribute_names(node, 0, 1)?;
                Ok(IceStep::Add { a, b })
            },
            SubnetNodeType::SubtractVec3 => {
                let (a, b) = input_attribute_names(node, 0, 1)?;
                Ok(IceStep::Subtract { a, b })
            },
            SubnetNodeType::MultiplyVec3 { scalar } => {
                let input = input_attribute_name(node, 0)?;
                Ok(IceStep::Multiply { input, scalar: *scalar })
            },
            SubnetNodeType::Normalize => {
                let input = input_attribute_name(node, 0)?;
                Ok(IceStep::Normalize { input })
            },
            SubnetNodeType::CrossProduct => {
                let (a, b) = input_attribute_names(node, 0, 1)?;
                Ok(IceStep::Cross { a, b })
            },
            SubnetNodeType::DotProduct => Err(String::from_str("DotProduct not yet implemented in new system")),
            SubnetNodeType::LerpVec3 { t } => {
                let (a, b) = input_attribute_names(node, 0, 1)?;
                Ok(IceStep::Lerp { a, b, t: *t })
            },
            SubnetNodeType::ConstVec3 { value } => Ok(IceStep::FillVec3 { value: *value }),
            SubnetNodeType::ConstFloat { value } => Ok(IceStep::FillFloat { value: *value }),
            SubnetNodeType::ConstInt { value } => Ok(IceStep::FillInt { value: *value }),
            SubnetNodeType::ScatterPoints { count, seed } => Ok(IceStep::Scatter { count: *count, seed: *seed }),
            SubnetNodeType::GetTemplate => Ok(IceStep::Nothing),
            SubnetNodeType::GetAttribute { target } => Ok(IceStep::RequireAttribute { name: target_string(target) }),
            SubnetNodeType::CopyToPoints => Ok(IceStep::CopyToPoints),
        }
    }
}

impl<S, V, P> SubnetGraph<S, V, P> {
    /// The order in which the nodes feeding `target` run: each node once,
    /// after the nodes that feed it (the `SubInput` node never runs; its
    /// data is already there), `target` last.
    pub fn get_execution_order(&self, target: NodeId) -> (order: Vec<NodeId>)
        ensures
            is_execution_order(self.nodes@, target, order@),
            order@ == depth_first(self.nodes@, target, seq![], seq![]).1,
    {
        let mut order: Vec<NodeId> = Vec::new();
        let mut visited: Vec<NodeId> = Vec::new();
        assert(visited@ =~= seq![] && order@ =~= seq![]);
        let ghost rank = choose|rank: spec_fn(NodeId) -> nat| ranked(feeds_rel(self.nodes@), rank);
        self.visit_node(target, &mut visited, &mut order, Ghost(rank));
        proof {
            lemma_post_order(feeds_rel(self.nodes@), rank, target, visited@, order@);
        }
        order
    }

    /// The nodes to run when the subnet is evaluated: `None` when there is
    /// no `SubInput` or no `SubOutput` node or nothing is connected to the
    /// output (the input mesh then passes through unchanged); otherwise the
    /// execution order of the node feeding the first `SubOutput`.
    pub fn evaluation_order(&self) -> (r: Option<Vec<NodeId>>)
        requires
            output_has_input(self.nodes@),
        ensures
            match output_source(self.nodes@) {
                None => r is None,
                Some(src) => r matches Some(order) && is_execution_order(self.nodes@, src, order@) && order@
                    == depth_first(self.nodes@, src, seq![], seq![]).1,
            },
    {
        let i = find_io(&self.nodes, false);
        if i >= self.nodes.len() {
            return None;
        }
        let o = find_io(&self.nodes, true);
        if o >= self.nodes.len() {
            return None;
        }
        match self.nodes[o].inputs[0].connected_output {
            Some(c) => Some(self.get_execution_order(c.0)),
            None => None,
        }
    }
}

// ── The store of subnets ────────────────────────────────────────────────────

/// Every subnet graph, each under its own id.
pub struct SubnetStore<S, V, P> {
    pub subnets: Vec<SubnetGraph<S, V, P>>,
    pub next_id: usize,
}

/// Index of the first graph with id `id`, or the number of graphs.
pub open spec fn store_index<S, V, P>(graphs: Seq<SubnetGraph<S, V, P>>, id: SubnetId) -> int
    decreases graphs.len(),
{
    if graphs.len() == 0 {
        0
    } else if store_index(graphs.drop_last(), id) < graphs.len() - 1 {
        store_index(graphs.drop_last(), id)
    } else if graphs.last().id == id {
        graphs.len() - 1
    } else {
        graphs.len() as int
    }
}

pub proof fn lemma_store_index<S, V, P>(graphs: Seq<SubnetGraph<S, V, P>>, id: SubnetId)
    ensures
        0 <= store_index(graphs, id) <= graphs.len(),
        store_index(graphs, id) < graphs.len() ==> graphs[store_index(graphs, id)].id == id,
        forall|j: int| 0 <= j < store_index(graphs, id) ==> #[trigger] graphs[j].id != id,
    decreases graphs.len(),
{
    if graphs.len() > 0 {
        lemma_store_index(graphs.drop_last(), id);
        assert forall|j: int| 0 <= j < store_index(graphs, id) implies #[trigger] graphs[j].id != id by {
            if j < graphs.len() - 1 {
                assert(graphs[j] == graphs.drop_last()[j]);
            }
        }
    }
}

fn find_subnet<S, V, P>(graphs: &Vec<SubnetGraph<S, V, P>>, id: SubnetId) -> (k: usize)
    ensures
        k == store_index(graphs@, id),
{
    proof {
        lemma_store_index(graphs@, id);
    }
    let mut k: usize = 0;
    while k < graphs.len()
        invariant
            k <= graphs.len(),
            forall|j: int| 0 <= j < k ==> #[trigger] graphs@[j].id != id,
            store_index(graphs@, id) >= k,
        decreases graphs.len() - k,
    {
        proof {
            lemma_store_index(graphs@, id);
        }
        if graphs[k].id == id {
            return k;
        }
        k = k + 1;
    }
    proof {
        lemma_store_index(graphs@, id);
    }
    k
}

impl<S, V, P> SubnetStore<S, V, P> {
    /// Ids are distinct and below `next_id`.
    pub open spec fn wf(&self) -> bool {
        &&& forall|i: int| 0 <= i < self.subnets@.len() ==> (#[trigger] self.subnets@[i]).id.0 < self.next_id
        &&& forall|i: int, j: int|
            0 <= i < j < self.subnets@.len() ==> (#[trigger] self.subnets@[i]).id != (#[trigger] self.subnets@[j]).id
    }

    /// The graph stored under `id`, if any.
    pub open spec fn lookup(&self, id: SubnetId) -> Option<SubnetGraph<S, V, P>> {
        let k = store_index(self.subnets@, id);
        if k < self.subnets@.len() {
            Some(self.subnets@[k])
        } else {
            None
        }
    }

    /// An empty store.
    pub fn new() -> (s: Self)
        ensures
            s.subnets@.len() == 0,
            s.next_id == 0,
            s.wf(),
    {
        SubnetStore { subnets: Vec::new(), next_id: 0 }
    }

    /// Adds a new subnet graph named `name` (see `SubnetGraph::new`) under
    /// the next unused id, and returns that id.
    pub fn create_subnet(&mut self, name: String, input_pos: P, output_pos: P) -> (id: SubnetId)
        requires
            old(self).next_id < usize::MAX,
        ensures
            id == SubnetId(old(self).next_id),
            final(self).next_id == old(self).next_id + 1,
            final(self).subnets@.drop_last() == old(self).subnets@,
            final(self).subnets@.len() == old(self).subnets@.len() + 1,
            final(self).subnets@.last().id == id,
            final(self).subnets@.last().name == name,
            final(self).subnets@.last().nodes@.len() == 2,
            final(self).subnets@.last().nodes@[0].node_type is SubInput,
            final(self).subnets@.last().nodes@[1].node_type is SubOutput,
            final(self).subnets@.last().wf(),
            old(self).wf() ==> final(self).wf(),
            old(self).wf() ==> final(self).lookup(id) == Some(final(self).subnets@.last()),
            old(self).wf() ==> forall|other: SubnetId| other != id ==> #[trigger] final(self).lookup(other) == old(self).lookup(other),
    {
        let id = SubnetId(self.next_id);
        self.next_id = self.next_id + 1;
        let g = SubnetGraph::new(id, name, input_pos, output_pos);
        let ghost s0 = self.subnets@;
        self.subnets.push(g);
        proof {
            assert(self.subnets@.drop_last() =~= s0);
            lemma_store_index(self.subnets@, id);
            lemma_store_index(s0, id);
            if old(self).wf() {
                assert forall|other: SubnetId| other != id implies #[trigger] self.lookup(other) == old(self).lookup(other) by {
                    lemma_store_index(self.subnets@, other);
                    lemma_store_index(s0, other);
                    assert(store_index(self.subnets@.drop_last(), other) == store_index(s0, other));
                }
                if store_index(self.subnets@, id) < s0.len() {
                    assert(s0[store_index(self.subnets@, id)].id == id);
                }
            }
        }
        id
    }

    /// The graph stored under `id`.
    pub fn get(&self, id: SubnetId) -> (r: Option<&SubnetGraph<S, V, P>>)
        ensures
            match self.lookup(id) {
                Some(g) => r matches Some(h) && *h == g,
                None => r is None,
            },
    {
        let k = find_subnet(&self.subnets, id);
        if k < self.subnets.len() {
            Some(&self.subnets[k])
        } else {
            None
        }
    }

    /// The graph stored under `id`, to change in place.
    pub fn get_mut(&mut self, id: SubnetId) -> (r: Option<&mut SubnetGraph<S, V, P>>)
        ensures
            ({
                let k = store_index(old(self).subnets@, id);
                if k < old(self).subnets@.len() {
                    r matches Some(h) && *h == old(self).subnets@[k] && final(self).subnets@ == old(self).subnets@.update(k, *final(h))
                        && final(self).next_id == old(self).next_id
                } else {
                    r is None && *final(self) == *old(self)
                }
            }),
    {
        let k = find_subnet(&self.subnets, id);
        if k < self.subnets.len() {
            Some(&mut self.subnets[k])
        } else {
            None
        }
    }
}

// ── Subnets of operator nodes and navigation ────────────────────────────────

/// The node is a `Subnet` operator that has no subnet yet (its id is the
/// placeholder `SubnetId(usize::MAX)` that a new `Subnet` node carries).
pub open spec fn awaits_subnet<S, V, P>(n: GraphNode<S, V, P>) -> bool {
    n.node_type matches NodeType::Subnet { id, .. } && id == SubnetId(usize::MAX)
}

/// How many of the first `k` nodes await a subnet.
pub open spec fn awaiting_count<S, V, P>(nodes: Seq<GraphNode<S, V, P>>, k: int) -> nat
    decreases k,
{
    if k <= 0 {
        0
    } else {
        awaiting_count(nodes, k - 1) + if awaits_subnet(nodes[k - 1]) {
            1nat
        } else {
            0nat
        }
    }
}

pub proof fn lemma_awaiting_count_mono<S, V, P>(nodes: Seq<GraphNode<S, V, P>>, k: int, m: int)
    requires
        k <= m,
    ensures
        awaiting_count(nodes, k) <= awaiting_count(nodes, m),
    decreases m - k,
{
    if k < m {
        lemma_awaiting_count_mono(nodes, k, m - 1);
    }
}

/// The name of a `Subnet` operator.
pub open spec fn subnet_op_name<S, V>(t: NodeType<S, V>) -> Seq<char> {
    match t {
        NodeType::Subnet { name, .. } => name@,
        _ => seq![],
    }
}

/// Node `n`, a `Subnet` operator, with its subnet id set to `id`.
pub open spec fn with_subnet<S, V, P>(n: GraphNode<S, V, P>, id: SubnetId) -> GraphNode<S, V, P> {
    match n.node_type {
        NodeType::Subnet { name, .. } => GraphNode { node_type: NodeType::Subnet { id, name }, ..n },
        _ => n,
    }
}

/// Gives every `Subnet` operator that has no subnet yet a new subnet of the
/// same name, in node order, under the store's next ids.
pub fn assign_new_subnets<S, V, P, Q: Copy>(
    graph: &mut NodeGraphState<S, V, P>,
    store: &mut SubnetStore<S, V, Q>,
    input_pos: Q,
    output_pos: Q,
)
    requires
        old(store).next_id + awaiting_count(old(graph).nodes@, old(graph).nodes@.len() as int) <= usize::MAX,
    ensures
        final(graph).nodes@.len() == old(graph).nodes@.len(),
        forall|k: int|
            0 <= k < old(graph).nodes@.len() ==> #[trigger] final(graph).nodes@[k] == if awaits_subnet(
                old(graph).nodes@[k],
            ) {
                with_subnet(
                    old(graph).nodes@[k],
                    SubnetId((old(store).next_id + awaiting_count(old(graph).nodes@, k)) as usize),
                )
            } else {
                old(graph).nodes@[k]
            },
        *final(graph) == (NodeGraphState { nodes: final(graph).nodes, ..*old(graph) }),
        final(store).next_id == old(store).next_id + awaiting_count(
            old(graph).nodes@,
            old(graph).nodes@.len() as int,
        ),
        final(store).subnets@.len() == old(store).subnets@.len() + awaiting_count(
            old(graph).nodes@,
            old(graph).nodes@.len() as int,
        ),
        final(store).subnets@.take(old(store).subnets@.len() as int) == old(store).subnets@,
        forall|k: int|
            0 <= k < old(graph).nodes@.len() && awaits_subnet(#[trigger] old(graph).nodes@[k]) ==> {
                let g = final(store).subnets@[(old(store).subnets@.len() + awaiting_count(old(graph).nodes@, k)) as int];
                &&& g.id == SubnetId((old(store).next_id + awaiting_count(old(graph).nodes@, k)) as usize)
                &&& g.name@ == subnet_op_name(old(graph).nodes@[k].node_type)
                &&& g.nodes@.len() == 2
                &&& g.nodes@[0].node_type is SubInput
                &&& g.nodes@[1].node_type is SubOutput
                &&& g.wf()
            },
        old(store).wf() ==> final(store).wf(),
        forall|k: int| 0 <= k < final(graph).nodes@.len() ==> !awaits_subnet(#[trigger] final(graph).nodes@[k]),
        old(store).wf() ==> forall|k: int|
            0 <= k < old(graph).nodes@.len() && awaits_subnet(#[trigger] old(graph).nodes@[k]) ==> final(store).lookup(
                SubnetId((old(store).next_id + awaiting_count(old(graph).nodes@, k)) as usize),
            ) == Some(final(store).subnets@[(old(store).subnets@.len() + awaiting_count(old(graph).nodes@, k)) as int]),
{
    let ghost n0 = graph.nodes@;
    let ghost s0 = store.subnets@;
    let ghost next0 = store.next_id;
    let ghost total = awaiting_count(n0, n0.len() as int);
    let mut k: usize = 0;
    assert(store.subnets@.take(s0.len() as int) =~= s0);
    while k < graph.nodes.len()
        invariant
            k <= n0.len(),
            graph.nodes@.len() == n0.len(),
            n0 == old(graph).nodes@,
            s0 == old(store).subnets@,
            next0 == old(store).next_id,
            total == awaiting_count(n0, n0.len() as int),
            next0 + total <= usize::MAX,
            *graph == (NodeGraphState { nodes: graph.nodes, ..*old(graph) }),
            forall|j: int|
                0 <= j < k ==> #[trigger] graph.nodes@[j] == if awaits_subnet(n0[j]) {
                    with_subnet(n0[j], SubnetId((next0 + awaiting_count(n0, j)) as usize))
                } else {
                    n0[j]
                },
            forall|j: int| k <= j < n0.len() ==> #[trigger] graph.nodes@[j] == n0[j],
            store.next_id == next0 + awaiting_count(n0, k as int),
            store.subnets@.len() == s0.len() + awaiting_count(n0, k as int),
            store.subnets@.take(s0.len() as int) == s0,
            forall|j: int|
                0 <= j < k && awaits_subnet(#[trigger] n0[j]) ==> {
                    let g = store.subnets@[(s0.len() + awaiting_count(n0, j)) as int];
                    &&& g.id == SubnetId((next0 + awaiting_count(n0, j)) as usize)
                    &&& g.name@ == subnet_op_name(n0[j].node_type)
                    &&& g.nodes@.len() == 2
                    &&& g.nodes@[0].node_type is SubInput
                    &&& g.nodes@[1].node_type is SubOutput
                    &&& g.wf()
                },
            old(store).wf() ==> store.wf(),
            old(store).wf() ==> forall|j: int|
                0 <= j < k && awaits_subnet(#[trigger] n0[j]) ==> store.lookup(
                    SubnetId((next0 + awaiting_count(n0, j)) as usize),
                ) == Some(store.subnets@[(s0.len() + awaiting_count(n0, j)) as int]),
        decreases n0.len() - k,
    {
        proof {
            lemma_awaiting_count_mono(n0, k + 1, n0.len() as int);
        }
        let name_opt = match &graph.nodes[k].node_type {
            NodeType::Subnet { id, name } => {
                if id.0 == usize::MAX {
                    Some(name.clone())
                } else {
                    None
                }
            },
            _ => None,
        };
        match name_opt {
            Some(name) => {
                let ghost before = store.subnets@;
                let ghost st_before = *store;
                let sid = store.create_subnet(name.clone(), input_pos, output_pos);
                let ghost nb = graph.nodes@;
                graph.nodes[k].node_type = NodeType::Subnet { id: sid, name };
                proof {
                    assert(awaits_subnet(n0[k as int]));
                    assert(graph.nodes@[k as int] == with_subnet(n0[k as int], sid));
                    assert forall|j: int| 0 <= j < n0.len() && j != k implies #[trigger] graph.nodes@[j] == nb[j] by {}
                    assert(store.subnets@.take(s0.len() as int) =~= before.take(s0.len() as int));
                    assert forall|j: int| 0 <= j < k + 1 && awaits_subnet(#[trigger] n0[j]) implies {
                        let g = store.subnets@[(s0.len() + awaiting_count(n0, j)) as int];
                        &&& g.id == SubnetId((next0 + awaiting_count(n0, j)) as usize)
                        &&& g.name@ == subnet_op_name(n0[j].node_type)
                        &&& g.nodes@.len() == 2
                        &&& g.nodes@[0].node_type is SubInput
                        &&& g.nodes@[1].node_type is SubOutput
                        &&& g.wf()
                    } by {
                        if j < k {
                            lemma_awaiting_count_mono(n0, j + 1, k as int);
                            assert(store.subnets@[(s0.len() + awaiting_count(n0, j)) as int] == before[(s0.len() + awaiting_count(n0, j)) as int]);
                        }
                    }
                    if old(store).wf() {
                        assert forall|j: int| 0 <= j < k + 1 && awaits_subnet(#[trigger] n0[j]) implies store.lookup(
                            SubnetId((next0 + awaiting_count(n0, j)) as usize),
                        ) == Some(store.subnets@[(s0.len() + awaiting_count(n0, j)) as int]) by {
                            if j < k {
                                lemma_awaiting_count_mono(n0, j + 1, k as int);
                                assert(SubnetId((next0 + awaiting_count(n0, j)) as usize) != sid);
                                assert(store.lookup(SubnetId((next0 + awaiting_count(n0, j)) as usize)) == st_before.lookup(
                                    SubnetId((next0 + awaiting_count(n0, j)) as usize),
                                ));
                                assert(store.subnets@[(s0.len() + awaiting_count(n0, j)) as int] == before[(s0.len() + awaiting_count(n0, j)) as int]);
                            }
                        }
                    }
                }
            },
            None => {
                proof {
                    assert(!awaits_subnet(n0[k as int]));
                }
            },
        }
        k = k + 1;
    }
    proof {
        assert forall|q: int| 0 <= q < graph.nodes@.len() implies !awaits_subnet(#[trigger] graph.nodes@[q]) by {
            if awaits_subnet(n0[q]) {
                lemma_awaiting_count_mono(n0, q + 1, n0.len() as int);
            }
        }
    }
}

/// Which graph the node-graph panel shows: a subnet, or (`None`) the
/// operator graph.
pub struct GraphNavigation {
    pub current_subnet: Option<SubnetId>,
}

impl GraphNavigation {
    /// Showing the operator graph.
    pub fn new() -> (n: Self)
        ensures
            n.current_subnet is None,
    {
        GraphNavigation { current_subnet: None }
    }

    /// Back to the operator graph (the breadcrumb, or a subnet that no
    /// longer exists).
    pub fn leave(&mut self)
        ensures
            final(self).current_subnet is None,
    {
        self.current_subnet = None;
    }

    /// Dives into the subnet a node asked for, unless that node has no
    /// subnet yet.
    pub fn dive(&mut self, target: Option<SubnetId>)
        ensures
            final(self).current_subnet == match target {
                Some(sid) => if sid != SubnetId(usize::MAX) {
                    Some(sid)
                } else {
                    old(self).current_subnet
                },
                None => old(self).current_subnet,
            },
            old(self).current_subnet != Some(SubnetId(usize::MAX)) ==> final(self).current_subnet != Some(
                SubnetId(usize::MAX),
            ),
    {
        match target {
            Some(sid) => {
                if sid.0 != usize::MAX {
                    self.current_subnet = Some(sid);
                }
            },
            None => {},
        }
    }
}

// ── Laws of editing ─────────────────────────────────────────────────────────

/// What every edit on the subnet canvas keeps, from `a` to `b`: every node
/// of `a` stays in place with its id and kind (so the `SubInput` and
/// `SubOutput` nodes are never removed), nodes are added only at the end,
/// no more of them than ids handed out, each with an id handed out since;
/// every new connection joins two different nodes; at most one connection
/// per input stays so; validity is kept.
pub open spec fn subnet_step<S, V, P>(a: SubnetGraph<S, V, P>, b: SubnetGraph<S, V, P>) -> bool {
    &&& a.next_node_id <= b.next_node_id
    &&& a.nodes@.len() <= b.nodes@.len()
    &&& b.nodes@.len() - a.nodes@.len() <= b.next_node_id - a.next_node_id
    &&& subnet_node_kinds(b.nodes@.take(a.nodes@.len() as int)) == subnet_node_kinds(a.nodes@)
    &&& forall|i: int|
        a.nodes@.len() <= i < b.nodes@.len() ==> a.next_node_id <= (#[trigger] b.nodes@[i]).id.0 < b.next_node_id
    &&& forall|j: int|
        0 <= j < b.connections@.len() ==> a.connections@.contains(#[trigger] b.connections@[j])
            || b.connections@[j].from_node != b.connections@[j].to_node
    &&& one_wire_per_input(a.connections@) ==> one_wire_per_input(b.connections@)
    &&& a.wf() ==> b.wf()
}

/// Edits on the subnet canvas compose: whatever sequence of them a frame
/// makes keeps every node with its id and kind, adds nodes only under ids
/// handed out meanwhile, adds no connection from a node to itself and keeps
/// at most one connection per input.
pub proof fn lemma_subnet_steps_compose<S, V, P>(a: SubnetGraph<S, V, P>, b: SubnetGraph<S, V, P>, c: SubnetGraph<S, V, P>)
    requires
        subnet_step(a, b),
        subnet_step(b, c),
    ensures
        subnet_step(a, c),
{
    let la = a.nodes@.len() as int;
    let lb = b.nodes@.len() as int;
    let kb = subnet_node_kinds(c.nodes@.take(lb));
    assert(subnet_node_kinds(c.nodes@.take(la)) =~= kb.take(la));
    assert(subnet_node_kinds(b.nodes@.take(la)) =~= subnet_node_kinds(b.nodes@).take(la));
    assert forall|i: int| la <= i < c.nodes@.len() implies a.next_node_id <= (#[trigger] c.nodes@[i]).id.0
        < c.next_node_id by {
        if i < lb {
            assert(kb[i] == subnet_node_kinds(b.nodes@)[i]);
            assert(kb[i] == (c.nodes@[i].id, c.nodes@[i].node_type));
            assert(b.nodes@[i].id == c.nodes@[i].id);
        }
    }
    assert forall|j: int| 0 <= j < c.connections@.len() implies a.connections@.contains(#[trigger] c.connections@[j])
        || c.connections@[j].from_node != c.connections@[j].to_node by {
        if b.connections@.contains(c.connections@[j]) {
            let w = choose|w: int| 0 <= w < b.connections@.len() && b.connections@[w] == c.connections@[j];
            assert(a.connections@.contains(b.connections@[w]) || b.connections@[w].from_node != b.connections@[w].to_node);
        }
    }
}

proof fn lemma_subnet_same_nodes<S, V, P>(a: SubnetGraph<S, V, P>, b: SubnetGraph<S, V, P>)
    requires
        subnet_node_kinds(b.nodes@) == subnet_node_kinds(a.nodes@),
        b.next_node_id == a.next_node_id,
        forall|j: int|
            0 <= j < b.connections@.len() ==> a.connections@.contains(#[trigger] b.connections@[j])
                || b.connections@[j].from_node != b.connections@[j].to_node,
        one_wire_per_input(a.connections@) ==> one_wire_per_input(b.connections@),
    ensures
        subnet_step(a, b),
{
    assert(subnet_node_kinds(b.nodes@).len() == b.nodes@.len());
    assert(subnet_node_kinds(a.nodes@).len() == a.nodes@.len());
    assert(b.nodes@.take(a.nodes@.len() as int) =~= b.nodes@);
    if a.wf() {
        assert forall|i: int| 0 <= i < b.nodes@.len() implies (#[trigger] b.nodes@[i]).id.0 < b.next_node_id by {
            assert(subnet_node_kinds(b.nodes@)[i] == subnet_node_kinds(a.nodes@)[i]);
        }
        assert forall|i: int, j: int| 0 <= i < j < b.nodes@.len() implies (#[trigger] b.nodes@[i]).id != (
        #[trigger] b.nodes@[j]).id by {
            assert(subnet_node_kinds(b.nodes@)[i] == subnet_node_kinds(a.nodes@)[i]);
            assert(subnet_node_kinds(b.nodes@)[j] == subnet_node_kinds(a.nodes@)[j]);
        }
    }
}

proof fn lemma_subnet_untouched<S, V, P>(a: SubnetGraph<S, V, P>, b: SubnetGraph<S, V, P>)
    requires
        b.nodes == a.nodes,
        b.connections == a.connections,
        b.next_node_id == a.next_node_id,
    ensures
        subnet_step(a, b),
{
    assert forall|j: int| 0 <= j < b.connections@.len() implies a.connections@.contains(#[trigger] b.connections@[j]) by {
        assert(a.connections@[j] == b.connections@[j]);
    }
    lemma_subnet_same_nodes(a, b);
}

// ── Editing interactions ────────────────────────────────────────────────────

impl<S, V, P> SubnetGraph<S, V, P> {
    /// Pressing on output `out` of node `id` starts a wire from it (when a
    /// drag starts there, or when no wire is being drawn yet).
    pub fn press_output(&mut self, id: NodeId, out: usize, drag_started: bool)
        ensures
            *final(self) == (SubnetGraph {
                connecting_from: if drag_started || old(self).connecting_from is None {
                    Some((id, out))
                } else {
                    old(self).connecting_from
                },
                ..*old(self)
            }),
            subnet_step(*old(self), *final(self)),
    {
        if drag_started || self.connecting_from.is_none() {
            self.connecting_from = Some((id, out));
        }
        proof {
            lemma_subnet_untouched(*old(self), *self);
        }
    }

    /// Releasing over input `i` of node `to` ends the wire being drawn: it is
    /// connected unless it starts at the same node.
    pub fn release_on_input(&mut self, to: NodeId, i: usize)
        requires
            old(self).next_connection_id < usize::MAX,
        ensures
            final(self).connecting_from is None,
            match old(self).connecting_from {
                Some((f, fo)) => if f != to {
                    &&& final(self).connections@ == old(self).connections@.filter(keep_pred(Some((to, i)), None)).push(
                        Connection {
                            id: ConnectionId(old(self).next_connection_id),
                            from_node: f,
                            from_output: fo,
                            to_node: to,
                            to_input: i,
                        },
                    )
                    &&& final(self).next_connection_id == old(self).next_connection_id + 1
                    &&& subnet_set_input(old(self).nodes@, final(self).nodes@, to, i, Some((f, fo)))
                } else {
                    final(self).connections == old(self).connections && final(self).nodes == old(self).nodes
                        && final(self).next_connection_id == old(self).next_connection_id
                },
                None => final(self).connections == old(self).connections && final(self).nodes == old(self).nodes
                    && final(self).next_connection_id == old(self).next_connection_id,
            },
            final(self).next_node_id == old(self).next_node_id,
            final(self).id == old(self).id,
            final(self).name == old(self).name,
            final(self).selected_node == old(self).selected_node,
            final(self).dragging_node == old(self).dragging_node,
            old(self).wf() ==> final(self).wf(),
            subnet_node_kinds(final(self).nodes@) == subnet_node_kinds(old(self).nodes@),
            forall|j: int|
                0 <= j < final(self).connections@.len() ==> old(self).connections@.contains(
                    #[trigger] final(self).connections@[j],
                ) || (final(self).connections@[j].to_node == to && final(self).connections@[j].from_node != to),
            one_wire_per_input(old(self).connections@) ==> one_wire_per_input(final(self).connections@),
            subnet_step(*old(self), *final(self)),
    {
        match self.connecting_from {
            Some((f, fo)) => {
                if f != to {
                    let ghost c0 = self.connections@;
                    let ghost c = Connection {
                        id: ConnectionId(self.next_connection_id),
                        from_node: f,
                        from_output: fo,
                        to_node: to,
                        to_input: i,
                    };
                    self.add_connection(f, fo, to, i);
                    proof {
                        lemma_connect_adds_only(c0, c);
                        assert(self.connections@ == c0.filter(keep_pred(Some((c.to_node, c.to_input)), None)).push(c));
                        assert forall|j: int| 0 <= j < self.connections@.len() implies c0.contains(
                            #[trigger] self.connections@[j],
                        ) || (self.connections@[j].to_node == to && self.connections@[j].from_node != to) by {
                            if !c0.contains(self.connections@[j]) {
                                assert(self.connections@[j] == c);
                            }
                        }
                    }
                }
                self.connecting_from = None;
            },
            None => {},
        }
        proof {
            assert forall|j: int| 0 <= j < self.connections@.len() implies old(self).connections@.contains(
                #[trigger] self.connections@[j],
            ) || (self.connections@[j].to_node == to && self.connections@[j].from_node != to) by {
                if self.connections == old(self).connections {
                    assert(old(self).connections@[j] == self.connections@[j]);
                }
            }
        }
        proof {
            lemma_subnet_same_nodes(*old(self), *self);
        }
    }

    /// Escape, or a release over empty canvas, drops the wire being drawn.
    pub fn cancel_wire(&mut self)
        ensures
            *final(self) == (SubnetGraph { connecting_from: None, ..*old(self) }),
            subnet_step(*old(self), *final(self)),
    {
        self.connecting_from = None;
        proof {
            lemma_subnet_untouched(*old(self), *self);
        }
    }

    /// Clicking a node's title selects it.
    pub fn click_node(&mut self, id: NodeId)
        ensures
            *final(self) == (SubnetGraph { selected_node: Some(id), ..*old(self) }),
            subnet_step(*old(self), *final(self)),
    {
        self.selected_node = Some(id);
        proof {
            lemma_subnet_untouched(*old(self), *self);
        }
    }

    /// Starting to drag a node's title makes it the node being dragged,
    /// unless a wire is being drawn.
    pub fn start_node_drag(&mut self, id: NodeId)
        ensures
            *final(self) == (SubnetGraph {
                dragging_node: if old(self).connecting_from is None {
                    Some(id)
                } else {
                    old(self).dragging_node
                },
                ..*old(self)
            }),
            subnet_step(*old(self), *final(self)),
    {
        if self.connecting_from.is_none() {
            self.dragging_node = Some(id);
        }
        proof {
            lemma_subnet_untouched(*old(self), *self);
        }
    }

    /// Releasing a dragged node.
    pub fn stop_node_drag(&mut self)
        ensures
            *final(self) == (SubnetGraph { dragging_node: None, ..*old(self) }),
            subnet_step(*old(self), *final(self)),
    {
        self.dragging_node = None;
        proof {
            lemma_subnet_untouched(*old(self), *self);
        }
    }
}

} // verus!
