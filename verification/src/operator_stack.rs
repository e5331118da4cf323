//! The operator stack: the operator graph shown as an indented tree, from
//! the `Output` node down through the operators that feed it.

use vstd::prelude::*;
use crate::dfs::{lemma_unvisited_drop, lemma_unvisited_mono, subset_of, unvisited};
use crate::node_graph::{Connection, GraphNode, contains_id, find_node, node_index, first_output_index, lemma_first_output_index};
use crate::types::{NodeId, NodeType, node_type_icon, node_type_label, spec_node_type_icon, spec_node_type_label};

verus! {

/// A row of the operator stack.
#[derive(Clone, Debug)]
pub struct StackEntry {
    pub node_id: NodeId,
    pub name: String,
    pub type_label: &'static str,
    pub depth: usize,
    pub type_icon: &'static str,
    pub expanded: bool,
    pub has_children: bool,
}

/// The operator stack and its selection.
pub struct OperatorStack {
    pub entries: Vec<StackEntry>,
    pub selected_entry: Option<NodeId>,
}

/// What a row shows: operator, name, type label, depth, type icon, whether
/// it is expanded, whether it has children.
pub type StackRow = (NodeId, Seq<char>, Seq<char>, nat, Seq<char>, bool, bool);

/// The row an entry shows.
pub open spec fn stack_row(e: StackEntry) -> StackRow {
    (e.node_id, e.name@, e.type_label@, e.depth as nat, e.type_icon@, e.expanded, e.has_children)
}

/// The operators connected into `id`, one per connection, in connection
/// order.
pub open spec fn kids_of(conns: Seq<Connection>, id: NodeId) -> Seq<NodeId>
    decreases conns.len(),
{
    if conns.len() == 0 {
        seq![]
    } else {
        kids_of(conns.drop_last(), id) + if conns.last().to_node == id {
            seq![conns.last().from_node]
        } else {
            seq![]
        }
    }
}

/// Whether the last earlier row of `id` was expanded (true when there is
/// none).
pub open spec fn stack_expansion(entries: Seq<StackEntry>, id: NodeId) -> bool
    decreases entries.len(),
{
    if entries.len() == 0 {
        true
    } else if entries.last().node_id == id {
        entries.last().expanded
    } else {
        stack_expansion(entries.drop_last(), id)
    }
}

/// The stack entries for `kids` at `depth`, last kid first (so the first
/// kid is popped first).
pub open spec fn pushed(kids: Seq<NodeId>, depth: nat) -> Seq<(NodeId, nat)> {
    Seq::new(kids.len(), |i: int| (kids[kids.len() - 1 - i], depth))
}

/// The state of the traversal: pending (operator, depth) pairs with the
/// next one last, the operators visited, the rows so far.
pub type StackState = (Seq<(NodeId, nat)>, Seq<NodeId>, Seq<StackRow>);

/// One step of the traversal: take the pending pair on top; skip it if its
/// operator was visited; otherwise mark it visited and, if it is a node of
/// the graph, add its row and, when expanded, its kids one level deeper.
pub open spec fn stack_step<S, V, P>(
    nodes: Seq<GraphNode<S, V, P>>,
    conns: Seq<Connection>,
    prev: Seq<StackEntry>,
    st: StackState,
) -> StackState {
    let (stack, visited, rows) = st;
    if stack.len() == 0 {
        st
    } else {
        let (id, depth) = stack.last();
        let rest = stack.drop_last();
        if visited.contains(id) {
            (rest, visited, rows)
        } else {
            let k = node_index(nodes, id);
            if k >= nodes.len() {
                (rest, visited.push(id), rows)
            } else {
                let n = nodes[k];
                let kids = kids_of(conns, id);
                let exp = stack_expansion(prev, id);
                let row = (
                    id,
                    n.name@,
                    spec_node_type_label(n.node_type),
                    depth,
                    spec_node_type_icon(n.node_type),
                    exp,
                    kids.len() > 0,
                );
                (if exp { rest + pushed(kids, depth + 1) } else { rest }, visited.push(id), rows.push(row))
            }
        }
    }
}

/// The state after `n` steps.
pub open spec fn stack_run<S, V, P>(
    nodes: Seq<GraphNode<S, V, P>>,
    conns: Seq<Connection>,
    prev: Seq<StackEntry>,
    st: StackState,
    n: nat,
) -> StackState
    decreases n,
{
    if n == 0 {
        st
    } else {
        stack_run(nodes, conns, prev, stack_step(nodes, conns, prev, st), (n - 1) as nat)
    }
}

/// The rows of the operator stack: none without an `Output` node;
/// otherwise the rows the traversal from the first `Output` node (at depth
/// 0, nothing visited) has made once nothing is pending.
pub open spec fn stack_rows<S, V, P>(
    nodes: Seq<GraphNode<S, V, P>>,
    conns: Seq<Connection>,
    prev: Seq<StackEntry>,
    rows: Seq<StackRow>,
) -> bool {
    let o = first_output_index(nodes);
    if o >= nodes.len() {
        rows.len() == 0
    } else {
        exists|n: nat| {
            let fin = #[trigger] stack_run(nodes, conns, prev, (seq![(nodes[o].id, 0nat)], seq![], seq![]), n);
            fin.0.len() == 0 && fin.2 == rows
        }
    }
}

proof fn lemma_run_step<S, V, P>(
    nodes: Seq<GraphNode<S, V, P>>,
    conns: Seq<Connection>,
    prev: Seq<StackEntry>,
    st: StackState,
    n: nat,
)
    ensures
        stack_run(nodes, conns, prev, st, n + 1) == stack_step(nodes, conns, prev, stack_run(nodes, conns, prev, st, n)),
    decreases n,
{
    if n > 0 {
        let st1 = stack_step(nodes, conns, prev, st);
        lemma_run_step(nodes, conns, prev, st1, (n - 1) as nat);
        assert(stack_run(nodes, conns, prev, st, n) == stack_run(nodes, conns, prev, st1, (n - 1) as nat));
        assert(stack_run(nodes, conns, prev, st, n + 1) == stack_run(nodes, conns, prev, st1, n));
    } else {
        let st1 = stack_step(nodes, conns, prev, st);
        assert(stack_run(nodes, conns, prev, st, 1) == stack_run(nodes, conns, prev, st1, 0));
        assert(stack_run(nodes, conns, prev, st1, 0) == st1);
        assert(stack_run(nodes, conns, prev, st, 0) == st);
    }
}

/// The operators connected into `id`.
fn children(conns: &Vec<Connection>, id: NodeId) -> (v: Vec<NodeId>)
    ensures
        v@ == kids_of(conns@, id),
{
    let mut v: Vec<NodeId> = Vec::new();
    let mut i: usize = 0;
    assert(conns@.take(0) =~= seq![]);
    while i < conns.len()
        invariant
            i <= conns@.len(),
            v@ == kids_of(conns@.take(i as int), id),
        decreases conns@.len() - i,
    {
        let c = conns[i];
        assert(conns@.take(i + 1).drop_last() =~= conns@.take(i as int));
        if c.to_node == id {
            v.push(c.from_node);
        }
        i = i + 1;
        assert(v@ =~= kids_of(conns@.take(i as int), id));
    }
    assert(conns@.take(i as int) =~= conns@);
    v
}

fn expansion_of_id(entries: &Vec<StackEntry>, id: NodeId) -> (b: bool)
    ensures
        b == stack_expansion(entries@, id),
{
    let mut k: usize = entries.len();
    assert(entries@.take(entries@.len() as int) =~= entries@);
    while k > 0
        invariant
            k <= entries@.len(),
            stack_expansion(entries@, id) == stack_expansion(entries@.take(k as int), id),
        decreases k,
    {
        assert(entries@.take(k as int).drop_last() =~= entries@.take(k - 1));
        if entries[k - 1].node_id == id {
            return entries[k - 1].expanded;
        }
        k = k - 1;
    }
    true
}

/// The operators that can ever be pending: the root and every connection's
/// source.
pub open spec fn candidates(root: NodeId, conns: Seq<Connection>) -> Seq<NodeId> {
    seq![root] + conns.map_values(|c: Connection| c.from_node)
}

proof fn lemma_kids_are_candidates(conns: Seq<Connection>, id: NodeId, root: NodeId, k: NodeId)
    requires
        kids_of(conns, id).contains(k),
    ensures
        candidates(root, conns).contains(k),
    decreases conns.len(),
{
    let d = conns.drop_last();
    let w = choose|w: int| 0 <= w < kids_of(conns, id).len() && kids_of(conns, id)[w] == k;
    if w < kids_of(d, id).len() {
        assert(kids_of(d, id)[w] == k);
        lemma_kids_are_candidates(d, id, root, k);
        let z = choose|z: int| 0 <= z < candidates(root, d).len() && candidates(root, d)[z] == k;
        assert(candidates(root, conns)[z] == k);
    } else {
        assert(k == conns.last().from_node);
        assert(candidates(root, conns)[conns.len() as int] == k);
    }
}

proof fn lemma_unvisited_empty(ids: Seq<NodeId>)
    ensures
        unvisited(ids, seq![]) == ids.len(),
    decreases ids.len(),
{
    if ids.len() > 0 {
        lemma_unvisited_empty(ids.drop_last());
    }
}

fn is_output_node<S, V, P>(n: &GraphNode<S, V, P>) -> (b: bool)
    ensures
        b == (n.node_type is Output),
{
    match n.node_type {
        NodeType::Output => true,
        _ => false,
    }
}

impl OperatorStack {
    /// An empty stack with nothing selected.
    pub fn new() -> (s: Self)
        ensures
            s.entries@.len() == 0,
            s.selected_entry is None,
    {
        OperatorStack { entries: Vec::new(), selected_entry: None }
    }

    /// Rebuilds the rows from the graph: a depth-first walk from the first
    /// `Output` node down the connections into each operator, each operator
    /// once, below the first row that reaches it; an operator's children are
    /// shown only if its earlier row was expanded (or it had none).
    pub fn rebuild<S, V, P>(&mut self, nodes: &Vec<GraphNode<S, V, P>>, connections: &Vec<Connection>)
        requires
            connections@.len() + 2 < usize::MAX,
        ensures
            stack_rows(nodes@, connections@, old(self).entries@, final(self).entries@.map_values(|e: StackEntry| stack_row(e))),
            final(self).selected_entry == old(self).selected_entry,
            forall|i: int, j: int|
                0 <= i < j < final(self).entries@.len() ==> (#[trigger] final(self).entries@[i]).node_id
                    != (#[trigger] final(self).entries@[j]).node_id,
            first_output_index(nodes@) < nodes@.len() ==> final(self).entries@.len() > 0
                && final(self).entries@[0].node_id == nodes@[first_output_index(nodes@)].id
                && final(self).entries@[0].depth == 0,
    {
        let mut prev: Vec<StackEntry> = Vec::new();
        std::mem::swap(&mut prev, &mut self.entries);
        proof {
            lemma_first_output_index(nodes@);
        }
        let mut o: usize = 0;
        while o < nodes.len() && !is_output_node(&nodes[o])
            invariant
                o <= nodes@.len(),
                forall|j: int| 0 <= j < o ==> !(#[trigger] nodes@[j].node_type is Output),
                first_output_index(nodes@) >= o,
            decreases nodes@.len() - o,
        {
            proof {
                lemma_first_output_index(nodes@);
            }
            o = o + 1;
        }
        proof {
            lemma_first_output_index(nodes@);
        }
        if o >= nodes.len() {
            assert(self.entries@.map_values(|e: StackEntry| stack_row(e)) =~= seq![]);
            return;
        }
        let root = nodes[o].id;
        let ghost cands = candidates(root, connections@);
        let ghost st0: StackState = (seq![(root, 0nat)], seq![], seq![]);
        let mut stack: Vec<(NodeId, usize)> = Vec::new();
        stack.push((root, 0));
        let mut visited: Vec<NodeId> = Vec::new();
        let ghost mut steps: nat = 0;
        proof {
            lemma_unvisited_empty(cands);
            assert(cands[0] == root);
        }
        while stack.len() > 0
            invariant
                nodes@.len() > o,
                root == nodes@[o as int].id,
                o == first_output_index(nodes@),
                cands == candidates(root, connections@),
                connections@.len() + 2 < usize::MAX,
                st0 == (seq![(root, 0nat)], Seq::<NodeId>::empty(), Seq::<StackRow>::empty()),
                ({
                    let st = stack_run(nodes@, connections@, prev@, st0, steps);
                    &&& st.0 == stack@.map_values(|p: (NodeId, usize)| (p.0, p.1 as nat))
                    &&& st.1 == visited@
                    &&& st.2 == self.entries@.map_values(|e: StackEntry| stack_row(e))
                }),
                forall|i: int| 0 <= i < stack@.len() ==> cands.contains((#[trigger] stack@[i]).0),
                forall|i: int| 0 <= i < stack@.len() ==> (#[trigger] stack@[i]).1 <= visited@.len(),
                visited@.len() + unvisited(cands, visited@) <= cands.len(),
                self.selected_entry == old(self).selected_entry,
                forall|i: int, j: int|
                    0 <= i < j < self.entries@.len() ==> (#[trigger] self.entries@[i]).node_id
                        != (#[trigger] self.entries@[j]).node_id,
                forall|i: int| 0 <= i < self.entries@.len() ==> visited@.contains((#[trigger] self.entries@[i]).node_id),
                visited@.len() == 0 ==> stack@ == seq![(root, 0usize)],
                visited@.len() > 0 ==> self.entries@.len() > 0 && self.entries@[0].node_id == root
                    && self.entries@[0].depth == 0,
            decreases unvisited(cands, visited@), stack@.len(),
        {
            let ghost st = stack_run(nodes@, connections@, prev@, st0, steps);
            let ghost rows0 = self.entries@.map_values(|e: StackEntry| stack_row(e));
            let ghost s0 = stack@;
            let ghost v0 = visited@;
            let (id, depth) = stack.pop().unwrap();
            proof {
                lemma_run_step(nodes@, connections@, prev@, st0, steps);
                assert(st.0.last() == (id, depth as nat));
                assert(st.0.drop_last() == stack@.map_values(|p: (NodeId, usize)| (p.0, p.1 as nat)));
                steps = steps + 1;
            }
            if contains_id(&visited, id) {
                continue;
            }
            let ghost first = visited@.len() == 0;
            visited.push(id);
            proof {
                assert forall|i: int| 0 <= i < self.entries@.len() implies visited@.contains((#[trigger] self.entries@[i]).node_id) by {
                    assert(v0.contains(self.entries@[i].node_id));
                    let w = choose|w: int| 0 <= w < v0.len() && v0[w] == self.entries@[i].node_id;
                    assert(visited@[w] == v0[w]);
                }
                if first {
                    assert(s0 == seq![(root, 0usize)]);
                    assert(id == root && depth == 0);
                }
            }
            proof {
                assert(cands.contains(s0[s0.len() - 1].0));
                assert(subset_of(v0, visited@)) by {
                    assert forall|y: NodeId| #[trigger] v0.contains(y) implies visited@.contains(y) by {
                        let w = choose|w: int| 0 <= w < v0.len() && v0[w] == y;
                        assert(visited@[w] == y);
                    }
                }
                let w = choose|w: int| 0 <= w < cands.len() && cands[w] == id;
                assert(visited@.contains(cands[w])) by {
                    assert(visited@[visited@.len() - 1] == id);
                }
                lemma_unvisited_drop(cands, v0, visited@, w);
            }
            let k = find_node(nodes, id);
            if k >= nodes.len() {
                proof {
                    if first {
                        assert(nodes@[o as int].id == id);
                    }
                }
                continue;
            }
            let kids = children(connections, id);
            let exp = expansion_of_id(&prev, id);
            let node = &nodes[k];
            let name = crate::text::string_from_chars(&crate::text::chars_of(node.name.as_str()));
            let ghost e0 = self.entries@;
            self.entries.push(StackEntry {
                node_id: id,
                name,
                type_label: node_type_label(&node.node_type),
                depth,
                type_icon: node_type_icon(&node.node_type),
                expanded: exp,
                has_children: kids.len() > 0,
            });
            proof {
                assert(self.entries@.map_values(|e: StackEntry| stack_row(e)) =~= rows0.push(stack_row(self.entries@.last())));
                assert forall|i: int, j: int|
                    0 <= i < j < self.entries@.len() implies (#[trigger] self.entries@[i]).node_id
                        != (#[trigger] self.entries@[j]).node_id by {
                    if j == self.entries@.len() - 1 {
                        assert(self.entries@[i] == e0[i]);
                        assert(v0.contains(e0[i].node_id));
                    } else {
                        assert(self.entries@[i] == e0[i]);
                        assert(self.entries@[j] == e0[j]);
                    }
                }
                assert forall|i: int| 0 <= i < self.entries@.len() implies visited@.contains((#[trigger] self.entries@[i]).node_id) by {
                    if i == self.entries@.len() - 1 {
                        assert(visited@[visited@.len() - 1] == id);
                    } else {
                        assert(self.entries@[i] == e0[i]);
                    }
                }
                if first {
                    if e0.len() > 0 {
                        assert(v0.contains(e0[0].node_id));
                    }
                    assert(e0.len() == 0);
                }
                assert(self.entries@[0].node_id == root && self.entries@[0].depth == 0);
            }
            if exp {
                let ghost sb = stack@;
                assert(visited@.len() <= cands.len());
                let d1 = depth + 1;
                let mut j: usize = kids.len();
                while j > 0
                    invariant
                        j <= kids@.len(),
                        d1 == depth + 1,
                        stack@ == sb + Seq::new((kids@.len() - j) as nat, |i: int| (kids@[kids@.len() - 1 - i], (depth + 1) as usize)),
                    decreases j,
                {
                    j = j - 1;
                    stack.push((kids[j], d1));
                    assert(stack@ =~= sb + Seq::new((kids@.len() - j) as nat, |i: int| (kids@[kids@.len() - 1 - i], (depth + 1) as usize)));
                }
                proof {
                    assert(stack@.map_values(|p: (NodeId, usize)| (p.0, p.1 as nat)) =~= sb.map_values(
                        |p: (NodeId, usize)| (p.0, p.1 as nat),
                    ) + pushed(kids@, (depth + 1) as nat));
                    assert forall|i: int| 0 <= i < stack@.len() implies cands.contains((#[trigger] stack@[i]).0) by {
                        if i >= sb.len() {
                            let q = i - sb.len();
                            assert(stack@[i].0 == kids@[kids@.len() - 1 - q]);
                            lemma_kids_are_candidates(connections@, id, root, kids@[kids@.len() - 1 - q]);
                        } else {
                            assert(stack@[i] == sb[i]);
                            assert(sb[i] == s0[i]);
                        }
                    }
                    assert forall|i: int| 0 <= i < stack@.len() implies (#[trigger] stack@[i]).1 <= visited@.len() by {
                        if i < sb.len() {
                            assert(sb[i] == s0[i]);
                        }
                    }
                }
            } else {
                proof {
                    assert forall|i: int| 0 <= i < stack@.len() implies cands.contains((#[trigger] stack@[i]).0) by {
                        assert(stack@[i] == s0[i]);
                    }
                    assert forall|i: int| 0 <= i < stack@.len() implies (#[trigger] stack@[i]).1 <= visited@.len() by {
                        assert(stack@[i] == s0[i]);
                    }
                }
            }
        }
        proof {
            let fin = stack_run(nodes@, connections@, prev@, st0, steps);
            assert(fin.0.len() == 0);
        }
    }

    /// Whether the row of `id` is highlighted: it is the selected entry, or,
    /// with no entry selected, the graph's selected node.
    pub fn is_selected(&self, id: NodeId, graph_selected: Option<NodeId>) -> (b: bool)
        ensures
            b == (self.selected_entry == Some(id) || (self.selected_entry is None && graph_selected == Some(id))),
    {
        match self.selected_entry {
            Some(s) => s == id,
            None => match graph_selected {
                Some(g) => g == id,
                None => false,
            },
        }
    }

    /// Clicking a row's triangle flips whether the first row of `id` is
    /// expanded (the stack is then rebuilt).
    pub fn toggle_entry(&mut self, id: NodeId)
        ensures
            final(self).entries@.len() == old(self).entries@.len(),
            forall|i: int|
                0 <= i < old(self).entries@.len() ==> {
                    let e = old(self).entries@[i];
                    let first = e.node_id == id && forall|j: int| 0 <= j < i ==> (#[trigger] old(self).entries@[j]).node_id != id;
                    #[trigger] final(self).entries@[i] == if first {
                        StackEntry { expanded: !e.expanded, ..e }
                    } else {
                        e
                    }
                },
            final(self).selected_entry == old(self).selected_entry,
    {
        let mut k: usize = 0;
        while k < self.entries.len()
            invariant
                k <= self.entries@.len(),
                self.entries == old(self).entries,
                self.selected_entry == old(self).selected_entry,
                forall|j: int| 0 <= j < k ==> (#[trigger] self.entries@[j]).node_id != id,
            decreases self.entries@.len() - k,
        {
            if self.entries[k].node_id == id {
                let e = !self.entries[k].expanded;
                self.entries[k].expanded = e;
                return;
            }
            k = k + 1;
        }
    }

    /// Clicking a row selects its operator.
    pub fn select_entry(&mut self, id: NodeId)
        ensures
            final(self).selected_entry == Some(id),
            final(self).entries == old(self).entries,
    {
        self.selected_entry = Some(id);
    }
}

} // verus!
