use crate::ast::{clause_cost, clauses_cost, Clause};
use crate::cost::clauses_cost_capped;
use crate::builder::{grows_unmarked, is_marker, lemma_extends_refl, GraphBuilder};
use crate::graph::{graph_add_edge, graph_add_node, graph_edge_at, graph_edge_count, graph_edges, graph_node_at, graph_node_count, graph_nodes, node_code, NodeType};
use crate::builder::Model;
use crate::visitor::{clause_edges, clause_step, lemma_extends_global_trans, role_tag};
use vstd::prelude::*;

verus! {

/// The flat arrays of a compiled batch, all indexing nodes from 0 in order of
/// creation.
pub struct CompiledBatch {
    /// The code of each node's tag.
    pub node_types: Vec<i64>,
    /// The source of each edge.
    pub edge_sources: Vec<i64>,
    /// The target of each edge.
    pub edge_targets: Vec<i64>,
    /// The Action marker of each action clause, in input order.
    pub action_indices: Vec<i64>,
}

/// How many nodes of `s` carry the tag `t`.
pub open spec fn count_tag(s: Seq<NodeType>, t: NodeType) -> nat
    decreases s.len(),
{
    if s.len() == 0 {
        0
    } else {
        count_tag(s.drop_last(), t) + if s.last() == t { 1nat } else { 0nat }
    }
}

/// How many entries of `s` equal `c`.
pub open spec fn count_code(s: Seq<i64>, c: i64) -> nat
    decreases s.len(),
{
    if s.len() == 0 {
        0
    } else {
        count_code(s.drop_last(), c) + if s.last() == c { 1nat } else { 0nat }
    }
}

/// One self-loop per node `0..n`, in node order.
pub open spec fn self_loops(n: nat) -> Seq<(u32, u32)> {
    Seq::new(n, |i: int| (i as u32, i as u32))
}

/// Compiles a batch as `compile_batch` does where its total cost is within
/// `MAX_BATCH_COST`, and returns `None` where it is not.
pub fn compile_checked(selected: &Vec<Clause>, actions: &Vec<Clause>) -> (r: Option<CompiledBatch>)
    ensures
        r is None <==> clauses_cost(selected@) + clauses_cost(actions@) > MAX_BATCH_COST,
        r matches Some(b) ==> batch_ok(selected@, actions@, b) && compiled_from(selected@, actions@, b),
{
    let a = clauses_cost_capped(selected);
    let b = clauses_cost_capped(actions);
    if a > MAX_BATCH_COST || b > MAX_BATCH_COST || a + b > MAX_BATCH_COST {
        None
    } else {
        Some(compile_batch(selected, actions))
    }
}

/// The largest total cost of a batch: room for every node, every edge and a
/// self-loop on each node within 32-bit indices.
pub const MAX_BATCH_COST: u64 = 2147483646;

pub proof fn lemma_count_unmarked(old: Seq<NodeType>, new: Seq<NodeType>, t: NodeType)
    requires
        grows_unmarked(old, new),
        is_marker(t),
    ensures
        count_tag(new, t) == count_tag(old, t),
    decreases new.len(),
{
    if new.len() > old.len() {
        let d = new.drop_last();
        assert(d.subrange(0, old.len() as int) =~= old);
        assert forall|i: int| old.len() <= i < d.len() implies !is_marker(#[trigger] d[i]) by {
            assert(d[i] == new[i]);
        }
        lemma_count_unmarked(old, d, t);
        assert(!is_marker(new[new.len() - 1]));
    } else {
        assert(new =~= old);
    }
}

pub proof fn lemma_count_codes(nodes: Seq<NodeType>, codes: Seq<i64>, t: NodeType)
    requires
        codes.len() == nodes.len(),
        forall|i: int| 0 <= i < nodes.len() ==> #[trigger] codes[i] == node_code(nodes[i]),
    ensures
        count_code(codes, node_code(t)) == count_tag(nodes, t),
    decreases nodes.len(),
{
    if nodes.len() > 0 {
        let n = nodes.len() - 1;
        assert forall|i: int| 0 <= i < n implies #[trigger] codes.drop_last()[i] == node_code(nodes.drop_last()[i]) by {
            assert(codes[i] == node_code(nodes[i]));
        }
        lemma_count_codes(nodes.drop_last(), codes.drop_last(), t);
        assert(codes[n] == node_code(nodes[n]));
        assert((node_code(nodes[n]) == node_code(t)) == (nodes[n] == t));
    }
}

proof fn lemma_clauses_cost_step(s: Seq<Clause>, i: int)
    requires
        0 <= i < s.len(),
    ensures
        clauses_cost(s.subrange(0, i + 1)) == clauses_cost(s.subrange(0, i)) + clause_cost(s[i]) + 1,
{
    assert(s.subrange(0, i + 1).drop_last() =~= s.subrange(0, i));
}

proof fn lemma_clauses_cost_prefix(s: Seq<Clause>, i: int)
    requires
        0 <= i <= s.len(),
    ensures
        clauses_cost(s.subrange(0, i)) <= clauses_cost(s),
    decreases s.len() - i,
{
    if i < s.len() {
        lemma_clauses_cost_step(s, i);
        lemma_clauses_cost_prefix(s, i + 1);
    } else {
        assert(s.subrange(0, i) =~= s);
    }
}

impl GraphBuilder {
    /// Adds a marker node of tag `tag` with one edge to the clause node `root`.
    pub fn add_marker(&mut self, tag: NodeType, root: u32) -> (r: u32)
        requires
            old(self).wf(),
            old(self).room(1),
            (root as int) < old(self).nodes().len(),
        ensures
            final(self).wf(),
            final(self).nodes() == old(self).nodes().push(tag),
            final(self).edges() == old(self).edges().push((r, root)),
            final(self).functors@ == old(self).functors@,
            final(self).variables@ == old(self).variables@,
            final(self).terms@ == old(self).terms@,
            r as int == old(self).nodes().len(),
            (final(self).model(), r) == marker_step(old(self).model(), tag, root),
    {
        let r = graph_add_node(&mut self.graph, tag);
        graph_add_edge(&mut self.graph, r, root);
        r
    }

    /// Adds an edge from every node to itself.
    pub fn add_self_loops(&mut self)
        requires
            old(self).wf(),
            old(self).edges().len() + old(self).nodes().len() <= u32::MAX,
        ensures
            final(self).wf(),
            final(self).nodes() == old(self).nodes(),
            final(self).edges() == old(self).edges() + self_loops(old(self).nodes().len()),
            final(self).functors@ == old(self).functors@,
            final(self).variables@ == old(self).variables@,
            final(self).terms@ == old(self).terms@,
    {
        let n = graph_node_count(&self.graph);
        let mut i: usize = 0;
        while i < n
            invariant
                n == old(self).nodes().len(),
                i <= n,
                self.wf(),
                self.nodes() == old(self).nodes(),
                self.edges() == old(self).edges() + self_loops(i as nat),
                self.functors@ == old(self).functors@,
                self.variables@ == old(self).variables@,
                self.terms@ == old(self).terms@,
                old(self).edges().len() + n <= u32::MAX,
            decreases n - i,
        {
            graph_add_edge(&mut self.graph, i as u32, i as u32);
            proof {
                assert(self.edges() =~= old(self).edges() + self_loops(i as nat + 1));
            }
            i += 1;
        }
    }

    /// Reads the graph out as node codes, edge sources and edge targets.
    pub fn flatten(&self) -> (r: (Vec<i64>, Vec<i64>, Vec<i64>))
        requires
            self.wf(),
        ensures
            r.0@.len() == self.nodes().len(),
            forall|i: int| 0 <= i < self.nodes().len() ==> #[trigger] r.0@[i] == node_code(self.nodes()[i]),
            r.1@.len() == self.edges().len(),
            r.2@.len() == self.edges().len(),
            forall|e: int| 0 <= e < self.edges().len() ==> #[trigger] r.1@[e] == self.edges()[e].0 as i64,
            forall|e: int| 0 <= e < self.edges().len() ==> #[trigger] r.2@[e] == self.edges()[e].1 as i64,
    {
        let mut nodes: Vec<i64> = Vec::new();
        let n = graph_node_count(&self.graph);
        let mut i: usize = 0;
        while i < n
            invariant
                n == self.nodes().len(),
                i <= n,
                nodes@.len() == i,
                forall|k: int| 0 <= k < i ==> #[trigger] nodes@[k] == node_code(self.nodes()[k]),
            decreases n - i,
        {
            nodes.push(graph_node_at(&self.graph, i).code());
            i += 1;
        }
        let mut sources: Vec<i64> = Vec::new();
        let mut targets: Vec<i64> = Vec::new();
        let m = graph_edge_count(&self.graph);
        let mut e: usize = 0;
        while e < m
            invariant
                m == self.edges().len(),
                e <= m,
                sources@.len() == e,
                targets@.len() == e,
                forall|k: int| 0 <= k < e ==> #[trigger] sources@[k] == self.edges()[k].0 as i64,
                forall|k: int| 0 <= k < e ==> #[trigger] targets@[k] == self.edges()[k].1 as i64,
            decreases m - e,
        {
            let st = graph_edge_at(&self.graph, e);
            sources.push(st.0 as i64);
            targets.push(st.1 as i64);
            proof {
                assert(sources@[e as int] == self.edges()[e as int].0 as i64);
                assert(targets@[e as int] == self.edges()[e as int].1 as i64);
            }
            e += 1;
        }
        (nodes, sources, targets)
    }

    /// Closes the graph with self-loops and reads it out.
    pub fn finish(self) -> (r: (Vec<i64>, Vec<i64>, Vec<i64>))
        requires
            self.wf(),
            self.edges().len() + self.nodes().len() <= u32::MAX,
        ensures
            r.0@.len() == self.nodes().len(),
            forall|i: int| 0 <= i < self.nodes().len() ==> #[trigger] r.0@[i] == node_code(self.nodes()[i]),
            r.1@.len() == self.edges().len() + self.nodes().len(),
            r.2@.len() == self.edges().len() + self.nodes().len(),
            forall|e: int| 0 <= e < self.edges().len() ==> #[trigger] r.1@[e] == self.edges()[e].0 as i64,
            forall|e: int| 0 <= e < self.edges().len() ==> #[trigger] r.2@[e] == self.edges()[e].1 as i64,
            forall|i: int| 0 <= i < self.nodes().len() ==> #[trigger] r.1@[self.edges().len() + i] == i,
            forall|i: int| 0 <= i < self.nodes().len() ==> #[trigger] r.2@[self.edges().len() + i] == i,
    {
        let ghost before = self;
        let mut b = self;
        b.add_self_loops();
        let r = b.flatten();
        proof {
            assert forall|i: int| 0 <= i < before.nodes().len() implies #[trigger] r.1@[before.edges().len() + i] == i by {
                let k = before.edges().len() + i;
                assert(b.edges()[k] == self_loops(before.nodes().len())[i]);
                assert(r.1@[k] == b.edges()[k].0 as i64);
                assert(r.2@[k] == b.edges()[k].1 as i64);
            }
            assert forall|i: int| 0 <= i < before.nodes().len() implies #[trigger] r.2@[before.edges().len() + i] == i by {
                let k = before.edges().len() + i;
                assert(b.edges()[k] == self_loops(before.nodes().len())[i]);
                assert(r.1@[k] == b.edges()[k].0 as i64);
                assert(r.2@[k] == b.edges()[k].1 as i64);
            }
            assert forall|e: int| 0 <= e < before.edges().len() implies #[trigger] r.1@[e] == before.edges()[e].0 as i64 by {
                assert(b.edges()[e] == before.edges()[e]);
            }
            assert forall|e: int| 0 <= e < before.edges().len() implies #[trigger] r.2@[e] == before.edges()[e].1 as i64 by {
                assert(b.edges()[e] == before.edges()[e]);
            }
        }
        r
    }
}

/// The state before any clause is compiled.
pub open spec fn empty_model() -> Model {
    Model {
        nodes: Seq::empty(),
        edges: Seq::empty(),
        functors: Seq::empty(),
        variables: Seq::empty(),
        terms: Seq::empty(),
    }
}

/// Adding a marker node of tag `tag` with one edge to `root`.
pub open spec fn marker_step(m: Model, tag: NodeType, root: u32) -> (Model, u32) {
    let n = m.nodes.len() as u32;
    (Model { nodes: m.nodes.push(tag), edges: m.edges.push((n, root)), ..m }, n)
}

/// Compiling selected clauses in order, each under a Selected marker.
pub open spec fn selected_step(m: Model, cs: Seq<Clause>) -> Model
    decreases cs.len(),
{
    if cs.len() == 0 {
        m
    } else {
        let (m1, root) = clause_step(selected_step(m, cs.drop_last()), cs[cs.len() - 1]);
        marker_step(m1, NodeType::Selected, root).0
    }
}

/// Compiling action clauses in order, each under an Action marker: the state
/// after and the markers.
pub open spec fn actions_step(m: Model, cs: Seq<Clause>) -> (Model, Seq<u32>)
    decreases cs.len(),
{
    if cs.len() == 0 {
        (m, Seq::empty())
    } else {
        let (m1, markers) = actions_step(m, cs.drop_last());
        let (m2, root) = clause_step(m1, cs[cs.len() - 1]);
        let (m3, marker) = marker_step(m2, NodeType::Action, root);
        (m3, markers.push(marker))
    }
}

/// The graph of a batch before closing, and its Action markers.
pub open spec fn batch_model(selected: Seq<Clause>, actions: Seq<Clause>) -> (Model, Seq<u32>) {
    actions_step(selected_step(empty_model(), selected), actions)
}

/// The arrays are exactly those of the batch's graph closed with self-loops.
pub open spec fn compiled_from(selected: Seq<Clause>, actions: Seq<Clause>, r: CompiledBatch) -> bool {
    let (m, markers) = batch_model(selected, actions);
    let all_edges = m.edges + self_loops(m.nodes.len());
    &&& r.node_types@ == m.nodes.map_values(|t: NodeType| node_code(t))
    &&& r.edge_sources@ == all_edges.map_values(|e: (u32, u32)| e.0 as i64)
    &&& r.edge_targets@ == all_edges.map_values(|e: (u32, u32)| e.1 as i64)
    &&& r.action_indices@ == markers.map_values(|a: u32| a as i64)
}

/// What a compiled batch holds: the edge arrays run in parallel; one Selected
/// marker per selected clause and one Action marker per action clause, whose
/// indices are listed in input order; every edge joins two nodes; and the last
/// edges are one self-loop per node, in node order.
pub open spec fn batch_ok(selected: Seq<Clause>, actions: Seq<Clause>, r: CompiledBatch) -> bool {
    &&& r.edge_sources@.len() == r.edge_targets@.len()
    &&& r.node_types@.len() <= r.edge_sources@.len()
    &&& count_code(r.node_types@, node_code(NodeType::Selected)) == selected.len()
    &&& count_code(r.node_types@, node_code(NodeType::Action)) == actions.len()
    &&& r.action_indices@.len() == actions.len()
    &&& forall|i: int| 0 <= i < actions.len() ==> 0 <= #[trigger] r.action_indices@[i] < r.node_types@.len()
            && r.node_types@[r.action_indices@[i] as int] == node_code(NodeType::Action)
    &&& forall|i: int, j: int| 0 <= i < j < actions.len() ==> #[trigger] r.action_indices@[i] < #[trigger] r.action_indices@[j]
    &&& forall|e: int| 0 <= e < r.edge_sources@.len() ==> 0 <= #[trigger] r.edge_sources@[e] < r.node_types@.len()
            && 0 <= r.edge_targets@[e] < r.node_types@.len()
    &&& forall|i: int| 0 <= i < r.node_types@.len() ==>
            #[trigger] r.edge_sources@[r.edge_sources@.len() - r.node_types@.len() + i] == i
            && r.edge_targets@[r.edge_sources@.len() - r.node_types@.len() + i] == i
}

/// Compiles the selected clauses and then the action clauses, in order, into
/// one graph: each clause in a fresh variable scope, with functors and
/// applications shared across the whole batch, each wrapped by a Selected or
/// an Action marker; then closes the graph with a self-loop on every node.
pub fn compile_batch(selected: &Vec<Clause>, actions: &Vec<Clause>) -> (r: CompiledBatch)
    requires
        clauses_cost(selected@) + clauses_cost(actions@) <= MAX_BATCH_COST,
    ensures
        batch_ok(selected@, actions@, r),
        compiled_from(selected@, actions@, r),
{
    let mut b = GraphBuilder::new();
    let mut i: usize = 0;
    proof {
        assert(selected@.subrange(0, 0) =~= Seq::<Clause>::empty());
        assert(actions@.subrange(0, 0) =~= Seq::<Clause>::empty());
    }
    while i < selected.len()
        invariant
            i <= selected@.len(),
            clauses_cost(selected@) + clauses_cost(actions@) <= MAX_BATCH_COST,
            b.wf(),
            b.nodes().len() <= clauses_cost(selected@.subrange(0, i as int)),
            b.edges().len() <= clauses_cost(selected@.subrange(0, i as int)),
            count_tag(b.nodes(), NodeType::Selected) == i,
            count_tag(b.nodes(), NodeType::Action) == 0,
            b.model() == selected_step(empty_model(), selected@.subrange(0, i as int)),
        decreases selected@.len() - i,
    {
        proof {
            lemma_clauses_cost_step(selected@, i as int);
            lemma_clauses_cost_prefix(selected@, i as int + 1);
        }
        let ghost s0 = b;
        let root = b.visit_clause(&selected[i]);
        proof {
            lemma_count_unmarked(s0.nodes(), b.nodes(), NodeType::Selected);
            lemma_count_unmarked(s0.nodes(), b.nodes(), NodeType::Action);
        }
        let ghost s1 = b;
        b.add_marker(NodeType::Selected, root);
        proof {
            assert(b.nodes().drop_last() =~= s1.nodes());
            assert(selected@.subrange(0, i + 1).drop_last() =~= selected@.subrange(0, i as int));
        }
        i += 1;
    }
    proof {
        assert(selected@.subrange(0, selected@.len() as int) =~= selected@);
    }
    let ghost m_sel = b.model();
    let mut action_indices: Vec<i64> = Vec::new();
    let mut j: usize = 0;
    while j < actions.len()
        invariant
            j <= actions@.len(),
            clauses_cost(selected@) + clauses_cost(actions@) <= MAX_BATCH_COST,
            b.wf(),
            b.nodes().len() <= clauses_cost(selected@) + clauses_cost(actions@.subrange(0, j as int)),
            b.edges().len() <= clauses_cost(selected@) + clauses_cost(actions@.subrange(0, j as int)),
            count_tag(b.nodes(), NodeType::Selected) == selected@.len(),
            count_tag(b.nodes(), NodeType::Action) == j,
            action_indices@.len() == j,
            m_sel == selected_step(empty_model(), selected@),
            actions_step(m_sel, actions@.subrange(0, j as int)).0 == b.model(),
            action_indices@ == actions_step(m_sel, actions@.subrange(0, j as int)).1.map_values(|a: u32| a as i64),
            forall|k: int| 0 <= k < j ==> 0 <= #[trigger] action_indices@[k] < b.nodes().len()
                && b.nodes()[action_indices@[k] as int] == NodeType::Action,
            forall|k: int, l: int| 0 <= k < l < j ==> #[trigger] action_indices@[k] < #[trigger] action_indices@[l],
        decreases actions@.len() - j,
    {
        proof {
            lemma_clauses_cost_step(actions@, j as int);
            lemma_clauses_cost_prefix(actions@, j as int + 1);
        }
        let ghost s0 = b;
        let root = b.visit_clause(&actions[j]);
        proof {
            lemma_count_unmarked(s0.nodes(), b.nodes(), NodeType::Selected);
            lemma_count_unmarked(s0.nodes(), b.nodes(), NodeType::Action);
            assert forall|k: int| 0 <= k < j implies b.nodes()[action_indices@[k] as int] == NodeType::Action by {
                assert(b.nodes()[action_indices@[k] as int] == b.nodes().subrange(0, s0.nodes().len() as int)[action_indices@[k] as int]);
            }
        }
        let ghost s1 = b;
        let marker = b.add_marker(NodeType::Action, root);
        proof {
            assert(b.nodes().drop_last() =~= s1.nodes());
        }
        action_indices.push(marker as i64);
        proof {
            assert(actions@.subrange(0, j + 1).drop_last() =~= actions@.subrange(0, j as int));
            assert(action_indices@ =~= actions_step(m_sel, actions@.subrange(0, j + 1)).1.map_values(|a: u32| a as i64));
        }
        j += 1;
    }
    proof {
        assert(actions@.subrange(0, actions@.len() as int) =~= actions@);
    }
    let ghost last = b;
    let (node_types, edge_sources, edge_targets) = b.finish();
    proof {
        let (m, markers) = batch_model(selected@, actions@);
        assert(m == last.model());
        assert(node_types@ =~= m.nodes.map_values(|t: NodeType| node_code(t)));
        let all_edges = m.edges + self_loops(m.nodes.len());
        assert forall|e: int| 0 <= e < all_edges.len() implies #[trigger] edge_sources@[e] == all_edges[e].0 as i64 by {
            if e >= m.edges.len() {
                let i = e - m.edges.len();
                assert(edge_sources@[last.edges().len() + i] == i);
            }
        }
        assert forall|e: int| 0 <= e < all_edges.len() implies #[trigger] edge_targets@[e] == all_edges[e].1 as i64 by {
            if e >= m.edges.len() {
                let i = e - m.edges.len();
                assert(edge_targets@[last.edges().len() + i] == i);
            }
        }
        assert(edge_sources@ =~= all_edges.map_values(|e: (u32, u32)| e.0 as i64));
        assert(edge_targets@ =~= all_edges.map_values(|e: (u32, u32)| e.1 as i64));
        lemma_count_codes(last.nodes(), node_types@, NodeType::Selected);
        lemma_count_codes(last.nodes(), node_types@, NodeType::Action);
        assert forall|e: int| 0 <= e < edge_sources@.len() implies 0 <= #[trigger] edge_sources@[e] < node_types@.len()
            && 0 <= edge_targets@[e] < node_types@.len() by {
            if e < last.edges().len() {
                assert(last.edges()[e].0 < last.nodes().len());
                assert(edge_sources@[e] == last.edges()[e].0 as i64);
            } else {
                let i = e - last.edges().len();
                assert(edge_sources@[last.edges().len() + i] == i);
            }
        }
        assert forall|k: int| 0 <= k < actions@.len() implies 0 <= #[trigger] action_indices@[k] < node_types@.len()
            && node_types@[action_indices@[k] as int] == node_code(NodeType::Action) by {
            assert(node_types@[action_indices@[k] as int] == node_code(last.nodes()[action_indices@[k] as int]));
        }
    }
    CompiledBatch { node_types, edge_sources, edge_targets, action_indices }
}

} // verus!
