use crate::graph::{graph_add_edge, graph_add_node, graph_edges, graph_new, graph_node_count, graph_nodes, NodeType, TypedGraph};
use vstd::prelude::*;

verus! {

/// The shared graph arena together with its interning tables.
pub struct GraphBuilder {
    pub graph: TypedGraph,
    /// Function and constant symbols, for the whole batch.
    pub functors: Vec<(String, u32)>,
    /// Variable names, for the current clause only.
    pub variables: Vec<(String, u32)>,
    /// Application signatures (functor, argument roots...), for the whole batch.
    pub terms: Vec<(Vec<u32>, u32)>,
}

/// Every entry names a node of the given tag, and no name occurs twice.
pub open spec fn names_ok(t: Seq<(String, u32)>, nodes: Seq<NodeType>, tag: NodeType) -> bool {
    &&& forall|j: int| 0 <= j < t.len() ==> (#[trigger] t[j]).1 < nodes.len() && nodes[t[j].1 as int] == tag
    &&& forall|j: int, k: int| 0 <= j < k < t.len() ==> (#[trigger] t[j]).0@ != (#[trigger] t[k]).0@
}

/// Every signature names an Application node, and no signature occurs twice.
pub open spec fn terms_ok(t: Seq<(Vec<u32>, u32)>, nodes: Seq<NodeType>) -> bool {
    &&& forall|j: int| 0 <= j < t.len() ==> (#[trigger] t[j]).1 < nodes.len() && nodes[t[j].1 as int] == NodeType::Application
    &&& forall|j: int, k: int| 0 <= j < k < t.len() ==> (#[trigger] t[j]).0@ != (#[trigger] t[k]).0@
}

/// Every edge joins two existing nodes.
pub open spec fn edges_ok(edges: Seq<(u32, u32)>, n: nat) -> bool {
    forall|e: int| 0 <= e < edges.len() ==> (#[trigger] edges[e]).0 < n && edges[e].1 < n
}

/// `new` extends `old` and everything appended is none of `Selected` and `Action`.
pub open spec fn grows_unmarked(old: Seq<NodeType>, new: Seq<NodeType>) -> bool {
    &&& old.len() <= new.len()
    &&& new.subrange(0, old.len() as int) == old
    &&& forall|i: int| old.len() <= i < new.len() ==> !is_marker(#[trigger] new[i])
}

pub open spec fn is_marker(t: NodeType) -> bool {
    t == NodeType::Selected || t == NodeType::Action
}

/// `s` holds the key `k` with the value `v`.
pub open spec fn name_maps(s: Seq<(String, u32)>, k: Seq<char>, v: u32) -> bool {
    exists|j: int| 0 <= j < s.len() && (#[trigger] s[j]).0@ == k && s[j].1 == v
}

pub open spec fn has_name(s: Seq<(String, u32)>, k: Seq<char>) -> bool {
    exists|j: int| 0 <= j < s.len() && (#[trigger] s[j]).0@ == k
}

/// `s` holds the signature `k` with the value `v`.
pub open spec fn term_maps(s: Seq<(Vec<u32>, u32)>, k: Seq<u32>, v: u32) -> bool {
    exists|j: int| 0 <= j < s.len() && (#[trigger] s[j]).0@ == k && s[j].1 == v
}

pub open spec fn has_term(s: Seq<(Vec<u32>, u32)>, k: Seq<u32>) -> bool {
    exists|j: int| 0 <= j < s.len() && (#[trigger] s[j]).0@ == k
}

/// `new` is `old` with the entry `(k, v)` appended.
pub open spec fn names_pushed(old: Seq<(String, u32)>, new: Seq<(String, u32)>, k: Seq<char>, v: u32) -> bool {
    &&& new.len() == old.len() + 1
    &&& new.subrange(0, old.len() as int) == old
    &&& new[old.len() as int].0@ == k
    &&& new[old.len() as int].1 == v
}

/// The nodes that a cache miss on `sig` appends: one Argument node per
/// argument, then the Application node.
pub open spec fn application_nodes(sig: Seq<u32>) -> Seq<NodeType> {
    Seq::new((sig.len() - 1) as nat, |i: int| NodeType::Argument).push(NodeType::Application)
}

/// The edges that a cache miss on `sig` appends, its first new node standing at
/// index `base`: from each Argument node to its argument's root; from the
/// Application node to the functor, then to the first Argument node (if any);
/// then from each Argument node to the next.
pub open spec fn application_edges(sig: Seq<u32>, base: u32) -> Seq<(u32, u32)> {
    let n = sig.len() - 1;
    let app = (base + n) as u32;
    Seq::new(n as nat, |i: int| ((base + i) as u32, sig[i + 1]))
        + seq![(app, sig[0])]
        + (if n > 0 { seq![(app, base)] } else { Seq::empty() })
        + Seq::new((if n > 0 { n - 1 } else { 0 }) as nat, |i: int| ((base + i) as u32, (base + i + 1) as u32))
}

/// The state of compilation as plain values: the graph, and each table as a
/// sequence of (key, node) entries in order of insertion.
pub struct Model {
    pub nodes: Seq<NodeType>,
    pub edges: Seq<(u32, u32)>,
    pub functors: Seq<(Seq<char>, u32)>,
    pub variables: Seq<(Seq<char>, u32)>,
    pub terms: Seq<(Seq<u32>, u32)>,
}

pub open spec fn name_entries(s: Seq<(String, u32)>) -> Seq<(Seq<char>, u32)> {
    s.map_values(|p: (String, u32)| (p.0@, p.1))
}

pub open spec fn term_entries(s: Seq<(Vec<u32>, u32)>) -> Seq<(Seq<u32>, u32)> {
    s.map_values(|p: (Vec<u32>, u32)| (p.0@, p.1))
}

/// The node that a table holds for `k`, if any.
pub open spec fn lookup<K>(s: Seq<(K, u32)>, k: K) -> Option<u32> {
    if exists|j: int| 0 <= j < s.len() && (#[trigger] s[j]).0 == k {
        Some(s[choose|j: int| 0 <= j < s.len() && (#[trigger] s[j]).0 == k].1)
    } else {
        None
    }
}

/// Interning a variable name: the node it already has in the clause, or a new
/// Variable node.
pub open spec fn intern_variable_step(m: Model, name: Seq<char>) -> (Model, u32) {
    match lookup(m.variables, name) {
        Some(v) => (m, v),
        None => {
            let r = m.nodes.len() as u32;
            (Model { nodes: m.nodes.push(NodeType::Variable), variables: m.variables.push((name, r)), ..m }, r)
        },
    }
}

/// Interning a function or constant symbol: the node it already has in the
/// batch, or a new Functor node.
pub open spec fn intern_functor_step(m: Model, name: Seq<char>) -> (Model, u32) {
    match lookup(m.functors, name) {
        Some(v) => (m, v),
        None => {
            let r = m.nodes.len() as u32;
            (Model { nodes: m.nodes.push(NodeType::Functor), functors: m.functors.push((name, r)), ..m }, r)
        },
    }
}

/// Interning an application signature: the node it already has in the batch,
/// or a new Application node over a new Argument spine.
pub open spec fn intern_term_step(m: Model, sig: Seq<u32>) -> (Model, u32) {
    match lookup(m.terms, sig) {
        Some(v) => (m, v),
        None => {
            let base = m.nodes.len() as u32;
            let r = (m.nodes.len() + sig.len() - 1) as u32;
            (Model {
                nodes: m.nodes + application_nodes(sig),
                edges: m.edges + application_edges(sig, base),
                terms: m.terms.push((sig, r)),
                ..m
            }, r)
        },
    }
}

proof fn lemma_lookup_names(t: Seq<(String, u32)>, k: Seq<char>, v: u32)
    requires
        forall|j: int, l: int| 0 <= j < l < t.len() ==> (#[trigger] t[j]).0@ != (#[trigger] t[l]).0@,
    ensures
        name_maps(t, k, v) ==> lookup(name_entries(t), k) == Some(v),
        !has_name(t, k) ==> lookup(name_entries(t), k) is None,
{
    let e = name_entries(t);
    if name_maps(t, k, v) {
        let j = choose|j: int| 0 <= j < t.len() && (#[trigger] t[j]).0@ == k && t[j].1 == v;
        assert(e[j].0 == k);
        let c = choose|c: int| 0 <= c < e.len() && (#[trigger] e[c]).0 == k;
        if c < j {
            assert(t[c].0@ != t[j].0@);
        } else if j < c {
            assert(t[j].0@ != t[c].0@);
        }
    }
    if !has_name(t, k) {
        assert forall|j: int| 0 <= j < e.len() implies (#[trigger] e[j]).0 != k by {
            assert(t[j].0@ != k);
        }
    }
}

proof fn lemma_lookup_terms(t: Seq<(Vec<u32>, u32)>, k: Seq<u32>, v: u32)
    requires
        forall|j: int, l: int| 0 <= j < l < t.len() ==> (#[trigger] t[j]).0@ != (#[trigger] t[l]).0@,
    ensures
        term_maps(t, k, v) ==> lookup(term_entries(t), k) == Some(v),
        !has_term(t, k) ==> lookup(term_entries(t), k) is None,
{
    let e = term_entries(t);
    if term_maps(t, k, v) {
        let j = choose|j: int| 0 <= j < t.len() && (#[trigger] t[j]).0@ == k && t[j].1 == v;
        assert(e[j].0 == k);
        let c = choose|c: int| 0 <= c < e.len() && (#[trigger] e[c]).0 == k;
        if c < j {
            assert(t[c].0@ != t[j].0@);
        } else if j < c {
            assert(t[j].0@ != t[c].0@);
        }
    }
    if !has_term(t, k) {
        assert forall|j: int| 0 <= j < e.len() implies (#[trigger] e[j]).0 != k by {
            assert(t[j].0@ != k);
        }
    }
}

impl GraphBuilder {
    /// The builder's state as plain values.
    pub open spec fn model(&self) -> Model {
        Model {
            nodes: self.nodes(),
            edges: self.edges(),
            functors: name_entries(self.functors@),
            variables: name_entries(self.variables@),
            terms: term_entries(self.terms@),
        }
    }

    pub open spec fn nodes(&self) -> Seq<NodeType> {
        graph_nodes(self.graph)
    }

    pub open spec fn edges(&self) -> Seq<(u32, u32)> {
        graph_edges(self.graph)
    }

    pub open spec fn wf(&self) -> bool {
        &&& self.nodes().len() <= u32::MAX
        &&& self.edges().len() <= u32::MAX
        &&& edges_ok(self.edges(), self.nodes().len())
        &&& names_ok(self.functors@, self.nodes(), NodeType::Functor)
        &&& names_ok(self.variables@, self.nodes(), NodeType::Variable)
        &&& terms_ok(self.terms@, self.nodes())
    }

    /// Room for `k` more nodes and `k` more edges.
    pub open spec fn room(&self, k: nat) -> bool {
        &&& self.nodes().len() + k < u32::MAX
        &&& self.edges().len() + k < u32::MAX
    }

    /// What interning may do: nodes and edges only appended, none of them a
    /// marker, and the batch-wide tables only appended to.
    pub open spec fn extends(&self, new: &GraphBuilder) -> bool {
        &&& grows_unmarked(self.nodes(), new.nodes())
        &&& self.edges().len() <= new.edges().len()
        &&& new.edges().subrange(0, self.edges().len() as int) == self.edges()
        &&& self.functors@.len() <= new.functors@.len()
        &&& new.functors@.subrange(0, self.functors@.len() as int) == self.functors@
        &&& self.terms@.len() <= new.terms@.len()
        &&& new.terms@.subrange(0, self.terms@.len() as int) == self.terms@
    }

    /// As `extends`, with the clause-local variable table only appended to.
    pub open spec fn extends_in_clause(&self, new: &GraphBuilder) -> bool {
        &&& self.extends(new)
        &&& self.variables@.len() <= new.variables@.len()
        &&& new.variables@.subrange(0, self.variables@.len() as int) == self.variables@
        &&& forall|j: int| self.variables@.len() <= j < new.variables@.len()
            ==> self.nodes().len() <= (#[trigger] new.variables@[j]).1
    }

    /// Growth bounded by `k` nodes and `k` edges.
    pub open spec fn grew_at_most(&self, new: &GraphBuilder, k: nat) -> bool {
        &&& new.nodes().len() <= self.nodes().len() + k
        &&& new.edges().len() <= self.edges().len() + k
    }

    pub fn new() -> (r: GraphBuilder)
        ensures
            r.wf(),
            r.nodes() == Seq::<NodeType>::empty(),
            r.edges() == Seq::<(u32, u32)>::empty(),
            r.functors@ == Seq::<(String, u32)>::empty(),
            r.variables@ == Seq::<(String, u32)>::empty(),
            r.terms@ == Seq::<(Vec<u32>, u32)>::empty(),
            r.model() == (Model {
                nodes: Seq::empty(),
                edges: Seq::empty(),
                functors: Seq::empty(),
                variables: Seq::empty(),
                terms: Seq::empty(),
            }),
    {
        let r = GraphBuilder { graph: graph_new(), functors: Vec::new(), variables: Vec::new(), terms: Vec::new() };
        proof {
            assert(name_entries(r.functors@) =~= Seq::<(Seq<char>, u32)>::empty());
            assert(name_entries(r.variables@) =~= Seq::<(Seq<char>, u32)>::empty());
            assert(term_entries(r.terms@) =~= Seq::<(Seq<u32>, u32)>::empty());
        }
        r
    }
    /// Returns the Variable node of `name` in the current clause, creating it on
    /// first sight.
    pub fn intern_variable(&mut self, name: &String) -> (r: u32)
        requires
            old(self).wf(),
            old(self).room(1),
        ensures
            final(self).wf(),
            old(self).extends_in_clause(final(self)),
            old(self).grew_at_most(final(self), 1),
            (r as int) < final(self).nodes().len(),
            final(self).nodes()[r as int] == NodeType::Variable,
            name_maps(final(self).variables@, name@, r),
            (final(self).model(), r) == intern_variable_step(old(self).model(), name@),
            has_name(old(self).variables@, name@) ==> *final(self) == *old(self) && name_maps(old(self).variables@, name@, r),
            !has_name(old(self).variables@, name@) ==> {
                &&& final(self).nodes() == old(self).nodes().push(NodeType::Variable)
                &&& final(self).edges() == old(self).edges()
                &&& r as int == old(self).nodes().len()
                &&& names_pushed(old(self).variables@, final(self).variables@, name@, r)
                &&& final(self).functors@ == old(self).functors@
                &&& final(self).terms@ == old(self).terms@
            },
    {
        proof {
            lemma_extends_refl(self);
        }
        match find_name(&self.variables, name) {
            Some(v) => {
                proof {
                    lemma_lookup_names(self.variables@, name@, v);
                }
                v
            },
            None => {
                proof {
                    lemma_lookup_names(self.variables@, name@, 0);
                }
                let v = graph_add_node(&mut self.graph, NodeType::Variable);
                self.variables.push((name.clone(), v));
                proof {
                    let old_nodes = graph_nodes(old(self).graph);
                    assert(self.nodes().subrange(0, old_nodes.len() as int) =~= old_nodes);
                    lemma_extends_refl(self);
                    assert(self.variables@.subrange(0, old(self).variables@.len() as int) =~= old(self).variables@);
                    assert(name_entries(self.variables@) =~= name_entries(old(self).variables@).push((name@, v)));
                    assert(name_maps(self.variables@, name@, v)) by {
                        assert(self.variables@[old(self).variables@.len() as int].0@ == name@);
                    }
                }
                v
            },
        }
    }

    /// Returns the Functor node of `name`, creating it on first sight in the
    /// batch.
    pub fn intern_functor(&mut self, name: &String) -> (r: u32)
        requires
            old(self).wf(),
            old(self).room(1),
        ensures
            final(self).wf(),
            old(self).extends_in_clause(final(self)),
            old(self).grew_at_most(final(self), 1),
            (r as int) < final(self).nodes().len(),
            final(self).nodes()[r as int] == NodeType::Functor,
            name_maps(final(self).functors@, name@, r),
            (final(self).model(), r) == intern_functor_step(old(self).model(), name@),
            has_name(old(self).functors@, name@) ==> *final(self) == *old(self) && name_maps(old(self).functors@, name@, r),
            !has_name(old(self).functors@, name@) ==> {
                &&& final(self).nodes() == old(self).nodes().push(NodeType::Functor)
                &&& final(self).edges() == old(self).edges()
                &&& r as int == old(self).nodes().len()
                &&& names_pushed(old(self).functors@, final(self).functors@, name@, r)
                &&& final(self).variables@ == old(self).variables@
                &&& final(self).terms@ == old(self).terms@
            },
    {
        proof {
            lemma_extends_refl(self);
        }
        match find_name(&self.functors, name) {
            Some(v) => {
                proof {
                    lemma_lookup_names(self.functors@, name@, v);
                }
                v
            },
            None => {
                proof {
                    lemma_lookup_names(self.functors@, name@, 0);
                }
                let v = graph_add_node(&mut self.graph, NodeType::Functor);
                self.functors.push((name.clone(), v));
                proof {
                    let old_nodes = graph_nodes(old(self).graph);
                    assert(self.nodes().subrange(0, old_nodes.len() as int) =~= old_nodes);
                    lemma_extends_refl(self);
                    assert(self.functors@.subrange(0, old(self).functors@.len() as int) =~= old(self).functors@);
                    assert(name_entries(self.functors@) =~= name_entries(old(self).functors@).push((name@, v)));
                    assert(name_maps(self.functors@, name@, v)) by {
                        assert(self.functors@[old(self).functors@.len() as int].0@ == name@);
                    }
                }
                v
            },
        }
    }

    /// Returns the Application node of the signature `sig` (the functor node
    /// followed by the argument roots), building it on a cache miss.
    pub fn intern_term(&mut self, sig: Vec<u32>) -> (r: u32)
        requires
            old(self).wf(),
            old(self).room(3 * sig@.len()),
            sig@.len() >= 1,
            forall|i: int| 0 <= i < sig@.len() ==> (#[trigger] sig@[i] as int) < old(self).nodes().len(),
        ensures
            final(self).wf(),
            old(self).extends_in_clause(final(self)),
            old(self).grew_at_most(final(self), 3 * sig@.len()),
            (r as int) < final(self).nodes().len(),
            final(self).nodes()[r as int] == NodeType::Application,
            term_maps(final(self).terms@, sig@, r),
            (final(self).model(), r) == intern_term_step(old(self).model(), sig@),
            has_term(old(self).terms@, sig@) ==> *final(self) == *old(self) && term_maps(old(self).terms@, sig@, r),
            !has_term(old(self).terms@, sig@) ==> {
                &&& final(self).nodes() == old(self).nodes() + application_nodes(sig@)
                &&& final(self).edges() == old(self).edges() + application_edges(sig@, old(self).nodes().len() as u32)
                &&& r as int == old(self).nodes().len() + sig@.len() - 1
                &&& final(self).terms@.len() == old(self).terms@.len() + 1
                &&& final(self).terms@.subrange(0, old(self).terms@.len() as int) == old(self).terms@
                &&& final(self).terms@[old(self).terms@.len() as int].0@ == sig@
                &&& final(self).terms@[old(self).terms@.len() as int].1 == r
                &&& final(self).functors@ == old(self).functors@
                &&& final(self).variables@ == old(self).variables@
            },
    {
        proof {
            lemma_extends_refl(self);
        }
        match find_term(&self.terms, &sig) {
            Some(v) => {
                proof {
                    lemma_lookup_terms(self.terms@, sig@, v);
                }
                v
            },
            None => {
                proof {
                    lemma_lookup_terms(self.terms@, sig@, 0);
                }
                let ghost old_nodes = self.nodes();
                let ghost old_edges = self.edges();
                let n: usize = sig.len() - 1;
                let base: u32 = graph_node_count(&self.graph) as u32;
                let mut i: usize = 0;
                while i < n
                    invariant
                        n == sig@.len() - 1,
                        base as int == old_nodes.len(),
                        i <= n,
                        self.wf(),
                        self.functors@ == old(self).functors@,
                        self.variables@ == old(self).variables@,
                        self.terms@ == old(self).terms@,
                        old_nodes.len() + 3 * sig@.len() < u32::MAX,
                        old_edges.len() + 3 * sig@.len() < u32::MAX,
                        forall|k: int| 0 <= k < sig@.len() ==> (#[trigger] sig@[k] as int) < old_nodes.len(),
                        self.nodes() == old_nodes + Seq::new(i as nat, |k: int| NodeType::Argument),
                        self.edges() == old_edges + Seq::new(i as nat, |k: int| ((base + k) as u32, sig@[k + 1])),
                    decreases n - i,
                {
                    let a = graph_add_node(&mut self.graph, NodeType::Argument);
                    graph_add_edge(&mut self.graph, a, sig[i + 1]);
                    proof {
                        assert(self.nodes() =~= old_nodes + Seq::new((i + 1) as nat, |k: int| NodeType::Argument));
                        assert(self.edges() =~= old_edges + Seq::new((i + 1) as nat, |k: int| ((base + k) as u32, sig@[k + 1])));
                    }
                    i += 1;
                }
                let app = graph_add_node(&mut self.graph, NodeType::Application);
                graph_add_edge(&mut self.graph, app, sig[0]);
                if n > 0 {
                    graph_add_edge(&mut self.graph, app, base);
                }
                let ghost spine_start = self.edges();
                proof {
                    assert(self.nodes() =~= old_nodes + application_nodes(sig@));
                    assert(spine_start =~= old_edges + Seq::new(n as nat, |k: int| ((base + k) as u32, sig@[k + 1]))
                        + seq![(app, sig@[0])] + (if n > 0 { seq![(app, base)] } else { Seq::empty() }));
                }
                let mut j: usize = 1;
                while j < n
                    invariant
                        n == sig@.len() - 1,
                        base as int == old_nodes.len(),
                        app as int == base + n,
                        1 <= j,
                        n > 0 ==> j <= n,
                        n == 0 ==> j == 1,
                        self.wf(),
                        self.nodes() == old_nodes + application_nodes(sig@),
                        self.functors@ == old(self).functors@,
                        self.variables@ == old(self).variables@,
                        self.terms@ == old(self).terms@,
                        old_edges.len() + 3 * sig@.len() < u32::MAX,
                        spine_start == old_edges + Seq::new(n as nat, |k: int| ((base + k) as u32, sig@[k + 1]))
                            + seq![(app, sig@[0])] + (if n > 0 { seq![(app, base)] } else { Seq::empty() }),
                        self.edges() == spine_start + Seq::new((j - 1) as nat, |k: int| ((base + k) as u32, (base + k + 1) as u32)),
                    decreases n - j,
                {
                    graph_add_edge(&mut self.graph, base + (j as u32) - 1, base + (j as u32));
                    proof {
                        assert(self.edges() =~= spine_start + Seq::new(j as nat, |k: int| ((base + k) as u32, (base + k + 1) as u32)));
                    }
                    j += 1;
                }
                self.terms.push((sig, app));
                proof {
                    let spine = Seq::new((j - 1) as nat, |k: int| ((base + k) as u32, (base + k + 1) as u32));
                    let m: int = if n > 0 { n - 1 } else { 0 };
                    assert(j - 1 == m);
                    assert(spine =~= Seq::new(m as nat, |k: int| ((base + k) as u32, (base + k + 1) as u32)));
                    assert(app == (base + n) as u32);
                    assert(self.edges() =~= old_edges + application_edges(sig@, base));
                    assert(self.nodes().subrange(0, old_nodes.len() as int) =~= old_nodes);
                    assert(self.edges().subrange(0, old_edges.len() as int) =~= old_edges);
                    assert(self.terms@.subrange(0, old(self).terms@.len() as int) =~= old(self).terms@);
                    lemma_extends_refl(self);
                    assert(term_entries(self.terms@) =~= term_entries(old(self).terms@).push((sig@, app)));
                    assert(term_maps(self.terms@, sig@, app)) by {
                        assert(self.terms@[old(self).terms@.len() as int].0@ == sig@);
                    }
                }
                app
            },
        }
    }
}


pub proof fn lemma_extends_refl(b: &GraphBuilder)
    ensures
        b.extends_in_clause(b),
{
    assert(b.nodes().subrange(0, b.nodes().len() as int) =~= b.nodes());
    assert(b.edges().subrange(0, b.edges().len() as int) =~= b.edges());
    assert(b.functors@.subrange(0, b.functors@.len() as int) =~= b.functors@);
    assert(b.variables@.subrange(0, b.variables@.len() as int) =~= b.variables@);
    assert(b.terms@.subrange(0, b.terms@.len() as int) =~= b.terms@);
}

/// Looks `name` up in a symbol table.
fn find_name(table: &Vec<(String, u32)>, name: &String) -> (r: Option<u32>)
    ensures
        match r {
            Some(v) => name_maps(table@, name@, v),
            None => !has_name(table@, name@),
        },
{
    let mut i: usize = 0;
    while i < table.len()
        invariant
            i <= table.len(),
            forall|j: int| 0 <= j < i ==> (#[trigger] table@[j]).0@ != name@,
        decreases table.len() - i,
    {
        if table[i].0 == *name {
            assert(table@[i as int].0@ == name@);
            return Some(table[i].1);
        }
        i += 1;
    }
    None
}

/// Whether two signatures are equal.
fn same_signature(a: &Vec<u32>, b: &Vec<u32>) -> (r: bool)
    ensures
        r == (a@ == b@),
{
    if a.len() != b.len() {
        return false;
    }
    let mut i: usize = 0;
    while i < a.len()
        invariant
            i <= a.len(),
            a.len() == b.len(),
            forall|j: int| 0 <= j < i ==> a@[j] == b@[j],
        decreases a.len() - i,
    {
        if a[i] != b[i] {
            return false;
        }
        i += 1;
    }
    assert(a@ =~= b@);
    true
}

/// Looks a signature up in the term cache.
fn find_term(table: &Vec<(Vec<u32>, u32)>, sig: &Vec<u32>) -> (r: Option<u32>)
    ensures
        match r {
            Some(v) => term_maps(table@, sig@, v),
            None => !has_term(table@, sig@),
        },
{
    let mut i: usize = 0;
    while i < table.len()
        invariant
            i <= table.len(),
            forall|j: int| 0 <= j < i ==> (#[trigger] table@[j]).0@ != sig@,
        decreases table.len() - i,
    {
        if same_signature(&table[i].0, sig) {
            assert(table@[i as int].0@ == sig@);
            return Some(table[i].1);
        }
        i += 1;
    }
    None
}

} // verus!
