use crate::ast::{atom_cost, clause_cost, literal_cost, literals_cost, term_cost, terms_cost, Atom, Clause, Literal, Role, Term};
use crate::builder::{name_entries, intern_functor_step, intern_term_step, intern_variable_step, GraphBuilder, Model};
use crate::graph::{graph_add_edge, graph_add_node, graph_edges, graph_nodes, NodeType};
use vstd::prelude::*;

verus! {

/// The tag of the node that roots a compiled term.
pub open spec fn term_tag(t: Term) -> NodeType {
    match t {
        Term::Variable(_) => NodeType::Variable,
        Term::Constant(_) => NodeType::Functor,
        Term::Application(_, _) => NodeType::Application,
    }
}

/// The tag of the node that roots a compiled atom.
pub open spec fn atom_tag(a: Atom) -> NodeType {
    match a {
        Atom::Predicate(t) => term_tag(t),
        Atom::Equality(_, _) => NodeType::Equality,
    }
}

/// The tag of the node that roots a compiled literal.
pub open spec fn literal_tag(l: Literal) -> NodeType {
    match l {
        Literal::Atomic(a) => atom_tag(a),
        Literal::Negated(_) => NodeType::Negation,
        Literal::Disequality(_, _) => NodeType::Disequality,
    }
}

/// Compiling a term: its root node and the state after.
pub open spec fn term_step(m: Model, t: Term) -> (Model, u32)
    decreases t,
{
    match t {
        Term::Variable(name) => intern_variable_step(m, name@),
        Term::Constant(name) => intern_functor_step(m, name@),
        Term::Application(f, args) => {
            let (m1, head) = intern_functor_step(m, f@);
            let (m2, roots) = args_step(m1, args@);
            intern_term_step(m2, seq![head] + roots)
        },
    }
}

/// Compiling terms left to right: their roots and the state after.
pub open spec fn args_step(m: Model, ts: Seq<Term>) -> (Model, Seq<u32>)
    decreases ts,
{
    if ts.len() == 0 {
        (m, Seq::empty())
    } else {
        let (m1, roots) = args_step(m, ts.drop_last());
        let (m2, r) = term_step(m1, ts[ts.len() - 1]);
        (m2, roots.push(r))
    }
}

/// Adding a node of tag `tag` with an edge to `l` and then one to `r`.
pub open spec fn binary_step(m: Model, tag: NodeType, l: u32, r: u32) -> (Model, u32) {
    let n = m.nodes.len() as u32;
    (Model { nodes: m.nodes.push(tag), edges: m.edges.push((n, l)).push((n, r)), ..m }, n)
}

/// Compiling an atom.
pub open spec fn atom_step(m: Model, a: Atom) -> (Model, u32) {
    match a {
        Atom::Predicate(t) => term_step(m, t),
        Atom::Equality(x, y) => {
            let (m1, l) = term_step(m, x);
            let (m2, r) = term_step(m1, y);
            binary_step(m2, NodeType::Equality, l, r)
        },
    }
}

/// Compiling a literal.
pub open spec fn literal_step(m: Model, l: Literal) -> (Model, u32) {
    match l {
        Literal::Atomic(a) => atom_step(m, a),
        Literal::Negated(a) => {
            let (m1, inner) = atom_step(m, a);
            let n = m1.nodes.len() as u32;
            (Model { nodes: m1.nodes.push(NodeType::Negation), edges: m1.edges.push((n, inner)), ..m1 }, n)
        },
        Literal::Disequality(x, y) => {
            let (m1, l) = term_step(m, x);
            let (m2, r) = term_step(m1, y);
            binary_step(m2, NodeType::Disequality, l, r)
        },
    }
}

pub proof fn lemma_extends_trans(a: &GraphBuilder, b: &GraphBuilder, c: &GraphBuilder)
    requires
        a.extends_in_clause(b),
        b.extends_in_clause(c),
    ensures
        a.extends_in_clause(c),
{
    lemma_extends_global_trans(a, b, c);
    assert forall|j: int| a.variables@.len() <= j < c.variables@.len()
        implies a.nodes().len() <= (#[trigger] c.variables@[j]).1 by {
        if j < b.variables@.len() {
            assert(c.variables@[j] == c.variables@.subrange(0, b.variables@.len() as int)[j]);
        }
    }
    assert(c.variables@.subrange(0, a.variables@.len() as int) =~= c.variables@.subrange(0, b.variables@.len() as int).subrange(0, a.variables@.len() as int));
}

pub proof fn lemma_extends_global_trans(a: &GraphBuilder, b: &GraphBuilder, c: &GraphBuilder)
    requires
        a.extends(b),
        b.extends(c),
    ensures
        a.extends(c),
{
    assert(c.nodes().subrange(0, a.nodes().len() as int) =~= c.nodes().subrange(0, b.nodes().len() as int).subrange(0, a.nodes().len() as int));
    assert(c.edges().subrange(0, a.edges().len() as int) =~= c.edges().subrange(0, b.edges().len() as int).subrange(0, a.edges().len() as int));
    assert(c.functors@.subrange(0, a.functors@.len() as int) =~= c.functors@.subrange(0, b.functors@.len() as int).subrange(0, a.functors@.len() as int));
    assert(c.terms@.subrange(0, a.terms@.len() as int) =~= c.terms@.subrange(0, b.terms@.len() as int).subrange(0, a.terms@.len() as int));
    assert forall|i: int| a.nodes().len() <= i < c.nodes().len() implies !crate::builder::is_marker(#[trigger] c.nodes()[i]) by {
        if i < b.nodes().len() {
            assert(c.nodes()[i] == c.nodes().subrange(0, b.nodes().len() as int)[i]);
        }
    }
}

pub proof fn lemma_terms_cost_step(s: Seq<Term>, i: int)
    requires
        0 <= i < s.len(),
    ensures
        terms_cost(s.subrange(0, i + 1)) == terms_cost(s.subrange(0, i)) + term_cost(s[i]),
{
    assert(s.subrange(0, i + 1).drop_last() =~= s.subrange(0, i));
}

impl GraphBuilder {
    /// Compiles a term and returns its root: a Variable node, a Functor node
    /// for a constant, or the shared Application node of an application.
    pub fn visit_term(&mut self, t: &Term) -> (r: u32)
        requires
            old(self).wf(),
            old(self).room(term_cost(*t)),
        ensures
            final(self).wf(),
            old(self).extends_in_clause(final(self)),
            old(self).grew_at_most(final(self), term_cost(*t)),
            (r as int) < final(self).nodes().len(),
            final(self).nodes()[r as int] == term_tag(*t),
            (final(self).model(), r) == term_step(old(self).model(), *t),
        decreases term_cost(*t),
    {
        match t {
            Term::Variable(name) => self.intern_variable(name),
            Term::Constant(name) => self.intern_functor(name),
            Term::Application(f, args) => {
                let ghost start = *self;
                let head = self.intern_functor(f);
                let ghost m1 = self.model();
                let mut sig: Vec<u32> = Vec::new();
                sig.push(head);
                let mut i: usize = 0;
                proof {
                    assert(args@.subrange(0, 0) =~= Seq::<Term>::empty());
                    assert(sig@.subrange(1, 1) =~= Seq::<u32>::empty());
                }
                while i < args.len()
                    invariant
                        i <= args.len(),
                        start.wf(),
                        start.room(term_cost(*t)),
                        term_cost(*t) == 4 + 3 * args@.len() + terms_cost(args@),
                        self.wf(),
                        start.extends_in_clause(self),
                        start.grew_at_most(self, 1 + terms_cost(args@.subrange(0, i as int))),
                        sig@.len() == i + 1,
                        forall|k: int| 0 <= k < sig@.len() ==> (#[trigger] sig@[k] as int) < self.nodes().len(),
                        intern_functor_step(start.model(), f@) == (m1, head),
                        sig@[0] == head,
                        args_step(m1, args@.subrange(0, i as int)) == (self.model(), sig@.subrange(1, i + 1)),
                    decreases args.len() - i,
                {
                    proof {
                        lemma_terms_cost_step(args@, i as int);
                        lemma_terms_cost_prefix(args@, i as int + 1);
                    }
                    let ghost before = *self;
                    let a = self.visit_term(&args[i]);
                    proof {
                        lemma_extends_trans(&start, &before, self);
                    }
                    sig.push(a);
                    proof {
                        assert(args@.subrange(0, i + 1).drop_last() =~= args@.subrange(0, i as int));
                        assert(sig@.subrange(1, i + 2) =~= sig@.subrange(1, i + 1).push(a));
                    }
                    i += 1;
                }
                proof {
                    assert(args@.subrange(0, args@.len() as int) =~= args@);
                    assert(sig@ =~= seq![head] + sig@.subrange(1, sig@.len() as int));
                }
                let ghost before = *self;
                let r = self.intern_term(sig);
                proof {
                    lemma_extends_trans(&start, &before, self);
                }
                r
            },
        }
    }
}

/// The last node of `b` is `r`, and the last two edges run from `r` to nodes
/// tagged `tl` and `tr`, in that order.
pub open spec fn binary_root(b: GraphBuilder, r: u32, tl: NodeType, tr: NodeType) -> bool {
    let e = b.edges();
    let n = b.nodes();
    &&& r as int == n.len() - 1
    &&& e.len() >= 2
    &&& e[e.len() - 2].0 == r
    &&& n[e[e.len() - 2].1 as int] == tl
    &&& e[e.len() - 1].0 == r
    &&& n[e[e.len() - 1].1 as int] == tr
}

impl GraphBuilder {
    /// Adds a node of tag `tag` with an edge to `left` and then one to `right`.
    fn add_binary(&mut self, tag: NodeType, left: u32, right: u32) -> (r: u32)
        requires
            old(self).wf(),
            old(self).room(3),
            (left as int) < old(self).nodes().len(),
            (right as int) < old(self).nodes().len(),
            !crate::builder::is_marker(tag),
        ensures
            final(self).wf(),
            old(self).extends_in_clause(final(self)),
            old(self).grew_at_most(final(self), 3),
            final(self).nodes() == old(self).nodes().push(tag),
            final(self).edges() == old(self).edges().push((r, left)).push((r, right)),
            r as int == old(self).nodes().len(),
            (final(self).model(), r) == binary_step(old(self).model(), tag, left, right),
    {
        let r = graph_add_node(&mut self.graph, tag);
        graph_add_edge(&mut self.graph, r, left);
        graph_add_edge(&mut self.graph, r, right);
        proof {
            assert(self.nodes().subrange(0, old(self).nodes().len() as int) =~= old(self).nodes());
            assert(self.edges().subrange(0, old(self).edges().len() as int) =~= old(self).edges());
            crate::builder::lemma_extends_refl(self);
        }
        r
    }

    /// Compiles an atom: a predicate application as a term, an equation as an
    /// Equality node with an edge to each side, left first.
    pub fn visit_atom(&mut self, a: &Atom) -> (r: u32)
        requires
            old(self).wf(),
            old(self).room(atom_cost(*a)),
        ensures
            final(self).wf(),
            old(self).extends_in_clause(final(self)),
            old(self).grew_at_most(final(self), atom_cost(*a)),
            (r as int) < final(self).nodes().len(),
            final(self).nodes()[r as int] == atom_tag(*a),
            match *a {
                Atom::Equality(x, y) => binary_root(*final(self), r, term_tag(x), term_tag(y)),
                _ => true,
            },
            (final(self).model(), r) == atom_step(old(self).model(), *a),
    {
        match a {
            Atom::Predicate(t) => self.visit_term(t),
            Atom::Equality(x, y) => {
                let ghost s0 = *self;
                let left = self.visit_term(x);
                let ghost s1 = *self;
                let right = self.visit_term(y);
                let ghost s2 = *self;
                proof {
                    assert(s2.nodes()[left as int] == s2.nodes().subrange(0, s1.nodes().len() as int)[left as int]);
                }
                let r = self.add_binary(NodeType::Equality, left, right);
                proof {
                    lemma_extends_trans(&s0, &s1, &s2);
                    lemma_extends_trans(&s0, &s2, self);
                }
                r
            },
        }
    }

    /// Compiles a literal: an atom as it is, a negated atom under a Negation
    /// node, an inequation as a Disequality node with an edge to each side.
    pub fn visit_literal(&mut self, l: &Literal) -> (r: u32)
        requires
            old(self).wf(),
            old(self).room(literal_cost(*l)),
        ensures
            final(self).wf(),
            old(self).extends_in_clause(final(self)),
            old(self).grew_at_most(final(self), literal_cost(*l)),
            (r as int) < final(self).nodes().len(),
            final(self).nodes()[r as int] == literal_tag(*l),
            match *l {
                Literal::Negated(a) => {
                    &&& r as int == final(self).nodes().len() - 1
                    &&& final(self).edges().last().0 == r
                    &&& final(self).nodes()[final(self).edges().last().1 as int] == atom_tag(a)
                    &&& final(self).edges().len() > 0
                },
                Literal::Disequality(x, y) => binary_root(*final(self), r, term_tag(x), term_tag(y)),
                Literal::Atomic(a) => match a {
                    Atom::Equality(x, y) => binary_root(*final(self), r, term_tag(x), term_tag(y)),
                    _ => true,
                },
            },
            (final(self).model(), r) == literal_step(old(self).model(), *l),
    {
        match l {
            Literal::Atomic(a) => self.visit_atom(a),
            Literal::Negated(a) => {
                let ghost s0 = *self;
                let inner = self.visit_atom(a);
                let ghost s1 = *self;
                let r = graph_add_node(&mut self.graph, NodeType::Negation);
                graph_add_edge(&mut self.graph, r, inner);
                proof {
                    assert(self.nodes().subrange(0, s1.nodes().len() as int) =~= s1.nodes());
                    assert(self.edges().subrange(0, s1.edges().len() as int) =~= s1.edges());
                    assert(self.nodes()[inner as int] == s1.nodes()[inner as int]);
                    crate::builder::lemma_extends_refl(self);
                    assert(s1.extends_in_clause(self));
                    lemma_extends_trans(&s0, &s1, self);
                }
                r
            },
            Literal::Disequality(x, y) => {
                let ghost s0 = *self;
                let left = self.visit_term(x);
                let ghost s1 = *self;
                let right = self.visit_term(y);
                let ghost s2 = *self;
                proof {
                    assert(s2.nodes()[left as int] == s2.nodes().subrange(0, s1.nodes().len() as int)[left as int]);
                }
                let r = self.add_binary(NodeType::Disequality, left, right);
                proof {
                    lemma_extends_trans(&s0, &s1, &s2);
                    lemma_extends_trans(&s0, &s2, self);
                }
                r
            },
        }
    }
}

/// The tag of a clause node: its role decides it.
pub open spec fn role_tag(r: Role) -> NodeType {
    match r {
        Role::NegatedConjecture => NodeType::NegatedConjecture,
        Role::Other => NodeType::Axiom,
    }
}

/// The last edges of `b` run from `r` to the roots of `lits`, one each, in
/// literal order.
pub open spec fn clause_edges(b: GraphBuilder, r: u32, lits: Seq<Literal>) -> bool {
    let e = b.edges();
    let n = lits.len();
    &&& e.len() >= n
    &&& forall|i: int| 0 <= i < n ==> {
        &&& (#[trigger] e[e.len() - n + i]).0 == r
        &&& b.nodes()[e[e.len() - n + i].1 as int] == literal_tag(lits[i])
    }
}

/// Compiling literals left to right: their roots and the state after.
pub open spec fn literals_step(m: Model, ls: Seq<Literal>) -> (Model, Seq<u32>)
    decreases ls.len(),
{
    if ls.len() == 0 {
        (m, Seq::empty())
    } else {
        let (m1, roots) = literals_step(m, ls.drop_last());
        let (m2, r) = literal_step(m1, ls[ls.len() - 1]);
        (m2, roots.push(r))
    }
}

/// Compiling a clause: in an empty variable scope, its literals, then the
/// clause node with an edge to each literal root in order.
pub open spec fn clause_step(m: Model, c: Clause) -> (Model, u32) {
    let m0 = Model { variables: Seq::empty(), ..m };
    let (m1, roots) = literals_step(m0, c.literals@);
    let r = m1.nodes.len() as u32;
    (Model {
        nodes: m1.nodes.push(role_tag(c.role)),
        edges: m1.edges + Seq::new(roots.len(), |i: int| (r, roots[i])),
        ..m1
    }, r)
}

proof fn lemma_literals_cost_step(s: Seq<Literal>, i: int)
    requires
        0 <= i < s.len(),
    ensures
        literals_cost(s.subrange(0, i + 1)) == literals_cost(s.subrange(0, i)) + literal_cost(s[i]) + 1,
{
    assert(s.subrange(0, i + 1).drop_last() =~= s.subrange(0, i));
}

proof fn lemma_literals_cost_prefix(s: Seq<Literal>, i: int)
    requires
        0 <= i <= s.len(),
    ensures
        literals_cost(s.subrange(0, i)) <= literals_cost(s),
    decreases s.len() - i,
{
    if i < s.len() {
        lemma_literals_cost_step(s, i);
        lemma_literals_cost_prefix(s, i + 1);
    } else {
        assert(s.subrange(0, i) =~= s);
    }
}

impl GraphBuilder {
    /// Compiles a clause in a fresh variable scope: its literals, then a clause
    /// node tagged by its role with an edge to each literal root, in order.
    pub fn visit_clause(&mut self, c: &Clause) -> (r: u32)
        requires
            old(self).wf(),
            old(self).room(clause_cost(*c)),
        ensures
            final(self).wf(),
            old(self).extends(final(self)),
            old(self).grew_at_most(final(self), clause_cost(*c)),
            r as int == final(self).nodes().len() - 1,
            final(self).nodes()[r as int] == role_tag(c.role),
            clause_edges(*final(self), r, c.literals@),
            forall|j: int| 0 <= j < final(self).variables@.len() ==> old(self).nodes().len() <= (#[trigger] final(self).variables@[j]).1,
            (final(self).model(), r) == clause_step(old(self).model(), *c),
    {
        let ghost s0 = *self;
        let ghost lits = c.literals@;
        self.variables = Vec::new();
        proof {
            crate::builder::lemma_extends_refl(self);
            assert(s0.extends(self));
            assert(lits.subrange(0, 0) =~= Seq::<Literal>::empty());
            assert(self.model() == (Model { variables: Seq::empty(), ..s0.model() })) by {
                assert(name_entries(self.variables@) =~= Seq::<(Seq<char>, u32)>::empty());
            }
        }
        let ghost m0 = self.model();
        let mut roots: Vec<u32> = Vec::new();
        let mut i: usize = 0;
        while i < c.literals.len()
            invariant
                lits == c.literals@,
                i <= lits.len(),
                s0.wf(),
                s0.room(clause_cost(*c)),
                self.wf(),
                s0.extends(self),
                self.nodes().len() + i <= s0.nodes().len() + literals_cost(lits.subrange(0, i as int)),
                self.edges().len() + i <= s0.edges().len() + literals_cost(lits.subrange(0, i as int)),
                roots@.len() == i,
                m0 == (Model { variables: Seq::empty(), ..s0.model() }),
                literals_step(m0, lits.subrange(0, i as int)) == (self.model(), roots@),
                forall|j: int| 0 <= j < self.variables@.len() ==> s0.nodes().len() <= (#[trigger] self.variables@[j]).1,
                forall|k: int| 0 <= k < i ==> (#[trigger] roots@[k] as int) < self.nodes().len()
                    && self.nodes()[roots@[k] as int] == literal_tag(lits[k]),
            decreases lits.len() - i,
        {
            proof {
                lemma_literals_cost_step(lits, i as int);
                lemma_literals_cost_prefix(lits, i as int + 1);
            }
            let ghost before = *self;
            let x = self.visit_literal(&c.literals[i]);
            proof {
                lemma_extends_global_trans(&s0, &before, self);
                assert forall|j: int| 0 <= j < self.variables@.len() implies s0.nodes().len() <= (#[trigger] self.variables@[j]).1 by {
                    if j < before.variables@.len() {
                        assert(self.variables@[j] == self.variables@.subrange(0, before.variables@.len() as int)[j]);
                    }
                }
                assert forall|k: int| 0 <= k < i implies self.nodes()[roots@[k] as int] == literal_tag(lits[k]) by {
                    assert(self.nodes()[roots@[k] as int] == self.nodes().subrange(0, before.nodes().len() as int)[roots@[k] as int]);
                }
            }
            roots.push(x);
            proof {
                assert(lits.subrange(0, i + 1).drop_last() =~= lits.subrange(0, i as int));
            }
            i += 1;
        }
        proof {
            assert(lits.subrange(0, lits.len() as int) =~= lits);
        }
        let ghost s1 = *self;
        let tag = match c.role {
            Role::NegatedConjecture => NodeType::NegatedConjecture,
            Role::Other => NodeType::Axiom,
        };
        let r = graph_add_node(&mut self.graph, tag);
        proof {
            assert(self.nodes().subrange(0, s1.nodes().len() as int) =~= s1.nodes());
            crate::builder::lemma_extends_refl(self);
            assert(s1.extends(self));
            lemma_extends_global_trans(&s0, &s1, self);
        }
        let ghost s2 = *self;
        let mut j: usize = 0;
        while j < roots.len()
            invariant
                j <= roots@.len(),
                roots@.len() == lits.len(),
                s0.wf(),
                s0.room(clause_cost(*c)),
                self.wf(),
                self.nodes() == s2.nodes(),
                self.functors@ == s2.functors@,
                self.variables@ == s2.variables@,
                self.terms@ == s2.terms@,
                s0.extends(&s2),
                (r as int) < self.nodes().len(),
                s2.edges().len() + lits.len() <= s0.edges().len() + clause_cost(*c),
                self.edges() == s2.edges() + Seq::new(j as nat, |k: int| (r, roots@[k])),
                forall|k: int| 0 <= k < lits.len() ==> (#[trigger] roots@[k] as int) < self.nodes().len()
                    && self.nodes()[roots@[k] as int] == literal_tag(lits[k]),
            decreases roots@.len() - j,
        {
            graph_add_edge(&mut self.graph, r, roots[j]);
            proof {
                assert(self.edges() =~= s2.edges() + Seq::new(j as nat + 1, |k: int| (r, roots@[k])));
            }
            j += 1;
        }
        proof {
            assert(self.edges() =~= s1.edges() + Seq::new(roots@.len(), |k: int| (r, roots@[k])));
            assert(self.edges().subrange(0, s2.edges().len() as int) =~= s2.edges());
            crate::builder::lemma_extends_refl(self);
            assert(s2.extends(self));
            lemma_extends_global_trans(&s0, &s2, self);
            let e = self.edges();
            let n = lits.len();
            assert forall|k: int| 0 <= k < n implies {
                &&& (#[trigger] e[e.len() - n + k]).0 == r
                &&& self.nodes()[e[e.len() - n + k].1 as int] == literal_tag(lits[k])
            } by {
                assert(e[e.len() - n + k] == (r, roots@[k]));
            }
        }
        r
    }
}

proof fn lemma_terms_cost_prefix(s: Seq<Term>, i: int)
    requires
        0 <= i <= s.len(),
    ensures
        terms_cost(s.subrange(0, i)) <= terms_cost(s),
    decreases s.len() - i,
{
    if i < s.len() {
        lemma_terms_cost_step(s, i);
        lemma_terms_cost_prefix(s, i + 1);
    } else {
        assert(s.subrange(0, i) =~= s);
    }
}

} // verus!
