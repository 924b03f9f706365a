use crate::ast::{Clause, Term};
use crate::visitor::{args_step, term_step};
use crate::batch::{compiled_from, self_loops, CompiledBatch};
use crate::builder::{has_name, has_term, intern_functor_step, intern_term_step, lookup, name_maps, term_maps, GraphBuilder, Model};
use vstd::prelude::*;

verus! {

/// Within one clause a variable name stands for one node: once `name` maps to
/// `first` in the variable table, it maps to `first` and nothing else at every
/// later point of the same clause, so interning it again reuses that node.
pub proof fn law_variable_shared_in_clause(
    before: GraphBuilder,
    after: GraphBuilder,
    name: Seq<char>,
    first: u32,
    later: u32,
)
    requires
        before.wf(),
        after.wf(),
        before.extends_in_clause(&after),
        name_maps(before.variables@, name, first),
        name_maps(after.variables@, name, later),
    ensures
        has_name(after.variables@, name),
        later == first,
{
    let j = choose|j: int| 0 <= j < before.variables@.len() && (#[trigger] before.variables@[j]).0@ == name && before.variables@[j].1 == first;
    let k = choose|k: int| 0 <= k < after.variables@.len() && (#[trigger] after.variables@[k]).0@ == name && after.variables@[k].1 == later;
    assert(after.variables@[j] == after.variables@.subrange(0, before.variables@.len() as int)[j]);
    if j < k {
        assert(after.variables@[j].0@ != after.variables@[k].0@);
    } else if k < j {
        assert(after.variables@[k].0@ != after.variables@[j].0@);
    }
}

/// Variables do not cross clauses: every node in the variable table of a clause
/// compiled from `a_start` to `a_end` differs from every node in the variable
/// table of a later clause compiled from `b_start`, whatever their names.
pub proof fn law_variables_clause_local(
    a_start: GraphBuilder,
    a_end: GraphBuilder,
    b_start: GraphBuilder,
    b_end: GraphBuilder,
    i: int,
    j: int,
)
    requires
        a_end.wf(),
        a_end.extends(&b_start),
        forall|k: int| 0 <= k < a_end.variables@.len() ==> a_start.nodes().len() <= (#[trigger] a_end.variables@[k]).1,
        forall|k: int| 0 <= k < b_end.variables@.len() ==> b_start.nodes().len() <= (#[trigger] b_end.variables@[k]).1,
        0 <= i < a_end.variables@.len(),
        0 <= j < b_end.variables@.len(),
    ensures
        a_end.variables@[i].1 != b_end.variables@[j].1,
        a_end.variables@[i].1 < b_end.variables@[j].1,
{
    assert(a_end.variables@[i].1 < a_end.nodes().len());
    assert(b_start.nodes().len() <= b_end.variables@[j].1);
}

/// A function or constant symbol stands for one node in the whole batch: once
/// `name` maps to `first`, it maps to `first` and nothing else at every later
/// point of the batch.
pub proof fn law_functor_shared(before: GraphBuilder, after: GraphBuilder, name: Seq<char>, first: u32, later: u32)
    requires
        before.wf(),
        after.wf(),
        before.extends(&after),
        name_maps(before.functors@, name, first),
        name_maps(after.functors@, name, later),
    ensures
        has_name(after.functors@, name),
        later == first,
{
    let j = choose|j: int| 0 <= j < before.functors@.len() && (#[trigger] before.functors@[j]).0@ == name && before.functors@[j].1 == first;
    let k = choose|k: int| 0 <= k < after.functors@.len() && (#[trigger] after.functors@[k]).0@ == name && after.functors@[k].1 == later;
    assert(after.functors@[j] == after.functors@.subrange(0, before.functors@.len() as int)[j]);
    if j < k {
        assert(after.functors@[j].0@ != after.functors@[k].0@);
    } else if k < j {
        assert(after.functors@[k].0@ != after.functors@[j].0@);
    }
}

/// An application stands for one node in the whole batch: once the signature
/// `sig` (functor node, then argument roots) maps to `first` in the term cache,
/// it maps to `first` and nothing else at every later point of the batch, so
/// a repeated application adds no node.
pub proof fn law_application_shared(before: GraphBuilder, after: GraphBuilder, sig: Seq<u32>, first: u32, later: u32)
    requires
        before.wf(),
        after.wf(),
        before.extends(&after),
        term_maps(before.terms@, sig, first),
        term_maps(after.terms@, sig, later),
    ensures
        has_term(after.terms@, sig),
        later == first,
{
    let j = choose|j: int| 0 <= j < before.terms@.len() && (#[trigger] before.terms@[j]).0@ == sig && before.terms@[j].1 == first;
    let k = choose|k: int| 0 <= k < after.terms@.len() && (#[trigger] after.terms@[k]).0@ == sig && after.terms@[k].1 == later;
    assert(after.terms@[j] == after.terms@.subrange(0, before.terms@.len() as int)[j]);
    if j < k {
        assert(after.terms@[j].0@ != after.terms@[k].0@);
    } else if k < j {
        assert(after.terms@[k].0@ != after.terms@[j].0@);
    }
}

/// Compilation is deterministic: two batches compiled from the same selected
/// and action lists, each with fresh tables, hold identical arrays.
pub proof fn law_compile_deterministic(selected: Seq<Clause>, actions: Seq<Clause>, r1: CompiledBatch, r2: CompiledBatch)
    requires
        compiled_from(selected, actions, r1),
        compiled_from(selected, actions, r2),
    ensures
        r1.node_types@ == r2.node_types@,
        r1.edge_sources@ == r2.edge_sources@,
        r1.edge_targets@ == r2.edge_targets@,
        r1.action_indices@ == r2.action_indices@,
{
}

/// After closing, every node `i` of a graph with `n` nodes is the source and
/// the target of an edge: its own self-loop.
pub proof fn law_closure_reflexive(edges: Seq<(u32, u32)>, n: nat, i: int)
    requires
        n <= u32::MAX,
        0 <= i < n,
    ensures
        exists|e: int| 0 <= e < (edges + self_loops(n)).len() && #[trigger] (edges + self_loops(n))[e] == (i as u32, i as u32),
{
    let all = edges + self_loops(n);
    assert(all[edges.len() + i] == (i as u32, i as u32));
}

/// A term without variables.
pub open spec fn ground(t: Term) -> bool
    decreases t,
{
    match t {
        Term::Variable(_) => false,
        Term::Constant(_) => true,
        Term::Application(_, args) => all_ground(args@),
    }
}

pub open spec fn all_ground(ts: Seq<Term>) -> bool
    decreases ts,
{
    if ts.len() == 0 {
        true
    } else {
        all_ground(ts.drop_last()) && ground(ts[ts.len() - 1])
    }
}

pub open spec fn keys_unique<K>(s: Seq<(K, u32)>) -> bool {
    forall|j: int, k: int| 0 <= j < k < s.len() ==> (#[trigger] s[j]).0 != (#[trigger] s[k]).0
}

pub open spec fn prefix_of<K>(a: Seq<K>, b: Seq<K>) -> bool {
    &&& a.len() <= b.len()
    &&& forall|i: int| 0 <= i < a.len() ==> #[trigger] b[i] == a[i]
}

/// The batch-wide tables of `b` extend those of `a`.
pub open spec fn shared_grow(a: Model, b: Model) -> bool {
    prefix_of(a.functors, b.functors) && prefix_of(a.terms, b.terms)
}

proof fn lemma_lookup_stable<K>(a: Seq<(K, u32)>, b: Seq<(K, u32)>, k: K, v: u32)
    requires
        prefix_of(a, b),
        keys_unique(b),
        lookup(a, k) == Some(v),
    ensures
        lookup(b, k) == Some(v),
{
    let c = choose|j: int| 0 <= j < a.len() && (#[trigger] a[j]).0 == k;
    assert(b[c] == a[c]);
    assert(exists|j: int| 0 <= j < b.len() && (#[trigger] b[j]).0 == k);
    let d = choose|j: int| 0 <= j < b.len() && (#[trigger] b[j]).0 == k;
    if c < d {
        assert(b[c].0 != b[d].0);
    } else if d < c {
        assert(b[d].0 != b[c].0);
    }
}

proof fn lemma_lookup_push<K>(a: Seq<(K, u32)>, k: K, r: u32)
    requires
        lookup(a, k) is None,
    ensures
        lookup(a.push((k, r)), k) == Some(r),
{
    let b = a.push((k, r));
    assert(b[a.len() as int].0 == k);
    let d = choose|j: int| 0 <= j < b.len() && (#[trigger] b[j]).0 == k;
    if d < a.len() {
        assert(a[d].0 == k);
    }
}

proof fn lemma_term_grows(m: Model, t: Term)
    ensures
        shared_grow(m, term_step(m, t).0),
    decreases t,
{
    match t {
        Term::Application(f, args) => {
            let (m1, head) = intern_functor_step(m, f@);
            lemma_args_grow(m1, args@);
        },
        _ => {},
    }
}

proof fn lemma_args_grow(m: Model, ts: Seq<Term>)
    ensures
        shared_grow(m, args_step(m, ts).0),
    decreases ts,
{
    if ts.len() > 0 {
        lemma_args_grow(m, ts.drop_last());
        let (m1, roots) = args_step(m, ts.drop_last());
        lemma_term_grows(m1, ts[ts.len() - 1]);
    }
}

proof fn lemma_recompile_term(m0: Model, t: Term, m2: Model)
    requires
        ground(t),
        shared_grow(term_step(m0, t).0, m2),
        keys_unique(m2.functors),
        keys_unique(m2.terms),
    ensures
        term_step(m2, t) == (m2, term_step(m0, t).1),
    decreases t,
{
    match t {
        Term::Variable(_) => {},
        Term::Constant(name) => {
            if lookup(m0.functors, name@) is None {
                lemma_lookup_push(m0.functors, name@, m0.nodes.len() as u32);
            }
            lemma_lookup_stable(term_step(m0, t).0.functors, m2.functors, name@, term_step(m0, t).1);
        },
        Term::Application(f, args) => {
            let (ma, head) = intern_functor_step(m0, f@);
            let (mb, roots) = args_step(ma, args@);
            let sig = seq![head] + roots;
            let (m1, r) = intern_term_step(mb, sig);
            lemma_args_grow(ma, args@);
            if lookup(m0.functors, f@) is None {
                lemma_lookup_push(m0.functors, f@, m0.nodes.len() as u32);
            }
            lemma_lookup_stable(ma.functors, m2.functors, f@, head);
            lemma_recompile_args(ma, args@, m2);
            if lookup(mb.terms, sig) is None {
                lemma_lookup_push(mb.terms, sig, (mb.nodes.len() + sig.len() - 1) as u32);
            }
            lemma_lookup_stable(m1.terms, m2.terms, sig, r);
        },
    }
}

proof fn lemma_recompile_args(m0: Model, ts: Seq<Term>, m2: Model)
    requires
        all_ground(ts),
        shared_grow(args_step(m0, ts).0, m2),
        keys_unique(m2.functors),
        keys_unique(m2.terms),
    ensures
        args_step(m2, ts) == (m2, args_step(m0, ts).1),
    decreases ts,
{
    if ts.len() > 0 {
        let (m1, roots) = args_step(m0, ts.drop_last());
        lemma_term_grows(m1, ts[ts.len() - 1]);
        lemma_recompile_args(m0, ts.drop_last(), m2);
        lemma_recompile_term(m1, ts[ts.len() - 1], m2);
    }
}

/// A ground term has one node in the whole batch: compiling it again at any
/// later point (where the batch-wide tables have only grown) returns the node
/// it got the first time and adds no node, edge or table entry.
pub proof fn law_ground_term_shared(before: GraphBuilder, t: Term, first: GraphBuilder, r: u32, later: GraphBuilder)
    requires
        ground(t),
        (first.model(), r) == term_step(before.model(), t),
        first.extends(&later),
        later.wf(),
    ensures
        term_step(later.model(), t) == (later.model(), r),
{
    let a = first.model();
    let b = later.model();
    assert forall|i: int| 0 <= i < a.functors.len() implies #[trigger] b.functors[i] == a.functors[i] by {
        assert(later.functors@[i] == later.functors@.subrange(0, first.functors@.len() as int)[i]);
    }
    assert forall|i: int| 0 <= i < a.terms.len() implies #[trigger] b.terms[i] == a.terms[i] by {
        assert(later.terms@[i] == later.terms@.subrange(0, first.terms@.len() as int)[i]);
    }
    assert forall|j: int, k: int| 0 <= j < k < b.functors.len() implies (#[trigger] b.functors[j]).0 != (#[trigger] b.functors[k]).0 by {
        assert(later.functors@[j].0@ != later.functors@[k].0@);
    }
    assert forall|j: int, k: int| 0 <= j < k < b.terms.len() implies (#[trigger] b.terms[j]).0 != (#[trigger] b.terms[k]).0 by {
        assert(later.terms@[j].0@ != later.terms@[k].0@);
    }
    lemma_recompile_term(before.model(), t, b);
}

} // verus!
