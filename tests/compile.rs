use clause_graph::ast::{role_from_word, Atom, Clause, Literal, Role, Term};
use clause_graph::batch::{compile_batch, compile_checked, CompiledBatch};
use clause_graph::cost::term_cost_capped;
use clause_graph::builder::GraphBuilder;
use clause_graph::graph::NodeType;

fn var(name: &str) -> Term {
    Term::Variable(name.to_string())
}

fn cst(name: &str) -> Term {
    Term::Constant(name.to_string())
}

fn app(f: &str, args: Vec<Term>) -> Term {
    Term::Application(f.to_string(), args)
}

fn pred(t: Term) -> Literal {
    Literal::Atomic(Atom::Predicate(t))
}

fn plain(literals: Vec<Literal>) -> Clause {
    Clause { role: Role::Other, literals }
}

fn count(b: &CompiledBatch, code: i64) -> usize {
    b.node_types.iter().filter(|&&c| c == code).count()
}

fn edges(b: &CompiledBatch) -> Vec<(i64, i64)> {
    b.edge_sources.iter().cloned().zip(b.edge_targets.iter().cloned()).collect()
}

const VARIABLE: i64 = 0;
const FUNCTOR: i64 = 1;
const ARGUMENT: i64 = 2;
const APPLICATION: i64 = 3;
const EQUALITY: i64 = 4;
const DISEQUALITY: i64 = 5;
const NEGATION: i64 = 6;
const AXIOM: i64 = 7;
const NEGATED_CONJECTURE: i64 = 8;
const SELECTED: i64 = 9;
const ACTION: i64 = 10;

#[test]
fn node_type_codes_follow_declaration_order() {
    assert_eq!(NodeType::Variable.code(), 0);
    assert_eq!(NodeType::Application.code(), 3);
    assert_eq!(NodeType::NegatedConjecture.code(), 8);
    assert_eq!(NodeType::Action.code(), 10);
}

#[test]
fn single_selected_clause_end_to_end() {
    let clause = plain(vec![pred(app("p", vec![var("X")])), pred(app("q", vec![cst("a")]))]);
    let b = compile_batch(&vec![clause], &vec![]);
    assert_eq!(
        b.node_types,
        vec![FUNCTOR, VARIABLE, ARGUMENT, APPLICATION, FUNCTOR, FUNCTOR, ARGUMENT, APPLICATION, AXIOM, SELECTED]
    );
    let mut expected = vec![(2, 1), (3, 0), (3, 2), (6, 5), (7, 4), (7, 6), (8, 3), (8, 7), (9, 8)];
    for i in 0..10 {
        expected.push((i, i));
    }
    assert_eq!(edges(&b), expected);
    assert!(b.action_indices.is_empty());
    assert_eq!(count(&b, VARIABLE), 1);
    assert_eq!(count(&b, AXIOM), 1);
    assert_eq!(count(&b, SELECTED), 1);
}

#[test]
fn compiling_twice_gives_identical_arrays() {
    let make = || {
        (
            vec![plain(vec![pred(app("p", vec![var("X"), app("f", vec![cst("a"), var("Y")])]))])],
            vec![
                Clause { role: Role::NegatedConjecture, literals: vec![Literal::Negated(Atom::Predicate(app("p", vec![cst("a"), cst("b")])))] },
                plain(vec![Literal::Disequality(var("Z"), cst("c"))]),
            ],
        )
    };
    let (s1, a1) = make();
    let (s2, a2) = make();
    let b1 = compile_batch(&s1, &a1);
    let b2 = compile_batch(&s2, &a2);
    assert_eq!(b1.node_types, b2.node_types);
    assert_eq!(b1.edge_sources, b2.edge_sources);
    assert_eq!(b1.edge_targets, b2.edge_targets);
    assert_eq!(b1.action_indices, b2.action_indices);
}

#[test]
fn same_variable_in_two_clauses_gives_two_nodes() {
    let c1 = plain(vec![pred(app("p", vec![var("X")]))]);
    let c2 = plain(vec![pred(app("q", vec![var("X")]))]);
    let b = compile_batch(&vec![c1, c2], &vec![]);
    assert_eq!(count(&b, VARIABLE), 2);
}

#[test]
fn same_variable_twice_in_one_clause_gives_one_node() {
    let c = plain(vec![pred(app("p", vec![var("X")])), pred(app("q", vec![var("X")]))]);
    let b = compile_batch(&vec![c], &vec![]);
    assert_eq!(count(&b, VARIABLE), 1);
    let x = b.node_types.iter().position(|&t| t == VARIABLE).unwrap() as i64;
    let incoming = edges(&b).iter().filter(|&&(s, t)| t == x && s != x).count();
    assert_eq!(incoming, 2);
}

#[test]
fn shared_application_across_clauses_is_one_node() {
    let fab = || app("f", vec![cst("a"), cst("b")]);
    let c1 = plain(vec![pred(app("p", vec![fab()]))]);
    let c2 = plain(vec![pred(app("q", vec![fab()]))]);
    let b = compile_batch(&vec![c1], &vec![c2]);
    // p(..), q(..) and a single f(a,b)
    assert_eq!(count(&b, APPLICATION), 3);
    // f, a, b, p, q
    assert_eq!(count(&b, FUNCTOR), 5);
}

#[test]
fn application_encodes_arity_with_argument_chain() {
    let mut g = GraphBuilder::new();
    let f = g.intern_functor(&"g".to_string());
    let a = g.intern_functor(&"a".to_string());
    let b = g.intern_functor(&"b".to_string());
    let c = g.intern_functor(&"c".to_string());
    let r = g.intern_term(vec![f, a, b, c]);
    assert_eq!(r, 7);
    let (nodes, sources, targets) = g.flatten();
    assert_eq!(nodes, vec![FUNCTOR, FUNCTOR, FUNCTOR, FUNCTOR, ARGUMENT, ARGUMENT, ARGUMENT, APPLICATION]);
    let e: Vec<(i64, i64)> = sources.into_iter().zip(targets).collect();
    assert_eq!(e, vec![(4, 1), (5, 2), (6, 3), (7, 0), (7, 4), (4, 5), (5, 6)]);
}

#[test]
fn repeated_signature_hits_the_cache() {
    let mut g = GraphBuilder::new();
    let f = g.intern_functor(&"f".to_string());
    let a = g.intern_functor(&"a".to_string());
    let r1 = g.intern_term(vec![f, a]);
    let r2 = g.intern_term(vec![f, a]);
    assert_eq!(r1, r2);
    let (nodes, sources, _) = g.flatten();
    assert_eq!(nodes.len(), 4);
    assert_eq!(sources.len(), 3);
}

#[test]
fn application_without_arguments_has_no_argument_nodes() {
    let mut g = GraphBuilder::new();
    let f = g.intern_functor(&"f".to_string());
    let r = g.intern_term(vec![f]);
    assert_eq!(r, 1);
    let (nodes, sources, targets) = g.flatten();
    assert_eq!(nodes, vec![FUNCTOR, APPLICATION]);
    assert_eq!(sources, vec![1]);
    assert_eq!(targets, vec![0]);
}

#[test]
fn variable_interning_is_scoped() {
    let mut g = GraphBuilder::new();
    let x1 = g.intern_variable(&"X".to_string());
    let x2 = g.intern_variable(&"X".to_string());
    let y = g.intern_variable(&"Y".to_string());
    assert_eq!(x1, x2);
    assert_ne!(x1, y);
    let root = g.visit_clause(&plain(vec![pred(app("p", vec![var("X")]))]));
    let (nodes, _, _) = g.flatten();
    assert_eq!(count_in(&nodes, VARIABLE), 3);
    assert_eq!(nodes[root as usize], AXIOM);
}

fn count_in(v: &[i64], code: i64) -> usize {
    v.iter().filter(|&&c| c == code).count()
}

#[test]
fn negated_conjecture_role_is_tagged() {
    let c = Clause { role: Role::NegatedConjecture, literals: vec![pred(cst("p"))] };
    let b = compile_batch(&vec![c], &vec![plain(vec![pred(cst("q"))])]);
    assert_eq!(b.node_types, vec![FUNCTOR, NEGATED_CONJECTURE, SELECTED, FUNCTOR, AXIOM, ACTION]);
    assert_eq!(count(&b, NEGATED_CONJECTURE), 1);
    assert_eq!(count(&b, AXIOM), 1);
}

#[test]
fn markers_match_input_lists() {
    let sel = vec![plain(vec![pred(cst("p"))]), plain(vec![pred(cst("q"))])];
    let act = vec![plain(vec![pred(cst("r"))]), plain(vec![pred(cst("p"))]), plain(vec![pred(cst("s"))])];
    let b = compile_batch(&sel, &act);
    assert_eq!(count(&b, SELECTED), 2);
    assert_eq!(count(&b, ACTION), 3);
    assert_eq!(b.action_indices.len(), 3);
    for w in b.action_indices.windows(2) {
        assert!(w[0] < w[1]);
    }
    for &i in &b.action_indices {
        assert_eq!(b.node_types[i as usize], ACTION);
        let target = edges(&b).iter().find(|&&(s, t)| s == i && t != i).unwrap().1;
        assert_eq!(b.node_types[target as usize], AXIOM);
    }
    // p is shared: functors p, q, r, s
    assert_eq!(count(&b, FUNCTOR), 4);
}

#[test]
fn every_node_gets_a_self_loop() {
    let c = plain(vec![pred(app("p", vec![var("X"), app("f", vec![var("X")])]))]);
    let b = compile_batch(&vec![c], &vec![plain(vec![pred(cst("q"))])]);
    let e = edges(&b);
    for i in 0..b.node_types.len() as i64 {
        assert!(e.contains(&(i, i)));
    }
    let n = b.node_types.len();
    let m = e.len();
    for i in 0..n {
        assert_eq!(e[m - n + i], (i as i64, i as i64));
    }
}

#[test]
fn equality_and_disequality_and_negation_literals() {
    let c = plain(vec![
        Literal::Atomic(Atom::Equality(var("X"), cst("a"))),
        Literal::Disequality(cst("a"), var("X")),
        Literal::Negated(Atom::Predicate(cst("p"))),
    ]);
    let b = compile_batch(&vec![c], &vec![]);
    assert_eq!(
        b.node_types,
        vec![VARIABLE, FUNCTOR, EQUALITY, DISEQUALITY, FUNCTOR, NEGATION, AXIOM, SELECTED]
    );
    let expected_prefix = vec![(2, 0), (2, 1), (3, 1), (3, 0), (5, 4), (6, 2), (6, 3), (6, 5), (7, 6)];
    assert_eq!(edges(&b)[..9].to_vec(), expected_prefix);
}

#[test]
fn empty_batch_gives_empty_graph() {
    let b = compile_batch(&vec![], &vec![]);
    assert!(b.node_types.is_empty());
    assert!(b.edge_sources.is_empty());
    assert!(b.edge_targets.is_empty());
    assert!(b.action_indices.is_empty());
}

#[test]
fn empty_clause_has_only_its_node_and_marker() {
    let b = compile_batch(&vec![], &vec![plain(vec![])]);
    assert_eq!(b.node_types, vec![AXIOM, ACTION]);
    assert_eq!(edges(&b), vec![(1, 0), (0, 0), (1, 1)]);
    assert_eq!(b.action_indices, vec![1]);
}

#[test]
fn role_words_are_decoded() {
    assert!(role_from_word(&"negated_conjecture".to_string()) == Role::NegatedConjecture);
    assert!(role_from_word(&"axiom".to_string()) == Role::Other);
    assert!(role_from_word(&"negated_conjecture_x".to_string()) == Role::Other);
    assert!(role_from_word(&"".to_string()) == Role::Other);
}

#[test]
fn checked_compile_matches_plain_compile() {
    let sel = vec![plain(vec![pred(app("p", vec![var("X"), cst("a")]))])];
    let act = vec![plain(vec![Literal::Disequality(var("X"), cst("a"))])];
    let b1 = compile_checked(&sel, &act).unwrap();
    let b2 = compile_batch(&sel, &act);
    assert_eq!(b1.node_types, b2.node_types);
    assert_eq!(b1.edge_sources, b2.edge_sources);
    assert_eq!(b1.edge_targets, b2.edge_targets);
    assert_eq!(b1.action_indices, b2.action_indices);
}

#[test]
fn term_cost_counts_arguments() {
    assert_eq!(term_cost_capped(&var("X")), 1);
    assert_eq!(term_cost_capped(&cst("a")), 1);
    // 4 + 3 * 2 + 1 + 1
    assert_eq!(term_cost_capped(&app("f", vec![var("X"), cst("a")])), 12);
    // 4 + 3 * 1 + 12
    assert_eq!(term_cost_capped(&app("g", vec![app("f", vec![var("X"), cst("a")])])), 19);
}
