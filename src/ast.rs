use vstd::prelude::*;

verus! {

/// A first-order term.
pub enum Term {
    /// A variable occurrence, by name; names are scoped to one clause.
    Variable(String),
    /// A constant symbol.
    Constant(String),
    /// A function symbol applied to its arguments, in order.
    Application(String, Vec<Term>),
}

/// An atomic formula.
pub enum Atom {
    /// A predicate applied to terms, written as a term.
    Predicate(Term),
    /// An equation between two terms.
    Equality(Term, Term),
}

/// A literal of a clause.
pub enum Literal {
    Atomic(Atom),
    Negated(Atom),
    /// An inequation between two terms.
    Disequality(Term, Term),
}

/// The role annotation of a clause; only the negated conjecture is told apart.
#[derive(Debug, Clone, Copy, PartialEq, Eq, Structural)]
pub enum Role {
    NegatedConjecture,
    Other,
}

/// The role that a role word of the input names: only `negated_conjecture`
/// is told apart.
pub fn role_from_word(word: &String) -> (r: Role)
    ensures
        r == (if word@ == "negated_conjecture"@ { Role::NegatedConjecture } else { Role::Other }),
{
    let target: String = "negated_conjecture".to_owned();
    if *word == target {
        Role::NegatedConjecture
    } else {
        Role::Other
    }
}

/// A clause: a disjunction of literals with its role.
pub struct Clause {
    pub role: Role,
    pub literals: Vec<Literal>,
}

/// An upper bound on the nodes, and on the edges, that compiling a term adds.
pub open spec fn term_cost(t: Term) -> nat
    decreases t,
{
    match t {
        Term::Variable(_) => 1,
        Term::Constant(_) => 1,
        Term::Application(_, args) => 4 + 3 * args@.len() + terms_cost(args@),
    }
}

/// The summed cost of a sequence of terms.
pub open spec fn terms_cost(ts: Seq<Term>) -> nat
    decreases ts,
{
    if ts.len() == 0 {
        0
    } else {
        terms_cost(ts.drop_last()) + term_cost(ts[ts.len() - 1])
    }
}

pub open spec fn atom_cost(a: Atom) -> nat {
    match a {
        Atom::Predicate(t) => term_cost(t),
        Atom::Equality(l, r) => term_cost(l) + term_cost(r) + 3,
    }
}

pub open spec fn literal_cost(l: Literal) -> nat {
    match l {
        Literal::Atomic(a) => atom_cost(a),
        Literal::Negated(a) => atom_cost(a) + 2,
        Literal::Disequality(x, y) => term_cost(x) + term_cost(y) + 3,
    }
}

pub open spec fn literals_cost(ls: Seq<Literal>) -> nat
    decreases ls.len(),
{
    if ls.len() == 0 {
        0
    } else {
        literals_cost(ls.drop_last()) + literal_cost(ls[ls.len() - 1]) + 1
    }
}

pub open spec fn clause_cost(c: Clause) -> nat {
    literals_cost(c.literals@) + 1
}

/// The summed cost of clauses, each with its marker node and edge.
pub open spec fn clauses_cost(cs: Seq<Clause>) -> nat
    decreases cs.len(),
{
    if cs.len() == 0 {
        0
    } else {
        clauses_cost(cs.drop_last()) + clause_cost(cs[cs.len() - 1]) + 1
    }
}

} // verus!
