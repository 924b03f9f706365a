use crate::ast::{atom_cost, clause_cost, clauses_cost, literal_cost, literals_cost, term_cost, terms_cost, Atom, Clause, Literal, Term};
use crate::batch::MAX_BATCH_COST;
use crate::visitor::lemma_terms_cost_step;
use vstd::prelude::*;

verus! {

/// A cost, or one past the largest batch cost where it is larger.
pub open spec fn capped(n: nat) -> nat {
    if n <= MAX_BATCH_COST { n } else { (MAX_BATCH_COST + 1) as nat }
}

/// Adds two capped costs.
fn cap_add(a: u64, b: u64) -> (r: u64)
    requires
        a <= MAX_BATCH_COST + 1,
        b <= MAX_BATCH_COST + 1,
    ensures
        r == (if a + b > MAX_BATCH_COST { MAX_BATCH_COST + 1 } else { a + b }),
{
    if a + b > MAX_BATCH_COST {
        MAX_BATCH_COST + 1
    } else {
        a + b
    }
}

proof fn lemma_capped_add(x: nat, y: nat)
    ensures
        capped(x + y) as int == (if capped(x) + capped(y) > MAX_BATCH_COST {
            MAX_BATCH_COST + 1
        } else {
            (capped(x) + capped(y)) as int
        }),
{
}

/// Caps three times a length.
fn cap_triple(len: usize) -> (r: u64)
    ensures
        r == capped((3 * len) as nat),
{
    if len as u64 > MAX_BATCH_COST {
        MAX_BATCH_COST + 1
    } else {
        let m = 3 * (len as u64);
        if m > MAX_BATCH_COST {
            MAX_BATCH_COST + 1
        } else {
            m
        }
    }
}

proof fn lemma_term_cost_arg(s: Seq<Term>, i: int)
    requires
        0 <= i < s.len(),
    ensures
        term_cost(s[i]) <= terms_cost(s),
    decreases s.len(),
{
    if i < s.len() - 1 {
        lemma_term_cost_arg(s.drop_last(), i);
        assert(s.drop_last()[i] == s[i]);
    }
}

/// The capped cost of a term.
pub fn term_cost_capped(t: &Term) -> (r: u64)
    ensures
        r == capped(term_cost(*t)),
    decreases term_cost(*t),
{
    match t {
        Term::Variable(_) => 1,
        Term::Constant(_) => 1,
        Term::Application(_, args) => {
            let mut acc: u64 = 0;
            let mut i: usize = 0;
            proof {
                assert(args@.subrange(0, 0) =~= Seq::<Term>::empty());
            }
            while i < args.len()
                invariant
                    i <= args@.len(),
                    term_cost(*t) == 4 + 3 * args@.len() + terms_cost(args@),
                    acc == capped(terms_cost(args@.subrange(0, i as int))),
                decreases args@.len() - i,
            {
                proof {
                    lemma_terms_cost_step(args@, i as int);
                    lemma_term_cost_arg(args@, i as int);
                }
                let c = term_cost_capped(&args[i]);
                proof {
                    lemma_capped_add(terms_cost(args@.subrange(0, i as int)), term_cost(args@[i as int]));
                }
                acc = cap_add(acc, c);
                i += 1;
            }
            proof {
                assert(args@.subrange(0, args@.len() as int) =~= args@);
            }
            let s = cap_triple(args.len());
            proof {
                lemma_capped_add(4, 3 * args@.len());
                lemma_capped_add(4 + 3 * args@.len(), terms_cost(args@));
            }
            cap_add(cap_add(4, s), acc)
        },
    }
}

fn atom_cost_capped(a: &Atom) -> (r: u64)
    ensures
        r == capped(atom_cost(*a)),
{
    match a {
        Atom::Predicate(t) => term_cost_capped(t),
        Atom::Equality(x, y) => {
            proof {
                lemma_capped_add(term_cost(*x), term_cost(*y));
                lemma_capped_add(term_cost(*x) + term_cost(*y), 3);
            }
            cap_add(cap_add(term_cost_capped(x), term_cost_capped(y)), 3)
        },
    }
}

fn literal_cost_capped(l: &Literal) -> (r: u64)
    ensures
        r == capped(literal_cost(*l)),
{
    match l {
        Literal::Atomic(a) => atom_cost_capped(a),
        Literal::Negated(a) => {
            proof {
                lemma_capped_add(atom_cost(*a), 2);
            }
            cap_add(atom_cost_capped(a), 2)
        },
        Literal::Disequality(x, y) => {
            proof {
                lemma_capped_add(term_cost(*x), term_cost(*y));
                lemma_capped_add(term_cost(*x) + term_cost(*y), 3);
            }
            cap_add(cap_add(term_cost_capped(x), term_cost_capped(y)), 3)
        },
    }
}

fn clause_cost_capped(c: &Clause) -> (r: u64)
    ensures
        r == capped(clause_cost(*c)),
{
    let ls = &c.literals;
    let mut acc: u64 = 0;
    let mut i: usize = 0;
    proof {
        assert(ls@.subrange(0, 0) =~= Seq::<Literal>::empty());
    }
    while i < ls.len()
        invariant
            i <= ls@.len(),
            acc == capped(literals_cost(ls@.subrange(0, i as int))),
        decreases ls@.len() - i,
    {
        proof {
            assert(ls@.subrange(0, i + 1).drop_last() =~= ls@.subrange(0, i as int));
        }
        proof {
            let x = literals_cost(ls@.subrange(0, i as int));
            lemma_capped_add(x, literal_cost(ls@[i as int]));
            lemma_capped_add(x + literal_cost(ls@[i as int]), 1);
        }
        acc = cap_add(cap_add(acc, literal_cost_capped(&ls[i])), 1);
        i += 1;
    }
    proof {
        assert(ls@.subrange(0, ls@.len() as int) =~= ls@);
        lemma_capped_add(literals_cost(ls@), 1);
    }
    cap_add(acc, 1)
}

/// The capped cost of a list of clauses with their markers.
pub fn clauses_cost_capped(cs: &Vec<Clause>) -> (r: u64)
    ensures
        r == capped(clauses_cost(cs@)),
{
    let mut acc: u64 = 0;
    let mut i: usize = 0;
    proof {
        assert(cs@.subrange(0, 0) =~= Seq::<Clause>::empty());
    }
    while i < cs.len()
        invariant
            i <= cs@.len(),
            acc == capped(clauses_cost(cs@.subrange(0, i as int))),
        decreases cs@.len() - i,
    {
        proof {
            assert(cs@.subrange(0, i + 1).drop_last() =~= cs@.subrange(0, i as int));
        }
        proof {
            let x = clauses_cost(cs@.subrange(0, i as int));
            lemma_capped_add(x, clause_cost(cs@[i as int]));
            lemma_capped_add(x + clause_cost(cs@[i as int]), 1);
        }
        acc = cap_add(cap_add(acc, clause_cost_capped(&cs[i])), 1);
        i += 1;
    }
    proof {
        assert(cs@.subrange(0, cs@.len() as int) =~= cs@);
    }
    acc
}

} // verus!
