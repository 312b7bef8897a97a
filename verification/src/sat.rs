//! A small, complete boolean satisfiability solver for CNF formulas.
//!
//! The resolver encodes a transaction as a conjunction of clauses over
//! one boolean variable per package. The solver's contract is exact in
//! both directions: a returned assignment satisfies every clause, and
//! `None` means that no assignment over the formula's variables does,
//! so unsatisfiability reported by the solver is definitive.

use vstd::prelude::*;

verus! {

/// A literal: a variable or its negation.
#[derive(Clone, Copy, PartialEq, Eq, Structural, Debug)]
pub struct Lit {
    /// Index of the variable, below the formula's variable count.
    pub var: usize,
    /// `true` for the variable itself, `false` for its negation.
    pub positive: bool,
}

/// A formula in conjunctive normal form: every clause must be satisfied.
#[derive(Debug)]
pub struct CnfFormula {
    /// Number of boolean variables; every literal's variable lies below
    /// this bound.
    pub num_vars: usize,
    /// The clauses; each clause is the disjunction of its literals.
    pub clauses: Vec<Vec<Lit>>,
}

/// Whether every literal of the formula speaks of a variable below the
/// formula's variable count.
pub open spec fn formula_wf(f: CnfFormula) -> bool {
    forall|i: int, k: int|
        0 <= i < f.clauses@.len() && 0 <= k < f.clauses@[i]@.len() ==> f.clauses@[i]@[k].var
            < f.num_vars
}

/// Whether assignment `a` makes literal `l` true.
pub open spec fn lit_satisfied(a: Seq<bool>, l: Lit) -> bool {
    if l.positive {
        a[l.var as int]
    } else {
        !a[l.var as int]
    }
}

/// Whether assignment `a` makes some literal of clause `c` true.
pub open spec fn clause_satisfied(a: Seq<bool>, c: Seq<Lit>) -> bool {
    exists|k: int| 0 <= k < c.len() && lit_satisfied(a, c[k])
}

/// Whether assignment `a` makes every clause of `f` true.
pub open spec fn formula_satisfied(a: Seq<bool>, f: CnfFormula) -> bool {
    forall|i: int| 0 <= i < f.clauses@.len() ==> clause_satisfied(a, f.clauses@[i]@)
}

/// Whether assignment `a` agrees with the shorter partial assignment `p`
/// on every variable `p` assigns.
pub open spec fn extends(a: Seq<bool>, p: Seq<bool>) -> bool {
    p.len() <= a.len() && a.subrange(0, p.len() as int) == p
}

fn eval_clause(a: &Vec<bool>, c: &Vec<Lit>) -> (b: bool)
    requires
        forall|k: int| 0 <= k < c@.len() ==> c@[k].var < a@.len(),
    ensures
        b == clause_satisfied(a@, c@),
{
    let mut k: usize = 0;
    while k < c.len()
        invariant
            0 <= k <= c@.len(),
            forall|k2: int| 0 <= k2 < c@.len() ==> c@[k2].var < a@.len(),
            forall|k2: int| 0 <= k2 < k ==> !lit_satisfied(a@, c@[k2]),
        decreases c@.len() - k,
    {
        let l = c[k];
        let value = a[l.var];
        if l.positive == value {
            proof {
                assert(lit_satisfied(a@, c@[k as int]));
            }
            return true;
        }
        k = k + 1;
    }
    false
}

fn eval_formula(f: &CnfFormula, a: &Vec<bool>) -> (b: bool)
    requires
        formula_wf(*f),
        a@.len() == f.num_vars,
    ensures
        b == formula_satisfied(a@, *f),
{
    let mut i: usize = 0;
    while i < f.clauses.len()
        invariant
            0 <= i <= f.clauses@.len(),
            formula_wf(*f),
            a@.len() == f.num_vars,
            forall|i2: int| 0 <= i2 < i ==> clause_satisfied(a@, f.clauses@[i2]@),
        decreases f.clauses@.len() - i,
    {
        if !eval_clause(a, &f.clauses[i]) {
            return false;
        }
        i = i + 1;
    }
    true
}

fn copy_assignment(v: &Vec<bool>) -> (out: Vec<bool>)
    ensures
        out@ == v@,
{
    let mut out: Vec<bool> = Vec::new();
    let mut i: usize = 0;
    while i < v.len()
        invariant
            0 <= i <= v@.len(),
            out@ == v@.subrange(0, i as int),
        decreases v@.len() - i,
    {
        out.push(v[i]);
        i = i + 1;
    }
    proof {
        assert(out@ =~= v@);
    }
    out
}

/// Exhaustive backtracking search over the unassigned suffix of the
/// variables. `None` guarantees that no completion of the given partial
/// assignment satisfies the formula.
fn search(f: &CnfFormula, partial: &mut Vec<bool>) -> (r: Option<Vec<bool>>)
    requires
        formula_wf(*f),
        old(partial)@.len() <= f.num_vars,
    ensures
        final(partial)@ == old(partial)@,
        match r {
            Option::Some(a) => a@.len() == f.num_vars && formula_satisfied(a@, *f) && extends(
                a@,
                old(partial)@,
            ),
            Option::None => forall|a: Seq<bool>|
                a.len() == f.num_vars && extends(a, old(partial)@) ==> !formula_satisfied(a, *f),
        },
    decreases f.num_vars - old(partial)@.len(),
{
    if partial.len() == f.num_vars {
        if eval_formula(f, partial) {
            let a = copy_assignment(partial);
            proof {
                assert(a@.subrange(0, a@.len() as int) =~= a@);
            }
            Option::Some(a)
        } else {
            proof {
                assert forall|a: Seq<bool>|
                    a.len() == f.num_vars && extends(a, partial@) implies !formula_satisfied(
                    a,
                    *f,
                ) by {
                    assert(a.subrange(0, a.len() as int) =~= a);
                    assert(a == partial@);
                }
            }
            Option::None
        }
    } else {
        let ghost p0 = partial@;
        partial.push(true);
        let r1 = search(f, partial);
        partial.pop();
        proof {
            assert(partial@ =~= p0);
        }
        match r1 {
            Option::Some(a) => {
                proof {
                    assert(a@.subrange(0, p0.len() as int) =~= p0.push(true).subrange(
                        0,
                        p0.len() as int,
                    ));
                    assert(p0.push(true).subrange(0, p0.len() as int) =~= p0);
                }
                Option::Some(a)
            },
            Option::None => {
                partial.push(false);
                let r2 = search(f, partial);
                partial.pop();
                proof {
                    assert(partial@ =~= p0);
                }
                match r2 {
                    Option::Some(a) => {
                        proof {
                            assert(a@.subrange(0, p0.len() as int) =~= p0.push(false).subrange(
                                0,
                                p0.len() as int,
                            ));
                            assert(p0.push(false).subrange(0, p0.len() as int) =~= p0);
                        }
                        Option::Some(a)
                    },
                    Option::None => {
                        proof {
                            assert forall|a: Seq<bool>|
                                a.len() == f.num_vars && extends(a, p0) implies !formula_satisfied(
                                a,
                                *f,
                            ) by {
                                let b = a[p0.len() as int];
                                assert(a.subrange(0, p0.len() as int + 1) =~= a.subrange(
                                    0,
                                    p0.len() as int,
                                ).push(b));
                                assert(extends(a, p0.push(b)));
                                if b {
                                    assert(!formula_satisfied(a, *f));
                                } else {
                                    assert(!formula_satisfied(a, *f));
                                }
                            }
                        }
                        Option::None
                    },
                }
            },
        }
    }
}

/// Search for an assignment satisfying the CNF formula `f`.
///
/// The search is complete: `Some` returns an assignment over exactly the
/// formula's variables that satisfies every clause, and `None` means no
/// assignment over those variables satisfies the formula.
pub fn solve(f: &CnfFormula) -> (r: Option<Vec<bool>>)
    requires
        formula_wf(*f),
    ensures
        match r {
            Option::Some(a) => a@.len() == f.num_vars && formula_satisfied(a@, *f),
            Option::None => forall|a: Seq<bool>|
                a.len() == f.num_vars ==> !formula_satisfied(a, *f),
        },
{
    let mut partial: Vec<bool> = Vec::new();
    let r = search(f, &mut partial);
    proof {
        if r is None {
            assert forall|a: Seq<bool>| a.len() == f.num_vars implies !formula_satisfied(
                a,
                *f,
            ) by {
                assert(a.subrange(0, 0) =~= Seq::<bool>::empty());
                assert(extends(a, Seq::<bool>::empty()));
            }
        }
    }
    r
}

} // verus!
