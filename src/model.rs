use vstd::prelude::*;

verus! {

/// A literal: a variable (1-based) and its polarity (`true` when unnegated).
pub type Lit = (u16, bool);

/// One entry of the assignment trail.
#[derive(Clone, Copy, Debug, PartialEq, Eq)]
pub struct Node {
    /// The variable assigned.
    pub literal: u16,
    /// The value given to it.
    pub value: bool,
    /// `true` for a decision of the search, `false` for an implication.
    pub picked: bool,
}

/// Errors reported to callers.
#[derive(Clone, Copy, Debug, PartialEq, Eq)]
pub enum SolverError {
    /// The input is not a well-formed clause list.
    MalformedInput,
    /// A trail entry was pushed for a variable that already has a value.
    DoubleAssignment,
}

/// What a round of unit propagation ended with.
#[derive(Clone, Copy, Debug, PartialEq, Eq)]
pub enum Propagation {
    /// No clause is unit or falsified any more.
    Fixpoint,
    /// The clause with this index has all its literals falsified.
    Conflict(usize),
}

/// The result of a search.
#[derive(Clone, Debug, PartialEq, Eq)]
pub enum SearchOutcome {
    /// A model: entry `i` is the value of variable `i + 1`.
    Satisfied(Vec<bool>),
    /// No assignment satisfies every clause.
    Unsatisfiable,
}

/// The solver's state: clause store, occurrence index, value table and trail.
#[derive(Clone, Debug)]
pub struct Solver {
    /// The clauses, each a sequence of literals.
    pub clauses: Vec<Vec<Lit>>,
    /// Per clause, how many of its literals are not falsified.
    pub n_not_falses: Vec<usize>,
    /// Per variable, the indices of the clauses that mention it, ascending.
    pub literal_clauses: Vec<Vec<usize>>,
    /// Per variable, its current value; index 0 is never used.
    pub literal_values: Vec<Option<bool>>,
    /// The assignment trail, oldest entry first.
    pub tree: Vec<Node>,
    /// How many trail entries propagation has already examined.
    pub propagated: usize,
}

pub open spec fn lit_satisfied(l: Lit, vals: Seq<Option<bool>>) -> bool {
    vals[l.0 as int] == Some(l.1)
}

pub open spec fn lit_falsified(l: Lit, vals: Seq<Option<bool>>) -> bool {
    vals[l.0 as int] == Some(!l.1)
}

/// The number of literals of `c` that `vals` does not falsify.
pub open spec fn live_count(c: Seq<Lit>, vals: Seq<Option<bool>>) -> nat
    decreases c.len(),
{
    if c.len() == 0 {
        0
    } else {
        live_count(c.drop_last(), vals) + if lit_falsified(c.last(), vals) {
            0nat
        } else {
            1nat
        }
    }
}

pub open spec fn clause_satisfied(c: Seq<Lit>, vals: Seq<Option<bool>>) -> bool {
    exists|j: int| 0 <= j < c.len() && lit_satisfied(#[trigger] c[j], vals)
}

pub open spec fn clause_has_var(c: Seq<Lit>, v: int) -> bool {
    exists|j: int| 0 <= j < c.len() && (#[trigger] c[j]).0 == v
}

/// Some entry of `t` gives the variable of `l` the opposite value.
pub open spec fn falsified_by(t: Seq<Node>, l: Lit) -> bool {
    exists|i: int| 0 <= i < t.len() && (#[trigger] t[i]).literal == l.0 && t[i].value != l.1
}

/// Every literal of `c` is falsified by some entry of `t`.
pub open spec fn clause_falsified_by(t: Seq<Node>, c: Seq<Lit>) -> bool {
    forall|j: int| 0 <= j < c.len() ==> falsified_by(t, #[trigger] c[j])
}

/// `m[v - 1]` is the value of variable `v` in a full assignment `m`.
pub open spec fn lit_true_in(l: Lit, m: Seq<bool>) -> bool {
    m[l.0 - 1] == l.1
}

pub open spec fn clause_true_in(c: Seq<Lit>, m: Seq<bool>) -> bool {
    exists|j: int| 0 <= j < c.len() && lit_true_in(#[trigger] c[j], m)
}

/// `m` gives a value to each of the `n` variables and satisfies every clause of `f`.
pub open spec fn is_model(f: Seq<Seq<Lit>>, n: nat, m: Seq<bool>) -> bool {
    &&& m.len() == n
    &&& forall|c: int| 0 <= c < f.len() ==> clause_true_in(#[trigger] f[c], m)
}

/// `a` is greater than `b` in the order that compares variable 1 first and ranks `true` above `false`.
pub open spec fn lex_greater(a: Seq<bool>, b: Seq<bool>) -> bool {
    exists|u: int|
        0 <= u < a.len() && u < b.len() && #[trigger] a[u] && !b[u] && forall|i: int|
            0 <= i < u ==> a[i] == b[i]
}

impl Solver {
    /// The formula as a sequence of literal sequences.
    pub open spec fn formula(self) -> Seq<Seq<Lit>> {
        self.clauses@.map_values(|c: Vec<Lit>| c@)
    }

    /// The number of variables; variables are `1..=num_vars()`.
    pub open spec fn num_vars(self) -> nat {
        (self.literal_values@.len() - 1) as nat
    }

    pub open spec fn clauses_ok(self) -> bool {
        &&& self.clauses@.len() <= usize::MAX
        &&& forall|c: int| 0 <= c < self.clauses@.len() ==> #[trigger] self.clauses@[c]@.len() > 0
        &&& forall|c: int, j: int|
            0 <= c < self.clauses@.len() && 0 <= j < self.clauses@[c]@.len() ==> 1
                <= (#[trigger] self.clauses@[c]@[j]).0 < self.literal_values@.len()
    }

    pub open spec fn index_ok(self) -> bool {
        &&& self.literal_clauses@.len() == self.literal_values@.len()
        &&& forall|v: int, k: int|
            0 <= v < self.literal_clauses@.len() && 0 <= k < self.literal_clauses@[v]@.len() ==> {
                let c = #[trigger] self.literal_clauses@[v]@[k];
                c < self.clauses@.len() && clause_has_var(self.clauses@[c as int]@, v)
            }
        &&& forall|v: int, k1: int, k2: int|
            0 <= v < self.literal_clauses@.len() && 0 <= k1 < k2 < self.literal_clauses@[v]@.len()
                ==> #[trigger] self.literal_clauses@[v]@[k1] < #[trigger] self.literal_clauses@[v]@[k2]
        &&& forall|c: int, j: int|
            0 <= c < self.clauses@.len() && 0 <= j < self.clauses@[c]@.len()
                ==> self.literal_clauses@[(#[trigger] self.clauses@[c]@[j]).0 as int]@.contains(c as usize)
    }

    pub open spec fn counts_ok(self) -> bool {
        &&& self.n_not_falses@.len() == self.clauses@.len()
        &&& forall|c: int|
            0 <= c < self.clauses@.len() ==> #[trigger] self.n_not_falses@[c] == live_count(
                self.clauses@[c]@,
                self.literal_values@,
            )
    }

    pub open spec fn trail_ok(self) -> bool {
        &&& forall|i: int|
            0 <= i < self.tree@.len() ==> {
                let e = #[trigger] self.tree@[i];
                &&& 1 <= e.literal < self.literal_values@.len()
                &&& self.literal_values@[e.literal as int] == Some(e.value)
            }
        &&& forall|i: int, j: int|
            0 <= i < j < self.tree@.len() ==> #[trigger] self.tree@[i].literal != #[trigger] self.tree@[j].literal
        &&& forall|v: int|
            0 <= v < self.literal_values@.len() && (#[trigger] self.literal_values@[v]).is_some()
                ==> exists|i: int| 0 <= i < self.tree@.len() && (#[trigger] self.tree@[i]).literal == v
    }

    /// No clause is falsified by the entries that propagation has examined.
    pub open spec fn queue_ok(self) -> bool {
        &&& self.propagated <= self.tree@.len()
        &&& forall|c: int|
            0 <= c < self.clauses@.len() ==> !clause_falsified_by(
                self.tree@.take(self.propagated as int),
                #[trigger] self.clauses@[c]@,
            )
    }

    /// The solver's invariant.
    pub open spec fn wf(self) -> bool {
        &&& 1 <= self.literal_values@.len() <= 65536
        &&& self.clauses_ok()
        &&& self.index_ok()
        &&& self.counts_ok()
        &&& self.trail_ok()
        &&& self.queue_ok()
    }

    /// The value the trail gives to `v`, if any.
    pub open spec fn value_of(self, v: int) -> Option<bool> {
        if exists|i: int| 0 <= i < self.tree@.len() && (#[trigger] self.tree@[i]).literal == v {
            let i = choose|i: int| 0 <= i < self.tree@.len() && (#[trigger] self.tree@[i]).literal == v;
            Some(self.tree@[i].value)
        } else {
            None
        }
    }

    /// An empty solver: no clauses, no variables, an empty trail.
    pub fn new() -> (r: Solver)
        ensures
            r.wf(),
            r.clauses@.len() == 0,
            r.num_vars() == 0,
            r.tree@.len() == 0,
    {
        Solver {
            clauses: Vec::new(),
            n_not_falses: Vec::new(),
            literal_clauses: vec![Vec::new()],
            literal_values: vec![None],
            tree: Vec::new(),
            propagated: 0,
        }
    }

    /// The current value of variable `literal`, or `None` when it has none
    /// (or is not a variable of the formula).
    pub fn literal_value(&self, literal: u16) -> (r: Option<bool>)
        requires
            self.wf(),
        ensures
            r == self.value_of(literal as int),
    {
        if (literal as usize) < self.literal_values.len() {
            let r = self.literal_values[literal as usize];
            proof {
                if r.is_some() {
                    let i = choose|i: int| 0 <= i < self.tree@.len() && (#[trigger] self.tree@[i]).literal == literal;
                    assert(self.tree@[i].literal == literal);
                }
                if exists|i: int| 0 <= i < self.tree@.len() && (#[trigger] self.tree@[i]).literal == literal {
                    let i = choose|i: int| 0 <= i < self.tree@.len() && (#[trigger] self.tree@[i]).literal == literal;
                    assert(self.tree@[i].literal == literal);
                }
            }
            r
        } else {
            proof {
                if exists|i: int| 0 <= i < self.tree@.len() && (#[trigger] self.tree@[i]).literal == literal {
                    let i = choose|i: int| 0 <= i < self.tree@.len() && (#[trigger] self.tree@[i]).literal == literal;
                    assert(self.tree@[i].literal == literal);
                }
            }
            None
        }
    }
}

impl Default for Solver {
    fn default() -> (r: Solver)
        ensures
            r.wf(),
            r.clauses@.len() == 0,
            r.num_vars() == 0,
            r.tree@.len() == 0,
    {
        Solver::new()
    }
}

} // verus!
