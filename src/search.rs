use vstd::prelude::*;
use crate::model::{
    Lit, Node, Solver, Propagation, SearchOutcome, lit_falsified, clause_falsified_by, is_model, lit_true_in, clause_true_in, lex_greater,
};
use crate::counting::lemma_live_zero;
use crate::propagate::{agrees, agrees_upto, models_follow_trail, lemma_agree_falsified};

verus! {

pub open spec fn pow3(k: nat) -> nat
    decreases k,
{
    if k == 0 {
        1
    } else {
        3 * pow3((k - 1) as nat)
    }
}

/// An open decision counts 1, any other entry 2.
pub open spec fn digit(e: Node) -> nat {
    if e.picked && e.value {
        1
    } else {
        2
    }
}

/// The trail read as a base-3 numeral of `n` digits, oldest entry most
/// significant, missing entries 0. Every step of the search makes it grow.
pub open spec fn rank(t: Seq<Node>, n: nat) -> nat
    decreases t.len(),
{
    if t.len() == 0 {
        0
    } else {
        rank(t.drop_last(), n) + digit(t.last()) * pow3((n - t.len()) as nat)
    }
}

proof fn lemma_pow3_pos(k: nat)
    ensures
        pow3(k) >= 1,
    decreases k,
{
    if k > 0 {
        lemma_pow3_pos((k - 1) as nat);
    }
}

/// The entries after position `k` add less than one unit of digit `k - 1`.
proof fn lemma_rank_tail(t: Seq<Node>, k: int, n: nat)
    requires
        0 <= k <= t.len() <= n,
    ensures
        rank(t, n) + pow3((n - t.len()) as nat) <= rank(t.take(k), n) + pow3((n - k) as nat),
    decreases t.len() - k,
{
    if t.len() > k {
        let d = t.drop_last();
        lemma_rank_tail(d, k, n);
        assert(d.take(k) =~= t.take(k));
        assert(pow3((n - d.len()) as nat) == 3 * pow3((n - t.len()) as nat));
    } else {
        assert(t.take(k) =~= t);
    }
}

proof fn lemma_rank_prefix(t: Seq<Node>, k: int, n: nat)
    requires
        0 <= k <= t.len(),
    ensures
        rank(t.take(k), n) <= rank(t, n),
    decreases t.len() - k,
{
    if t.len() > k {
        let d = t.drop_last();
        lemma_rank_prefix(d, k, n);
        assert(d.take(k) =~= t.take(k));
    } else {
        assert(t.take(k) =~= t);
    }
}

proof fn lemma_rank_push(t: Seq<Node>, e: Node, n: nat)
    requires
        t.len() < n,
    ensures
        rank(t.push(e), n) >= rank(t, n) + 1,
{
    assert(t.push(e).drop_last() =~= t);
    let k = (n - t.push(e).len()) as nat;
    lemma_pow3_pos(k);
    let d = digit(e);
    let q = pow3(k);
    assert(d * q >= q) by (nonlinear_arith)
        requires
            d >= 1,
    ;
}

/// Flipping the newest open decision at `p` makes the rank grow.
proof fn lemma_rank_flip(t: Seq<Node>, p: int, e: Node, n: nat)
    requires
        0 <= p < t.len() <= n,
        t[p].picked && t[p].value,
        !(e.picked && e.value),
    ensures
        rank(t.take(p).push(e), n) > rank(t, n),
{
    lemma_rank_tail(t, p + 1, n);
    let k = (n - (p + 1)) as nat;
    assert(t.take(p + 1).drop_last() =~= t.take(p));
    let tp = t.take(p + 1);
    assert(tp.last() == t[p]);
    assert(tp.len() == p + 1);
    assert(digit(tp.last()) == 1);
    assert(rank(tp, n) == rank(tp.drop_last(), n) + digit(tp.last()) * pow3((n - tp.len()) as nat));
    assert(rank(tp, n) == rank(t.take(p), n) + pow3(k));
    assert(t.take(p).push(e).drop_last() =~= t.take(p));
    assert(t.take(p).push(e).last() == e);
    assert(rank(t.take(p).push(e), n) == rank(t.take(p), n) + 2 * pow3(k));
    lemma_pow3_pos((n - t.len()) as nat);
}

/// Where `m` does not agree with all of `t`, there is a first entry it departs from.
proof fn lemma_first_departure(m: Seq<bool>, t: Seq<Node>, k: int)
    requires
        0 <= k <= t.len(),
        !agrees_upto(m, t, k),
    ensures
        exists|p: int| 0 <= p < k && agrees_upto(m, t, p) && !agrees(m, #[trigger] t[p]),
    decreases k,
{
    if agrees_upto(m, t, k - 1) {
        assert(!agrees(m, t[k - 1]));
    } else {
        lemma_first_departure(m, t, k - 1);
        let p = choose|p: int| 0 <= p < k - 1 && agrees_upto(m, t, p) && !agrees(m, #[trigger] t[p]);
        assert(!agrees(m, t[p]));
    }
}

/// With no open decision on the trail, every model agrees with all of it.
proof fn lemma_models_agree(f: Seq<Seq<Lit>>, n: nat, t: Seq<Node>, m: Seq<bool>, from: int)
    requires
        models_follow_trail(f, n, t),
        is_model(f, n, m),
        0 <= from <= t.len(),
        agrees_upto(m, t, from),
        forall|j: int| from <= j < t.len() ==> !((#[trigger] t[j]).picked && t[j].value),
    ensures
        agrees_upto(m, t, t.len() as int),
{
    if !agrees_upto(m, t, t.len() as int) {
        lemma_first_departure(m, t, t.len() as int);
        let p = choose|p: int| 0 <= p < t.len() && agrees_upto(m, t, p) && !agrees(m, #[trigger] t[p]);
        if p < from {
            assert(agrees(m, t[p]));
        } else {
            assert(t[p].picked && t[p].value);
        }
    }
}

/// Some entry before position `p` of `t` is over variable `u`.
pub open spec fn assigned_before(t: Seq<Node>, p: int, u: int) -> bool {
    exists|i: int| 0 <= i < p && (#[trigger] t[i]).literal == u
}

/// Each decision was taken on the lowest variable that had no value then.
pub open spec fn decisions_in_order(t: Seq<Node>) -> bool {
    forall|p: int, u: int|
        0 <= p < t.len() && t[p].picked && 1 <= u < t[p].literal ==> #[trigger] assigned_before(t, p, u)
}

/// Flipping the newest open decision after a conflict keeps every model on the trail.
proof fn lemma_flip_keeps(f: Seq<Seq<Lit>>, n: nat, t1: Seq<Node>, p: int, c: int)
    requires
        models_follow_trail(f, n, t1),
        decisions_in_order(t1),
        0 <= p < t1.len(),
        t1[p].picked && t1[p].value,
        forall|j: int| p < j < t1.len() ==> !((#[trigger] t1[j]).picked && t1[j].value),
        0 <= c < f.len(),
        clause_falsified_by(t1, f[c]),
    ensures
        models_follow_trail(f, n, t1.take(p).push(Node { literal: t1[p].literal, value: false, picked: true })),
        decisions_in_order(t1.take(p).push(Node { literal: t1[p].literal, value: false, picked: true })),
{
    let e = Node { literal: t1[p].literal, value: false, picked: true };
    let t3 = t1.take(p).push(e);
    assert forall|m: Seq<bool>, q: int|
        #![trigger is_model(f, n, m), t3[q]]
        is_model(f, n, m) && 0 <= q < t3.len() && agrees_upto(m, t3, q) && !agrees(m, t3[q]) implies t3[q].picked
            && t3[q].value by {
        assert forall|j: int| 0 <= j < q && j < p implies agrees(m, #[trigger] t1[j]) by {
            assert(t3[j] == t1[j]);
            assert(agrees(m, t3[j]));
        }
        if q < p {
            assert(t3[q] == t1[q]);
            assert(is_model(f, n, m) && agrees_upto(m, t1, q) && !agrees(m, t1[q]));
        } else {
            assert(agrees(m, t1[p]));
            assert(agrees_upto(m, t1, p + 1));
            lemma_models_agree(f, n, t1, m, p + 1);
            let cl = f[c];
            assert(clause_true_in(f[c], m));
            let j = choose|j: int| 0 <= j < cl.len() && lit_true_in(#[trigger] cl[j], m);
            lemma_agree_falsified(m, t1, cl[j]);
        }
    }
    assert forall|q: int, u: int|
        0 <= q < t3.len() && t3[q].picked && 1 <= u < t3[q].literal implies #[trigger] assigned_before(t3, q, u) by {
        if q < p {
            assert(t3[q] == t1[q]);
        }
        assert(assigned_before(t1, q, u));
        let k = choose|k: int| 0 <= k < q && (#[trigger] t1[k]).literal == u;
        assert(t3[k] == t1[k]);
    }
}

/// Deciding the lowest unassigned variable `true` keeps every model on the trail.
proof fn lemma_decide_keeps(f: Seq<Seq<Lit>>, n: nat, t1: Seq<Node>, v: u16)
    requires
        models_follow_trail(f, n, t1),
        decisions_in_order(t1),
        forall|u: int| 1 <= u < v ==> #[trigger] assigned_before(t1, t1.len() as int, u),
    ensures
        models_follow_trail(f, n, t1.push(Node { literal: v, value: true, picked: true })),
        decisions_in_order(t1.push(Node { literal: v, value: true, picked: true })),
{
    let t3 = t1.push(Node { literal: v, value: true, picked: true });
    assert forall|m: Seq<bool>, q: int|
        #![trigger is_model(f, n, m), t3[q]]
        is_model(f, n, m) && 0 <= q < t3.len() && agrees_upto(m, t3, q) && !agrees(m, t3[q]) implies t3[q].picked
            && t3[q].value by {
        if q < t1.len() {
            assert(t3[q] == t1[q]);
            assert forall|j: int| 0 <= j < q implies agrees(m, #[trigger] t1[j]) by {
                assert(t3[j] == t1[j]);
                assert(agrees(m, t3[j]));
            }
            assert(is_model(f, n, m) && agrees_upto(m, t1, q) && !agrees(m, t1[q]));
        }
    }
    assert forall|q: int, u: int|
        0 <= q < t3.len() && t3[q].picked && 1 <= u < t3[q].literal implies #[trigger] assigned_before(t3, q, u) by {
        if q < t1.len() {
            assert(t3[q] == t1[q]);
            assert(assigned_before(t1, q, u));
            let k = choose|k: int| 0 <= k < q && (#[trigger] t1[k]).literal == u;
            assert(t3[k] == t1[k]);
        } else {
            assert(assigned_before(t1, t1.len() as int, u));
            let k = choose|k: int| 0 <= k < t1.len() && (#[trigger] t1[k]).literal == u;
            assert(t3[k] == t1[k]);
        }
    }
}

/// `r` is `Satisfied` with the greatest model of `f` over `n` variables (in the
/// order of `lex_greater`) when `f` has a model, and `Unsatisfiable` when not.
pub open spec fn search_result(f: Seq<Seq<Lit>>, n: nat, r: SearchOutcome) -> bool {
    match r {
        SearchOutcome::Satisfied(w) => {
            &&& is_model(f, n, w@)
            &&& forall|m: Seq<bool>| is_model(f, n, m) ==> !lex_greater(m, w@)
        },
        SearchOutcome::Unsatisfiable => forall|m: Seq<bool>| !is_model(f, n, m),
    }
}

impl Solver {
    /// A clause falsified by the trail, with no open decision on the trail, leaves no model.
    proof fn lemma_no_model(self, c: int, m: Seq<bool>)
        requires
            self.wf(),
            models_follow_trail(self.formula(), self.num_vars(), self.tree@),
            0 <= c < self.clauses@.len(),
            clause_falsified_by(self.tree@, self.clauses@[c]@),
            forall|j: int| 0 <= j < self.tree@.len() ==> !((#[trigger] self.tree@[j]).picked && self.tree@[j].value),
        ensures
            !is_model(self.formula(), self.num_vars(), m),
    {
        if is_model(self.formula(), self.num_vars(), m) {
            lemma_models_agree(self.formula(), self.num_vars(), self.tree@, m, 0);
            let cl = self.clauses@[c]@;
            assert(self.formula()[c] == cl);
            let j = choose|j: int| 0 <= j < cl.len() && lit_true_in(#[trigger] cl[j], m);
            lemma_agree_falsified(m, self.tree@, cl[j]);
        }
    }

    /// The lowest-numbered variable without a value, if any.
    fn first_unassigned(&self) -> (r: Option<u16>)
        requires
            self.wf(),
        ensures
            match r {
                Some(v) => 1 <= v < self.literal_values@.len() && self.literal_values@[v as int].is_none()
                    && forall|u: int| 1 <= u < v ==> (#[trigger] self.literal_values@[u]).is_some(),
                None => forall|u: int| 1 <= u < self.literal_values@.len() ==> (#[trigger] self.literal_values@[u]).is_some(),
            },
    {
        let mut v: usize = 1;
        while v < self.literal_values.len()
            invariant
                self.wf(),
                1 <= v <= self.literal_values@.len(),
                forall|u: int| 1 <= u < v ==> (#[trigger] self.literal_values@[u]).is_some(),
            decreases self.literal_values@.len() - v,
        {
            if self.literal_values[v].is_none() {
                return Some(v as u16);
            }
            v += 1;
        }
        None
    }

    /// The full assignment that the value table holds: entry `i` for variable `i + 1`.
    fn witness(&self) -> (w: Vec<bool>)
        requires
            self.wf(),
            forall|u: int| 1 <= u < self.literal_values@.len() ==> (#[trigger] self.literal_values@[u]).is_some(),
        ensures
            w@.len() == self.num_vars(),
            forall|i: int| 0 <= i < w@.len() ==> self.literal_values@[i + 1] == Some(#[trigger] w@[i]),
    {
        let mut w: Vec<bool> = Vec::new();
        let mut v: usize = 1;
        while v < self.literal_values.len()
            invariant
                self.wf(),
                forall|u: int| 1 <= u < self.literal_values@.len() ==> (#[trigger] self.literal_values@[u]).is_some(),
                1 <= v <= self.literal_values@.len(),
                w@.len() == v - 1,
                forall|i: int| 0 <= i < w@.len() ==> self.literal_values@[i + 1] == Some(#[trigger] w@[i]),
            decreases self.literal_values@.len() - v,
        {
            let x = self.literal_values[v];
            assert(x.is_some());
            w.push(x.unwrap());
            v += 1;
        }
        w
    }

    /// With every variable assigned and no clause falsified, the values form a
    /// model, and no model is greater in the order that decisions follow.
    proof fn lemma_found_model(self, w: Seq<bool>)
        requires
            self.wf(),
            self.propagated == self.tree@.len(),
            models_follow_trail(self.formula(), self.num_vars(), self.tree@),
            decisions_in_order(self.tree@),
            forall|u: int| 1 <= u < self.literal_values@.len() ==> (#[trigger] self.literal_values@[u]).is_some(),
            w.len() == self.num_vars(),
            forall|i: int| 0 <= i < w.len() ==> self.literal_values@[i + 1] == Some(#[trigger] w[i]),
        ensures
            is_model(self.formula(), self.num_vars(), w),
            forall|m: Seq<bool>| is_model(self.formula(), self.num_vars(), m) ==> !lex_greater(m, w),
    {
        let f = self.formula();
        let n = self.num_vars();
        let t = self.tree@;
        let vals = self.literal_values@;
        assert(t.take(t.len() as int) =~= t);
        assert forall|c: int| 0 <= c < f.len() implies clause_true_in(#[trigger] f[c], w) by {
            let cl = self.clauses@[c]@;
            assert(f[c] == cl);
            self.lemma_conflict_iff(c);
            lemma_live_zero(cl, vals);
            let j = choose|j: int| 0 <= j < cl.len() && !lit_falsified(#[trigger] cl[j], vals);
            assert(1 <= self.clauses@[c]@[j].0 < vals.len());
            let x = cl[j].0 - 1;
            assert(vals[x + 1] == Some(w[x]));
            assert(lit_true_in(cl[j], w));
        }
        assert forall|m: Seq<bool>| is_model(f, n, m) implies !lex_greater(m, w) by {
            if lex_greater(m, w) {
                let u = choose|u: int| 0 <= u < m.len() && u < w.len() && #[trigger] m[u] && !w[u] && forall|i: int|
                    0 <= i < u ==> m[i] == w[i];
                if agrees_upto(m, t, t.len() as int) {
                    assert(vals[u + 1].is_some());
                    let i = choose|i: int| 0 <= i < t.len() && (#[trigger] t[i]).literal == u + 1;
                    assert(agrees(m, t[i]));
                    assert(vals[u + 1] == Some(w[u]));
                } else {
                    lemma_first_departure(m, t, t.len() as int);
                    let p = choose|p: int| 0 <= p < t.len() && agrees_upto(m, t, p) && !agrees(m, #[trigger] t[p]);
                    assert(t[p].picked && t[p].value);
                    let v = t[p].literal as int;
                    assert(vals[v] == Some(true));
                    assert(vals[(v - 1) + 1] == Some(w[v - 1]));
                    if u < v - 1 {
                        assert(assigned_before(t, p, u + 1));
                        let i = choose|i: int| 0 <= i < p && (#[trigger] t[i]).literal == u + 1;
                        assert(agrees(m, t[i]));
                        assert(vals[u + 1] == Some(w[u]));
                    }
                }
            }
        }
    }

    /// DPLL search from an empty trail: run the unit scan (`simplify`);
    /// then repeatedly propagate; on a conflict flip the
    /// newest decision that still has its first value (`true`) to `false`, or
    /// stop with `Unsatisfiable` if there is none; at a fixpoint decide the
    /// lowest unassigned variable `true`, or stop with `Satisfied` when all
    /// have values. The model returned is the greatest one in the order that
    /// compares variable 1 first and ranks `true` above `false`.
    pub fn solve(&mut self) -> (r: SearchOutcome)
        requires
            old(self).wf(),
        ensures
            final(self).wf(),
            final(self).clauses@ == old(self).clauses@,
            final(self).num_vars() == old(self).num_vars(),
            search_result(old(self).formula(), old(self).num_vars(), r),
            decisions_in_order(final(self).tree@),
            match r {
                SearchOutcome::Satisfied(w) => {
                    &&& final(self).tree@.len() == final(self).num_vars()
                    &&& forall|v: int| 1 <= v <= final(self).num_vars() ==> #[trigger] final(self).literal_values@[v] == Some(w@[v - 1])
                },
                SearchOutcome::Unsatisfiable => true,
            },
    {
        let ghost f = self.formula();
        let ghost n = self.num_vars();
        self.truncate_to(0);
        proof {
            assert(self.formula() =~= f);
        }
        let units = self.simplify();
        proof {
            assert(self.formula() =~= f);
            self.lemma_trail_len();
        }
        if let Propagation::Conflict(c) = units {
            proof {
                assert forall|m: Seq<bool>| !is_model(old(self).formula(), old(self).num_vars(), m) by {
                    self.lemma_no_model(c as int, m);
                }
            }
            return SearchOutcome::Unsatisfiable;
        }
        loop
            invariant
                self.wf(),
                self.clauses@ == old(self).clauses@,
                self.literal_values@.len() == old(self).literal_values@.len(),
                f == old(self).formula(),
                f == self.formula(),
                n == old(self).num_vars(),
                models_follow_trail(f, n, self.tree@),
                decisions_in_order(self.tree@),
                self.tree@.len() <= n,
            decreases pow3(n) - rank(self.tree@, n),
        {
            proof {
                lemma_rank_tail(self.tree@, 0, n);
                assert(self.tree@.take(0) =~= Seq::<Node>::empty());
                assert(rank(self.tree@.take(0), n) == 0);
                lemma_pow3_pos((n - self.tree@.len()) as nat);
            }
            let ghost t_before = self.tree@;
            let outcome = self.propagate();
            let ghost t1 = self.tree@;
            proof {
                assert(self.formula() =~= f);
                self.lemma_trail_len();
                lemma_rank_prefix(t1, t_before.len() as int, n);
                assert(rank(t_before, n) <= rank(t1, n));
                assert forall|p: int, u: int|
                    0 <= p < t1.len() && t1[p].picked && 1 <= u < t1[p].literal implies #[trigger] assigned_before(t1, p, u) by {
                    assert(t1.take(t_before.len() as int)[p] == t1[p]);
                    assert(assigned_before(t_before, p, u));
                    let i = choose|i: int| 0 <= i < p && (#[trigger] t_before[i]).literal == u;
                    assert(t1.take(t_before.len() as int)[i] == t1[i]);
                }
            }
            match outcome {
                Propagation::Conflict(c) => {
                    let mut i: usize = self.tree.len();
                    let mut found: Option<usize> = None;
                    while found.is_none()
                        invariant
                            self.wf(),
                            self.clauses@ == old(self).clauses@,
                            self.literal_values@.len() == old(self).literal_values@.len(),
                            self.tree@ == t1,
                            decisions_in_order(t1),
                            i <= t1.len(),
                            c < self.clauses@.len(),
                            clause_falsified_by(t1, self.clauses@[c as int]@),
                            models_follow_trail(f, n, t1),
                            f == self.formula(),
                            f == old(self).formula(),
                            n == self.num_vars(),
                            n == old(self).num_vars(),
                            forall|j: int| i <= j < t1.len() ==> !((#[trigger] t1[j]).picked && t1[j].value),
                            match found {
                                Some(p) => p < t1.len() && t1[p as int].picked && t1[p as int].value
                                    && forall|j: int| p < j < t1.len() ==> !((#[trigger] t1[j]).picked && t1[j].value),
                                None => true,
                            },
                        decreases i + if found.is_none() { 1int } else { 0int },
                    {
                        match self.last_decision_before(i) {
                            None => {
                                proof {
                                    assert forall|j: int| 0 <= j < t1.len() implies !((#[trigger] t1[j]).picked && t1[j].value) by {
                                        if j < i {
                                            assert(!t1[j].picked);
                                        }
                                    }
                                    assert forall|m: Seq<bool>| !is_model(old(self).formula(), old(self).num_vars(), m) by {
                                        self.lemma_no_model(c as int, m);
                                    }
                                }
                                return SearchOutcome::Unsatisfiable;
                            },
                            Some(p) => {
                                if self.tree[p].value {
                                    found = Some(p);
                                } else {
                                    i = p;
                                }
                            },
                        }
                    }
                    let p = found.unwrap();
                    let v = self.tree[p].literal;
                    self.truncate_to(p);
                    proof {
                        assert(self.literal_values@[v as int].is_none()) by {
                            if self.literal_values@[v as int].is_some() {
                                let k = choose|k: int| 0 <= k < self.tree@.len() && (#[trigger] self.tree@[k]).literal == v;
                                assert(self.tree@[k] == t1[k]);
                            }
                        }
                    }
                    let ghost t2 = self.tree@;
                    self.assign(v, false, true);
                    proof {
                        let e = Node { literal: v, value: false, picked: true };
                        assert(self.tree@ == t1.take(p as int).push(e));
                        lemma_rank_flip(t1, p as int, e, n);
                        assert(self.formula() =~= f);
                        assert(f[c as int] == self.clauses@[c as int]@);
                        lemma_flip_keeps(f, n, t1, p as int, c as int);
                        self.lemma_trail_len();
                        assert(rank(self.tree@, n) > rank(t_before, n));
                        lemma_rank_tail(self.tree@, 0, n);
                        assert(self.tree@.take(0) =~= Seq::<Node>::empty());
                        assert(rank(self.tree@.take(0), n) == 0);
                    }
                },
                Propagation::Fixpoint => {
                    match self.first_unassigned() {
                        None => {
                            let w = self.witness();
                            proof {
                                self.lemma_found_model(w@);
                                self.lemma_trail_full();
                                assert forall|v: int| 1 <= v <= self.num_vars() implies #[trigger] self.literal_values@[v] == Some(w@[v - 1]) by {
                                    assert(self.literal_values@[(v - 1) + 1] == Some(w@[v - 1]));
                                }
                            }
                            return SearchOutcome::Satisfied(w);
                        },
                        Some(v) => {
                            proof {
                                assert forall|u: int| 1 <= u < v implies #[trigger] assigned_before(t1, t1.len() as int, u) by {
                                    assert(self.literal_values@[u].is_some());
                                }
                                self.lemma_trail_len_lt(v as int);
                            }
                            self.assign(v, true, true);
                            proof {
                                let e = Node { literal: v, value: true, picked: true };
                                lemma_rank_push(t1, e, n);
                                assert(self.formula() =~= f);
                                lemma_decide_keeps(f, n, t1, v);
                                self.lemma_trail_len();
                                assert(self.tree@ == t1.push(e));
                                assert(rank(self.tree@, n) > rank(t_before, n));
                                lemma_rank_tail(self.tree@, 0, n);
                                assert(self.tree@.take(0) =~= Seq::<Node>::empty());
                                assert(rank(self.tree@.take(0), n) == 0);
                            }
                        },
                    }
                },
            }
        }
    }
}

} // verus!
