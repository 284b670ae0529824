use vstd::prelude::*;
use vstd::set_lib::{lemma_len_subset, lemma_int_range, set_int_range};
use crate::model::{
    Lit, Node, Solver, Propagation, lit_falsified, lit_satisfied, clause_satisfied, clause_has_var,
    falsified_by, clause_falsified_by, is_model, lit_true_in, clause_true_in,
};
use crate::counting::{lemma_live_zero, lemma_live_one, lemma_live_assign, lemma_falsified_count_absent};
use crate::trail::lemma_falsified_prefix;

verus! {

pub open spec fn agrees(m: Seq<bool>, e: Node) -> bool {
    m[e.literal - 1] == e.value
}

/// `m` gives every one of the first `p` entries of `t` the entry's value.
pub open spec fn agrees_upto(m: Seq<bool>, t: Seq<Node>, p: int) -> bool {
    forall|i: int| 0 <= i < p ==> agrees(m, #[trigger] t[i])
}

/// Every model of `f` that departs from the trail `t` does so first at a
/// decision that still has its first value, `true`.
pub open spec fn models_follow_trail(f: Seq<Seq<Lit>>, n: nat, t: Seq<Node>) -> bool {
    forall|m: Seq<bool>, p: int|
        #![trigger is_model(f, n, m), t[p]]
        is_model(f, n, m) && 0 <= p < t.len() && agrees_upto(m, t, p) && !agrees(m, t[p]) ==> t[p].picked
            && t[p].value
}

/// Some entry of `t` from position `a` on is over a variable of `c`.
pub open spec fn pending(t: Seq<Node>, a: int, c: Seq<Lit>) -> bool {
    exists|i: int| a <= i < t.len() && clause_has_var(c, (#[trigger] t[i]).literal as int)
}

impl Solver {
    /// Clause `c` is satisfied or has at least two live literals: it forces nothing.
    pub open spec fn settled(self, c: int) -> bool {
        clause_satisfied(self.clauses@[c]@, self.literal_values@) || self.n_not_falses@[c] >= 2
    }

    /// The trail's variables form a set with one member per entry, each
    /// member a variable of the table.
    proof fn lemma_trail_vars(self)
        requires
            self.wf(),
        ensures
            self.tree@.map_values(|e: Node| e.literal as int).to_set().len() == self.tree@.len(),
            self.tree@.map_values(|e: Node| e.literal as int).to_set().subset_of(
                set_int_range(1, self.literal_values@.len() as int),
            ),
            set_int_range(1, self.literal_values@.len() as int).finite(),
            set_int_range(1, self.literal_values@.len() as int).len() == self.num_vars(),
    {
        let s = self.tree@.map_values(|e: Node| e.literal as int);
        assert(s.no_duplicates()) by {
            assert forall|i: int, j: int| 0 <= i < s.len() && 0 <= j < s.len() && i != j implies s[i] != s[j] by {
                if i < j {
                    assert(self.tree@[i].literal != self.tree@[j].literal);
                } else {
                    assert(self.tree@[j].literal != self.tree@[i].literal);
                }
            }
        }
        s.unique_seq_to_set();
        lemma_int_range(1, self.literal_values@.len() as int);
        assert forall|x: int| s.to_set().contains(x) implies set_int_range(1, self.literal_values@.len() as int).contains(x) by {
            let i = choose|i: int| 0 <= i < s.len() && s[i] == x;
            assert(self.tree@[i].literal == s[i]);
        }
    }

    /// The trail holds at most one entry per variable.
    pub proof fn lemma_trail_len(self)
        requires
            self.wf(),
        ensures
            self.tree@.len() <= self.num_vars(),
    {
        self.lemma_trail_vars();
        let s = self.tree@.map_values(|e: Node| e.literal as int).to_set();
        lemma_len_subset(s, set_int_range(1, self.literal_values@.len() as int));
    }

    /// With variable `v` unassigned, the trail is shorter than the variable count.
    pub proof fn lemma_trail_len_lt(self, v: int)
        requires
            self.wf(),
            1 <= v < self.literal_values@.len(),
            self.literal_values@[v].is_none(),
        ensures
            self.tree@.len() < self.num_vars(),
    {
        self.lemma_trail_vars();
        let s = self.tree@.map_values(|e: Node| e.literal as int).to_set();
        let r = set_int_range(1, self.literal_values@.len() as int);
        assert forall|x: int| s.contains(x) implies r.remove(v).contains(x) by {
            let sq = self.tree@.map_values(|e: Node| e.literal as int);
            let i = choose|i: int| 0 <= i < sq.len() && sq[i] == x;
            assert(self.tree@[i].literal == sq[i]);
        }
        lemma_len_subset(s, r.remove(v));
    }

    /// With every variable assigned, the trail has one entry per variable.
    pub proof fn lemma_trail_full(self)
        requires
            self.wf(),
            forall|u: int| 1 <= u < self.literal_values@.len() ==> (#[trigger] self.literal_values@[u]).is_some(),
        ensures
            self.tree@.len() == self.num_vars(),
    {
        self.lemma_trail_vars();
        let sq = self.tree@.map_values(|e: Node| e.literal as int);
        let s = sq.to_set();
        let r = set_int_range(1, self.literal_values@.len() as int);
        assert forall|x: int| r.contains(x) implies s.contains(x) by {
            assert(self.literal_values@[x].is_some());
            let i = choose|i: int| 0 <= i < self.tree@.len() && (#[trigger] self.tree@[i]).literal == x;
            assert(sq[i] == x);
        }
        lemma_len_subset(r, s);
        lemma_len_subset(s, r);
    }

    /// A literal that the value table falsifies is falsified by some trail entry.
    pub proof fn lemma_falsified_in_trail(self, l: Lit)
        requires
            self.wf(),
            0 <= l.0 < self.literal_values@.len(),
            lit_falsified(l, self.literal_values@),
        ensures
            falsified_by(self.tree@, l),
    {
        assert(self.literal_values@[l.0 as int].is_some());
        let i = choose|i: int| 0 <= i < self.tree@.len() && (#[trigger] self.tree@[i]).literal == l.0;
        assert(self.literal_values@[self.tree@[i].literal as int] == Some(self.tree@[i].value));
    }

    /// A literal falsified by some trail entry is falsified in the value table.
    pub proof fn lemma_trail_falsified(self, t: Seq<Node>, l: Lit)
        requires
            self.wf(),
            t.len() <= self.tree@.len(),
            t == self.tree@.take(t.len() as int),
            falsified_by(t, l),
        ensures
            lit_falsified(l, self.literal_values@),
    {
        let i = choose|i: int| 0 <= i < t.len() && (#[trigger] t[i]).literal == l.0 && t[i].value != l.1;
        assert(t[i] == self.tree@[i]);
    }

    /// Whether a clause is falsified by the trail agrees with its live count being zero.
    pub proof fn lemma_conflict_iff(self, c: int)
        requires
            self.wf(),
            0 <= c < self.clauses@.len(),
        ensures
            clause_falsified_by(self.tree@, self.clauses@[c]@) == (self.n_not_falses@[c] == 0),
    {
        let cl = self.clauses@[c]@;
        lemma_live_zero(cl, self.literal_values@);
        if self.n_not_falses@[c] == 0 {
            assert forall|j: int| 0 <= j < cl.len() implies falsified_by(self.tree@, #[trigger] cl[j]) by {
                assert(lit_falsified(cl[j], self.literal_values@));
                assert(1 <= self.clauses@[c]@[j].0);
                self.lemma_falsified_in_trail(cl[j]);
            }
        }
        if clause_falsified_by(self.tree@, cl) {
            assert(self.tree@ == self.tree@.take(self.tree@.len() as int));
            assert forall|j: int| 0 <= j < cl.len() implies lit_falsified(#[trigger] cl[j], self.literal_values@) by {
                assert(falsified_by(self.tree@, cl[j]));
                self.lemma_trail_falsified(self.tree@, cl[j]);
            }
        }
    }
}

/// A model that agrees with every entry of `t` makes each literal falsified by `t` false.
pub proof fn lemma_agree_falsified(m: Seq<bool>, t: Seq<Node>, l: Lit)
    requires
        agrees_upto(m, t, t.len() as int),
        falsified_by(t, l),
    ensures
        !lit_true_in(l, m),
{
    let i = choose|i: int| 0 <= i < t.len() && (#[trigger] t[i]).literal == l.0 && t[i].value != l.1;
    assert(agrees(m, t[i]));
}

impl Solver {
    /// Pushing a value keeps each clause settled, or makes it pending on the new entry.
    proof fn lemma_push_keeps_settled(self, after: Solver, w: u16, b: bool, picked: bool, a: int)
        requires
            self.wf(),
            after.wf(),
            after.clauses@ == self.clauses@,
            1 <= w < self.literal_values@.len(),
            self.literal_values@[w as int].is_none(),
            after.literal_values@ == self.literal_values@.update(w as int, Some(b)),
            after.tree@ == self.tree@.push(Node { literal: w, value: b, picked }),
            0 <= a <= self.tree@.len(),
        ensures
            forall|c: int|
                0 <= c < self.clauses@.len() && (self.settled(c) || pending(self.tree@, a, self.clauses@[c]@))
                    ==> #[trigger] after.settled(c) || pending(after.tree@, a, after.clauses@[c]@),
    {
        assert forall|c: int|
            0 <= c < self.clauses@.len() && (self.settled(c) || pending(self.tree@, a, self.clauses@[c]@)) implies
            #[trigger] after.settled(c) || pending(after.tree@, a, after.clauses@[c]@) by {
            let cl = self.clauses@[c]@;
            let t2 = after.tree@;
            let l = self.tree@.len() as int;
            if clause_has_var(cl, w as int) {
                assert(t2[l].literal == w);
                assert(pending(t2, a, cl));
            } else if pending(self.tree@, a, cl) {
                let i = choose|i: int| a <= i < self.tree@.len() && clause_has_var(cl, (#[trigger] self.tree@[i]).literal as int);
                assert(t2[i] == self.tree@[i]);
            } else {
                assert forall|j: int| 0 <= j < cl.len() implies 0 <= (#[trigger] cl[j]).0 < self.literal_values@.len() by {
                    assert(1 <= self.clauses@[c]@[j].0);
                }
                lemma_falsified_count_absent(cl, w as int, b);
                lemma_live_assign(cl, self.literal_values@, w as int, b);
                if clause_satisfied(cl, self.literal_values@) {
                    let j = choose|j: int| 0 <= j < cl.len() && lit_satisfied(#[trigger] cl[j], self.literal_values@);
                    assert(lit_satisfied(cl[j], after.literal_values@));
                }
            }
        }
    }

    /// Forcing the one literal of a unit clause keeps every model on the trail.
    proof fn lemma_implied_extends(self, c: int, j: int)
        requires
            self.wf(),
            models_follow_trail(self.formula(), self.num_vars(), self.tree@),
            0 <= c < self.clauses@.len(),
            0 <= j < self.clauses@[c]@.len(),
            self.n_not_falses@[c] == 1,
            self.literal_values@[self.clauses@[c]@[j].0 as int].is_none(),
        ensures
            models_follow_trail(
                self.formula(),
                self.num_vars(),
                self.tree@.push(Node { literal: self.clauses@[c]@[j].0, value: self.clauses@[c]@[j].1, picked: false }),
            ),
    {
        let f = self.formula();
        let n = self.num_vars();
        let t = self.tree@;
        let cl = self.clauses@[c]@;
        let e = Node { literal: cl[j].0, value: cl[j].1, picked: false };
        let t2 = t.push(e);
        lemma_live_one(cl, self.literal_values@, j);
        assert forall|m: Seq<bool>, p: int|
            #![trigger is_model(f, n, m), t2[p]]
            is_model(f, n, m) && 0 <= p < t2.len() && agrees_upto(m, t2, p) && !agrees(m, t2[p]) implies t2[p].picked
                && t2[p].value by {
            if p < t.len() {
                assert(t2[p] == t[p]);
                assert forall|i: int| 0 <= i < p implies agrees(m, #[trigger] t[i]) by {
                    assert(t2[i] == t[i]);
                    assert(agrees(m, t2[i]));
                }
                assert(is_model(f, n, m) && agrees_upto(m, t, p) && !agrees(m, t[p]));
            } else {
                assert(f[c] == cl);
                assert(clause_true_in(f[c], m));
                let jj = choose|jj: int| 0 <= jj < cl.len() && lit_true_in(#[trigger] cl[jj], m);
                assert forall|i: int| 0 <= i < t.len() implies agrees(m, #[trigger] t[i]) by {
                    assert(t2[i] == t[i]);
                    assert(agrees(m, t2[i]));
                }
                if jj != j {
                    assert(lit_falsified(cl[jj], self.literal_values@));
                    assert(1 <= self.clauses@[c]@[jj].0);
                    self.lemma_falsified_in_trail(cl[jj]);
                    lemma_agree_falsified(m, t, cl[jj]);
                }
                assert(t2[p] == e);
            }
        }
    }

    /// The position of a literal of clause `c` whose variable has no value.
    fn find_unassigned(&self, c: usize) -> (j: usize)
        requires
            self.wf(),
            c < self.clauses@.len(),
            self.n_not_falses@[c as int] > 0,
            !clause_satisfied(self.clauses@[c as int]@, self.literal_values@),
        ensures
            j < self.clauses@[c as int]@.len(),
            self.literal_values@[self.clauses@[c as int]@[j as int].0 as int].is_none(),
    {
        let clause = &self.clauses[c];
        let mut j: usize = 0;
        while j < clause.len()
            invariant
                self.wf(),
                c < self.clauses@.len(),
                clause@ == self.clauses@[c as int]@,
                j <= clause@.len(),
                forall|k: int| 0 <= k < j ==> (#[trigger] self.literal_values@[clause@[k].0 as int]).is_some(),
            decreases clause@.len() - j,
        {
            if self.literal_values[clause[j].0 as usize].is_none() {
                return j;
            }
            j += 1;
        }
        proof {
            let cl = clause@;
            lemma_live_zero(cl, self.literal_values@);
            assert forall|k: int| 0 <= k < cl.len() implies lit_falsified(#[trigger] cl[k], self.literal_values@) by {
                assert(self.literal_values@[cl[k].0 as int].is_some());
                if !lit_falsified(cl[k], self.literal_values@) {
                    assert(lit_satisfied(cl[k], self.literal_values@));
                }
            }
        }
        0
    }

    /// Unit propagation: examines each trail entry not yet examined and, for
    /// every clause over its variable, reports a conflict when the clause has no
    /// live literal left, or pushes the clause's one remaining literal as an
    /// implication when it has exactly one and is not satisfied. (Live counts
    /// are kept current by every push and removal, so here they are only read.)
    ///
    /// At a fixpoint every clause over a variable examined in this call is
    /// satisfied or has two live literals, and a further call changes nothing.
    pub fn propagate(&mut self) -> (r: Propagation)
        requires
            old(self).wf(),
        ensures
            final(self).wf(),
            final(self).clauses@ == old(self).clauses@,
            final(self).literal_clauses@ == old(self).literal_clauses@,
            final(self).num_vars() == old(self).num_vars(),
            old(self).tree@.len() <= final(self).tree@.len(),
            final(self).tree@.take(old(self).tree@.len() as int) == old(self).tree@,
            forall|i: int| old(self).tree@.len() <= i < final(self).tree@.len() ==> !(#[trigger] final(self).tree@[i]).picked,
            models_follow_trail(old(self).formula(), old(self).num_vars(), old(self).tree@) ==> models_follow_trail(
                final(self).formula(),
                final(self).num_vars(),
                final(self).tree@,
            ),
            old(self).propagated == old(self).tree@.len() ==> r == Propagation::Fixpoint && *final(self) == *old(self),
            match r {
                Propagation::Fixpoint => {
                    &&& final(self).propagated == final(self).tree@.len()
                    &&& forall|c: int, i: int|
                        0 <= c < final(self).clauses@.len() && old(self).propagated <= i < final(self).tree@.len()
                            && clause_has_var(final(self).clauses@[c]@, (#[trigger] final(self).tree@[i]).literal as int)
                            ==> #[trigger] final(self).settled(c)
                },
                Propagation::Conflict(c) => c < final(self).clauses@.len() && clause_falsified_by(
                    final(self).tree@,
                    final(self).clauses@[c as int]@,
                ),
            },
    {
        let ghost f = self.formula();
        let ghost n = self.num_vars();
        let ghost t0 = self.tree@;
        let ghost follow = models_follow_trail(f, n, t0);
        assert(t0.take(t0.len() as int) =~= t0);
        proof {
            self.lemma_trail_len();
        }
        while self.propagated < self.tree.len()
            invariant
                self.wf(),
                self.clauses@ == old(self).clauses@,
                self.literal_clauses@ == old(self).literal_clauses@,
                self.literal_values@.len() == old(self).literal_values@.len(),
                f == old(self).formula(),
                n == old(self).num_vars(),
                t0 == old(self).tree@,
                t0.len() <= self.tree@.len(),
                self.tree@.take(t0.len() as int) == t0,
                forall|i: int| t0.len() <= i < self.tree@.len() ==> !(#[trigger] self.tree@[i]).picked,
                follow == models_follow_trail(f, n, t0),
                follow ==> models_follow_trail(f, n, self.tree@),
                self.tree@.len() <= n,
                old(self).propagated == t0.len() ==> *self == *old(self),
                old(self).propagated <= self.propagated,
                forall|c: int| 0 <= c < self.clauses@.len() && pending(self.tree@, old(self).propagated as int, self.clauses@[c]@)
                    ==> #[trigger] self.settled(c) || pending(self.tree@, self.propagated as int, self.clauses@[c]@),
            decreases 2 * (n - self.tree@.len()) + (self.tree@.len() - self.propagated),
        {
            let q = self.propagated;
            let v = self.tree[q].literal;
            let occ_len = self.literal_clauses[v as usize].len();
            let ghost tq = self.tree@.take(q + 1);
            let ghost len0 = self.tree@.len();
            let mut k: usize = 0;
            while k < occ_len
                invariant
                    self.wf(),
                    self.clauses@ == old(self).clauses@,
                    self.literal_clauses@ == old(self).literal_clauses@,
                    self.literal_values@.len() == old(self).literal_values@.len(),
                    f == old(self).formula(),
                    n == old(self).num_vars(),
                    t0 == old(self).tree@,
                    t0.len() <= self.tree@.len(),
                    self.tree@.take(t0.len() as int) == t0,
                    forall|i: int| t0.len() <= i < self.tree@.len() ==> !(#[trigger] self.tree@[i]).picked,
                    follow == models_follow_trail(f, n, t0),
                follow ==> models_follow_trail(f, n, self.tree@),
                    self.propagated == q,
                    old(self).propagated != t0.len(),
                    q < len0 <= self.tree@.len(),
                    tq == self.tree@.take(q + 1),
                    v == self.tree@[q as int].literal,
                    1 <= v < self.literal_values@.len(),
                    occ_len == self.literal_clauses@[v as int]@.len(),
                    k <= occ_len,
                    forall|kk: int| 0 <= kk < k ==> !clause_falsified_by(
                        tq,
                        self.clauses@[#[trigger] self.literal_clauses@[v as int]@[kk] as int]@,
                    ),
                    old(self).propagated <= q,
                    forall|c: int| 0 <= c < self.clauses@.len() && pending(self.tree@, old(self).propagated as int, self.clauses@[c]@)
                        ==> #[trigger] self.settled(c) || pending(self.tree@, q as int, self.clauses@[c]@),
                    forall|kk: int| 0 <= kk < k ==> self.settled(#[trigger] self.literal_clauses@[v as int]@[kk] as int)
                        || pending(self.tree@, q + 1, self.clauses@[self.literal_clauses@[v as int]@[kk] as int]@),
                decreases occ_len - k,
            {
                let c = self.literal_clauses[v as usize][k];
                let cnt = self.n_not_falses[c];
                proof {
                    self.lemma_conflict_iff(c as int);
                }
                if cnt == 0 {
                    return Propagation::Conflict(c);
                }
                proof {
                    let cl = self.clauses@[c as int]@;
                    if clause_falsified_by(tq, cl) {
                        lemma_falsified_prefix(self.tree@, q + 1, self.tree@.len() as int, cl);
                    }
                }
                if cnt == 1 && !self.is_satisfied(c) {
                    let j = self.find_unassigned(c);
                    let (w, pol) = self.clauses[c][j];
                    proof {
                        if follow {
                            self.lemma_implied_extends(c as int, j as int);
                        }
                        assert(1 <= self.clauses@[c as int]@[j as int].0);
                    }
                    let ghost before = self.tree@;
                    let ghost sb = *self;
                    self.assign(w, pol, false);
                    proof {
                        sb.lemma_push_keeps_settled(*self, w, pol, false, old(self).propagated as int);
                        sb.lemma_push_keeps_settled(*self, w, pol, false, q as int);
                        sb.lemma_push_keeps_settled(*self, w, pol, false, q + 1);
                        assert(self.clauses@[c as int]@[j as int] == (w, pol));
                        assert(lit_satisfied(self.clauses@[c as int]@[j as int], self.literal_values@));
                        assert(self.settled(c as int));
                        assert(self.tree@.take(q + 1) =~= before.take(q + 1));
                        assert(self.tree@.take(t0.len() as int) =~= before.take(t0.len() as int));
                        assert(self.formula() =~= f);
                        self.lemma_trail_len();
                    }
                }
                k += 1;
            }
            proof {
                let occ = self.literal_clauses@[v as int]@;
                assert forall|c: int| 0 <= c < self.clauses@.len() implies !clause_falsified_by(
                    tq,
                    #[trigger] self.clauses@[c]@,
                ) by {
                    let cl = self.clauses@[c]@;
                    if occ.contains(c as usize) {
                        let kk = choose|kk: int| 0 <= kk < occ.len() && occ[kk] == c as usize;
                        assert(!clause_falsified_by(tq, self.clauses@[occ[kk] as int]@));
                    } else if clause_falsified_by(tq, cl) {
                        let tp = self.tree@.take(q as int);
                        assert(!clause_falsified_by(tp, cl));
                        let jj = choose|jj: int| 0 <= jj < cl.len() && !falsified_by(tp, #[trigger] cl[jj]);
                        assert(falsified_by(tq, cl[jj]));
                        let i = choose|i: int| 0 <= i < tq.len() && (#[trigger] tq[i]).literal == cl[jj].0 && tq[i].value != cl[jj].1;
                        if i < q {
                            assert(tp[i] == tq[i]);
                        } else {
                            assert(self.literal_clauses@[self.clauses@[c]@[jj].0 as int]@.contains(c as usize));
                        }
                    }
                }
                self.lemma_trail_len();
                assert forall|c: int| 0 <= c < self.clauses@.len() && pending(self.tree@, old(self).propagated as int, self.clauses@[c]@)
                    implies #[trigger] self.settled(c) || pending(self.tree@, q + 1, self.clauses@[c]@) by {
                    let cl = self.clauses@[c]@;
                    if !self.settled(c) {
                        assert(pending(self.tree@, q as int, cl));
                        let i = choose|i: int| q <= i < self.tree@.len() && clause_has_var(cl, (#[trigger] self.tree@[i]).literal as int);
                        if i == q {
                            let jj = choose|jj: int| 0 <= jj < cl.len() && (#[trigger] cl[jj]).0 == v;
                            assert(self.literal_clauses@[self.clauses@[c]@[jj].0 as int]@.contains(c as usize));
                            let kk = choose|kk: int| 0 <= kk < occ.len() && occ[kk] == c as usize;
                            assert(self.settled(occ[kk] as int) || pending(self.tree@, q + 1, self.clauses@[occ[kk] as int]@));
                        }
                    }
                }
            }
            let ghost pre = *self;
            self.propagated = q + 1;
            proof {
                assert forall|c: int| 0 <= c < self.clauses@.len() && pending(self.tree@, old(self).propagated as int, self.clauses@[c]@)
                    implies #[trigger] self.settled(c) || pending(self.tree@, self.propagated as int, self.clauses@[c]@) by {
                    assert(pre.settled(c) || pending(pre.tree@, q + 1, pre.clauses@[c]@));
                    assert(pre.settled(c) == self.settled(c));
                }
            }
        }
        Propagation::Fixpoint
    }

    /// The unit scan: goes through the clauses in order; a clause with no live
    /// literal is reported as a conflict, and a clause with exactly one live
    /// literal that is not satisfied gets that literal pushed as an
    /// implication. At the end every clause forces nothing, or mentions a
    /// variable on the trail that propagation has not examined yet.
    pub fn simplify(&mut self) -> (r: Propagation)
        requires
            old(self).wf(),
        ensures
            final(self).wf(),
            final(self).clauses@ == old(self).clauses@,
            final(self).literal_clauses@ == old(self).literal_clauses@,
            final(self).num_vars() == old(self).num_vars(),
            final(self).propagated == old(self).propagated,
            old(self).tree@.len() <= final(self).tree@.len(),
            final(self).tree@.take(old(self).tree@.len() as int) == old(self).tree@,
            forall|i: int| old(self).tree@.len() <= i < final(self).tree@.len() ==> !(#[trigger] final(self).tree@[i]).picked,
            models_follow_trail(old(self).formula(), old(self).num_vars(), old(self).tree@) ==> models_follow_trail(
                final(self).formula(),
                final(self).num_vars(),
                final(self).tree@,
            ),
            match r {
                Propagation::Fixpoint => forall|c: int|
                    0 <= c < final(self).clauses@.len() ==> #[trigger] final(self).settled(c) || pending(
                        final(self).tree@,
                        final(self).propagated as int,
                        final(self).clauses@[c]@,
                    ),
                Propagation::Conflict(c) => c < final(self).clauses@.len() && clause_falsified_by(
                    final(self).tree@,
                    final(self).clauses@[c as int]@,
                ),
            },
    {
        let ghost f = self.formula();
        let ghost n = self.num_vars();
        let ghost t0 = self.tree@;
        let ghost follow = models_follow_trail(f, n, t0);
        let ghost p = self.propagated as int;
        assert(t0.take(t0.len() as int) =~= t0);
        let mut c: usize = 0;
        while c < self.clauses.len()
            invariant
                self.wf(),
                self.clauses@ == old(self).clauses@,
                self.literal_clauses@ == old(self).literal_clauses@,
                self.literal_values@.len() == old(self).literal_values@.len(),
                self.propagated == old(self).propagated,
                p == self.propagated,
                f == old(self).formula(),
                n == old(self).num_vars(),
                t0 == old(self).tree@,
                t0.len() <= self.tree@.len(),
                self.tree@.take(t0.len() as int) == t0,
                forall|i: int| t0.len() <= i < self.tree@.len() ==> !(#[trigger] self.tree@[i]).picked,
                follow == models_follow_trail(f, n, t0),
                follow ==> models_follow_trail(f, n, self.tree@),
                c <= self.clauses@.len(),
                forall|k: int| 0 <= k < c ==> #[trigger] self.settled(k) || pending(self.tree@, p, self.clauses@[k]@),
            decreases self.clauses@.len() - c,
        {
            let cnt = self.n_not_falses[c];
            if cnt == 0 {
                proof {
                    self.lemma_conflict_iff(c as int);
                }
                return Propagation::Conflict(c);
            }
            if cnt == 1 && !self.is_satisfied(c) {
                let j = self.find_unassigned(c);
                let (w, pol) = self.clauses[c][j];
                proof {
                    if follow {
                        self.lemma_implied_extends(c as int, j as int);
                    }
                    assert(1 <= self.clauses@[c as int]@[j as int].0);
                }
                let ghost before = self.tree@;
                let ghost sb = *self;
                self.assign(w, pol, false);
                proof {
                    sb.lemma_push_keeps_settled(*self, w, pol, false, p);
                    assert(self.clauses@[c as int]@[j as int] == (w, pol));
                    assert(lit_satisfied(self.clauses@[c as int]@[j as int], self.literal_values@));
                    assert(self.settled(c as int));
                    assert(self.tree@.take(t0.len() as int) =~= before.take(t0.len() as int));
                    assert(self.formula() =~= f);
                }
            }
            c += 1;
        }
        Propagation::Fixpoint
    }
}

} // verus!
