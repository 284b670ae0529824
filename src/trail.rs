use vstd::prelude::*;
use crate::model::{
    Lit, Node, Solver, SolverError, live_count, lit_satisfied, clause_satisfied, clause_has_var,
    clause_falsified_by, falsified_by,
};
use crate::counting::{falsified_count, lemma_live_assign, lemma_live_le_len, lemma_falsified_count_absent};

verus! {

/// How many literals of `clause` are over `w` with the polarity opposite to `b`.
fn count_opposite(clause: &Vec<Lit>, w: u16, b: bool) -> (r: usize)
    ensures
        r == falsified_count(clause@, w as int, b),
        r <= clause@.len() <= usize::MAX,
{
    let mut r: usize = 0;
    let mut j: usize = 0;
    while j < clause.len()
        invariant
            j <= clause@.len(),
            r <= j,
            r == falsified_count(clause@.take(j as int), w as int, b),
        decreases clause@.len() - j,
    {
        proof {
            assert(clause@.take(j + 1).drop_last() =~= clause@.take(j as int));
        }
        if clause[j].0 == w && clause[j].1 != b {
            r += 1;
        }
        j += 1;
    }
    assert(clause@.take(clause@.len() as int) =~= clause@);
    r
}

/// A clause falsified by a prefix of a trail is falsified by any longer prefix.
pub proof fn lemma_falsified_prefix(t: Seq<Node>, a: int, b: int, c: Seq<Lit>)
    requires
        0 <= a <= b <= t.len(),
        clause_falsified_by(t.take(a), c),
    ensures
        clause_falsified_by(t.take(b), c),
{
    assert forall|j: int| 0 <= j < c.len() implies falsified_by(t.take(b), #[trigger] c[j]) by {
        assert(falsified_by(t.take(a), c[j]));
        let i = choose|i: int| 0 <= i < a && (#[trigger] t.take(a)[i]).literal == c[j].0 && t.take(a)[i].value != c[j].1;
        assert(t.take(b)[i] == t.take(a)[i]);
    }
}

impl Solver {
    /// Appends an entry for the unassigned variable `w` and lowers the live
    /// count of each clause by the literals that the new value falsifies.
    pub(crate) fn assign(&mut self, w: u16, b: bool, picked: bool)
        requires
            old(self).wf(),
            1 <= w < old(self).literal_values@.len(),
            old(self).literal_values@[w as int].is_none(),
        ensures
            final(self).wf(),
            final(self).clauses@ == old(self).clauses@,
            final(self).literal_clauses@ == old(self).literal_clauses@,
            final(self).literal_values@ == old(self).literal_values@.update(w as int, Some(b)),
            final(self).tree@ == old(self).tree@.push(Node { literal: w, value: b, picked }),
            final(self).propagated == old(self).propagated,
    {
        let ghost old_vals = self.literal_values@;
        let ghost old_tree = self.tree@;
        self.literal_values.set(w as usize, Some(b));
        self.tree.push(Node { literal: w, value: b, picked });
        let n = self.literal_clauses[w as usize].len();
        let mut k: usize = 0;
        while k < n
            invariant
                self.clauses@ == old(self).clauses@,
                self.literal_clauses@ == old(self).literal_clauses@,
                self.literal_values@ == old_vals.update(w as int, Some(b)),
                self.tree@ == old_tree.push(Node { literal: w, value: b, picked }),
                self.propagated == old(self).propagated,
                old(self).wf(),
                old_vals == old(self).literal_values@,
                1 <= w < old_vals.len(),
                old_vals[w as int].is_none(),
                n == self.literal_clauses@[w as int]@.len(),
                k <= n,
                self.n_not_falses@.len() == self.clauses@.len(),
                forall|c: int|
                    0 <= c < self.clauses@.len() ==> #[trigger] self.n_not_falses@[c] == if self.literal_clauses@[w as int]@.take(k as int).contains(c as usize) {
                        live_count(self.clauses@[c]@, self.literal_values@)
                    } else {
                        live_count(self.clauses@[c]@, old_vals)
                    },
            decreases n - k,
        {
            let c = self.literal_clauses[w as usize][k];
            let d = count_opposite(&self.clauses[c], w, b);
            let ghost occ = self.literal_clauses@[w as int]@;
            proof {
                let cl = self.clauses@[c as int]@;
                assert forall|j: int| 0 <= j < cl.len() implies 0 <= (#[trigger] cl[j]).0 < old_vals.len() by {
                    assert(1 <= self.clauses@[c as int]@[j].0);
                }
                lemma_live_assign(cl, old_vals, w as int, b);
                assert(!occ.take(k as int).contains(c)) by {
                    if occ.take(k as int).contains(c) {
                        let i = choose|i: int| 0 <= i < k && occ.take(k as int)[i] == c;
                        assert(occ[i] < occ[k as int]);
                    }
                }
                assert(occ.take(k + 1) =~= occ.take(k as int).push(c));
                assert(occ.take(k + 1)[k as int] == c);
                assert(occ.take(k + 1).contains(c));
            }
            let cur = self.n_not_falses[c];
            self.n_not_falses.set(c, cur - d);
            proof {
                assert forall|c2: int| 0 <= c2 < self.clauses@.len() && c2 != c implies
                    #[trigger] occ.take(k + 1).contains(c2 as usize) == occ.take(k as int).contains(c2 as usize) by {
                    if occ.take(k + 1).contains(c2 as usize) {
                        let i = choose|i: int| 0 <= i < k + 1 && #[trigger] occ.take(k + 1)[i] == c2 as usize;
                        if i == k {
                            assert(occ.take(k + 1)[i] == c);
                        } else {
                            assert(occ.take(k as int)[i] == c2 as usize);
                        }
                    }
                    if occ.take(k as int).contains(c2 as usize) {
                        let i = choose|i: int| 0 <= i < k && #[trigger] occ.take(k as int)[i] == c2 as usize;
                        assert(occ.take(k + 1)[i] == c2 as usize);
                    }
                }
            }
            k += 1;
        }
        proof {
            let occ = self.literal_clauses@[w as int]@;
            assert(occ.take(n as int) =~= occ);
            assert forall|c: int| 0 <= c < self.clauses@.len() implies #[trigger] self.n_not_falses@[c]
                == live_count(self.clauses@[c]@, self.literal_values@) by {
                let cl = self.clauses@[c]@;
                if !occ.contains(c as usize) {
                    if clause_has_var(cl, w as int) {
                        let j = choose|j: int| 0 <= j < cl.len() && (#[trigger] cl[j]).0 == w;
                        assert(self.literal_clauses@[self.clauses@[c]@[j].0 as int]@.contains(c as usize));
                    }
                    lemma_falsified_count_absent(cl, w as int, b);
                    assert forall|j: int| 0 <= j < cl.len() implies 0 <= (#[trigger] cl[j]).0 < old_vals.len() by {
                        assert(1 <= self.clauses@[c]@[j].0);
                    }
                    lemma_live_assign(cl, old_vals, w as int, b);
                }
            }
            assert(self.tree@.take(self.propagated as int) =~= old_tree.take(self.propagated as int));
            assert forall|i: int| 0 <= i < self.tree@.len() implies {
                let e = #[trigger] self.tree@[i];
                &&& 1 <= e.literal < self.literal_values@.len()
                &&& self.literal_values@[e.literal as int] == Some(e.value)
            } by {
                if i < old_tree.len() {
                    assert(old_tree[i] == self.tree@[i]);
                    assert(old_tree[i].literal != w);
                }
            }
            assert forall|i: int, j: int| 0 <= i < j < self.tree@.len() implies #[trigger] self.tree@[i].literal
                != #[trigger] self.tree@[j].literal by {
                assert(old_tree.len() + 1 == self.tree@.len());
                if j < old_tree.len() {
                    assert(old_tree[i] == self.tree@[i] && old_tree[j] == self.tree@[j]);
                } else {
                    assert(old_tree[i] == self.tree@[i]);
                    assert(old_vals[old_tree[i].literal as int] == Some(old_tree[i].value));
                }
            }
            assert forall|v: int| 0 <= v < self.literal_values@.len() && (#[trigger] self.literal_values@[v]).is_some()
                implies exists|i: int| 0 <= i < self.tree@.len() && (#[trigger] self.tree@[i]).literal == v by {
                if v == w {
                    assert(self.tree@[old_tree.len() as int].literal == v);
                } else {
                    assert(old_vals[v].is_some());
                    let i = choose|i: int| 0 <= i < old_tree.len() && (#[trigger] old_tree[i]).literal == v;
                    assert(self.tree@[i] == old_tree[i]);
                }
            }
        }
    }

    /// Removes the newest trail entry and gives back to each clause the
    /// literals that its value had falsified.
    pub(crate) fn unassign_last(&mut self)
        requires
            old(self).wf(),
            old(self).tree@.len() > 0,
        ensures
            final(self).wf(),
            final(self).clauses@ == old(self).clauses@,
            final(self).literal_clauses@ == old(self).literal_clauses@,
            final(self).literal_values@ == old(self).literal_values@.update(
                old(self).tree@.last().literal as int,
                None,
            ),
            final(self).tree@ == old(self).tree@.drop_last(),
            final(self).propagated == if old(self).propagated < old(self).tree@.len() {
                old(self).propagated
            } else {
                (old(self).tree@.len() - 1) as usize
            },
    {
        let ghost old_vals = self.literal_values@;
        let ghost old_tree = self.tree@;
        let e = self.tree.pop().unwrap();
        let w = e.literal;
        let b = e.value;
        proof {
            assert(old_tree[old_tree.len() - 1] == e);
        }
        self.literal_values.set(w as usize, None);
        let ghost new_vals = self.literal_values@;
        proof {
            assert(new_vals.update(w as int, Some(b)) =~= old_vals);
        }
        if self.propagated > self.tree.len() {
            self.propagated = self.tree.len();
        }
        let ghost new_p = self.propagated;
        let n = self.literal_clauses[w as usize].len();
        let mut k: usize = 0;
        while k < n
            invariant
                self.clauses@ == old(self).clauses@,
                self.literal_clauses@ == old(self).literal_clauses@,
                self.propagated == new_p,
                new_p == if old(self).propagated < old_tree.len() {
                    old(self).propagated
                } else {
                    (old_tree.len() - 1) as usize
                },
                self.literal_values@ == new_vals,
                new_vals == old_vals.update(w as int, None),
                new_vals.update(w as int, Some(b)) == old_vals,
                self.tree@ == old_tree.drop_last(),
                old(self).wf(),
                old_vals == old(self).literal_values@,
                1 <= w < old_vals.len(),
                n == self.literal_clauses@[w as int]@.len(),
                k <= n,
                self.n_not_falses@.len() == self.clauses@.len(),
                forall|c: int|
                    0 <= c < self.clauses@.len() ==> #[trigger] self.n_not_falses@[c] == if self.literal_clauses@[w as int]@.take(k as int).contains(c as usize) {
                        live_count(self.clauses@[c]@, new_vals)
                    } else {
                        live_count(self.clauses@[c]@, old_vals)
                    },
            decreases n - k,
        {
            let c = self.literal_clauses[w as usize][k];
            let d = count_opposite(&self.clauses[c], w, b);
            let ghost occ = self.literal_clauses@[w as int]@;
            proof {
                let cl = self.clauses@[c as int]@;
                assert forall|j: int| 0 <= j < cl.len() implies 0 <= (#[trigger] cl[j]).0 < old_vals.len() by {
                    assert(1 <= self.clauses@[c as int]@[j].0);
                }
                lemma_live_assign(cl, new_vals, w as int, b);
                lemma_live_le_len(cl, new_vals);
                assert(!occ.take(k as int).contains(c)) by {
                    if occ.take(k as int).contains(c) {
                        let i = choose|i: int| 0 <= i < k && occ.take(k as int)[i] == c;
                        assert(occ[i] < occ[k as int]);
                    }
                }
                assert(occ.take(k + 1) =~= occ.take(k as int).push(c));
                assert(occ.take(k + 1)[k as int] == c);
                assert(occ.take(k + 1).contains(c));
            }
            let cur = self.n_not_falses[c];
            self.n_not_falses.set(c, cur + d);
            proof {
                assert forall|c2: int| 0 <= c2 < self.clauses@.len() && c2 != c implies
                    #[trigger] occ.take(k + 1).contains(c2 as usize) == occ.take(k as int).contains(c2 as usize) by {
                    if occ.take(k + 1).contains(c2 as usize) {
                        let i = choose|i: int| 0 <= i < k + 1 && #[trigger] occ.take(k + 1)[i] == c2 as usize;
                        if i == k {
                            assert(occ.take(k + 1)[i] == c);
                        } else {
                            assert(occ.take(k as int)[i] == c2 as usize);
                        }
                    }
                    if occ.take(k as int).contains(c2 as usize) {
                        let i = choose|i: int| 0 <= i < k && #[trigger] occ.take(k as int)[i] == c2 as usize;
                        assert(occ.take(k + 1)[i] == c2 as usize);
                    }
                }
            }
            k += 1;
        }
        proof {
            let occ = self.literal_clauses@[w as int]@;
            assert(occ.take(n as int) =~= occ);
            assert forall|c: int| 0 <= c < self.clauses@.len() implies #[trigger] self.n_not_falses@[c]
                == live_count(self.clauses@[c]@, self.literal_values@) by {
                let cl = self.clauses@[c]@;
                if !occ.contains(c as usize) {
                    if clause_has_var(cl, w as int) {
                        let j = choose|j: int| 0 <= j < cl.len() && (#[trigger] cl[j]).0 == w;
                        assert(self.literal_clauses@[self.clauses@[c]@[j].0 as int]@.contains(c as usize));
                    }
                    lemma_falsified_count_absent(cl, w as int, b);
                    assert forall|j: int| 0 <= j < cl.len() implies 0 <= (#[trigger] cl[j]).0 < old_vals.len() by {
                        assert(1 <= self.clauses@[c]@[j].0);
                    }
                    lemma_live_assign(cl, new_vals, w as int, b);
                }
            }
            let p = old(self).propagated as int;
            assert forall|c: int| 0 <= c < self.clauses@.len() implies !clause_falsified_by(
                self.tree@.take(self.propagated as int),
                #[trigger] self.clauses@[c]@,
            ) by {
                if p < old_tree.len() {
                    assert(self.tree@.take(p) =~= old_tree.take(p));
                } else {
                    assert(self.tree@.take(self.propagated as int) =~= old_tree.take(self.propagated as int));
                    if clause_falsified_by(old_tree.take(self.propagated as int), self.clauses@[c]@) {
                        lemma_falsified_prefix(old_tree, self.propagated as int, p, self.clauses@[c]@);
                    }
                }
            }
            assert forall|i: int| 0 <= i < self.tree@.len() implies {
                let e = #[trigger] self.tree@[i];
                &&& 1 <= e.literal < self.literal_values@.len()
                &&& self.literal_values@[e.literal as int] == Some(e.value)
            } by {
                assert(old_tree[i] == self.tree@[i]);
                assert(old_tree[i].literal != old_tree[old_tree.len() - 1].literal);
            }
            assert forall|i: int, j: int| 0 <= i < j < self.tree@.len() implies #[trigger] self.tree@[i].literal
                != #[trigger] self.tree@[j].literal by {
                assert(old_tree[i] == self.tree@[i] && old_tree[j] == self.tree@[j]);
            }
            assert forall|v: int| 0 <= v < self.literal_values@.len() && (#[trigger] self.literal_values@[v]).is_some()
                implies exists|i: int| 0 <= i < self.tree@.len() && (#[trigger] self.tree@[i]).literal == v by {
                assert(v != w);
                assert(old_vals[v].is_some());
                let i = choose|i: int| 0 <= i < old_tree.len() && (#[trigger] old_tree[i]).literal == v;
                assert(i != old_tree.len() - 1);
                assert(self.tree@[i] == old_tree[i]);
            }
        }
    }

    /// Pushes `literal = value` onto the trail (`picked` marks a decision) and
    /// returns its position, or reports `DoubleAssignment` and changes nothing
    /// when the variable already has a value.
    pub fn add_node(&mut self, literal: u16, value: bool, picked: bool) -> (r: Result<usize, SolverError>)
        requires
            old(self).wf(),
            1 <= literal <= old(self).num_vars(),
        ensures
            final(self).wf(),
            old(self).value_of(literal as int).is_some() ==> r == Err::<usize, SolverError>(SolverError::DoubleAssignment)
                && *final(self) == *old(self),
            old(self).value_of(literal as int).is_none() ==> {
                &&& r == Ok::<usize, SolverError>(old(self).tree@.len() as usize)
                &&& final(self).clauses@ == old(self).clauses@
                &&& final(self).literal_clauses@ == old(self).literal_clauses@
                &&& final(self).tree@ == old(self).tree@.push(Node { literal, value, picked })
                &&& final(self).propagated == old(self).propagated
            },
    {
        if self.literal_value(literal).is_some() {
            return Err(SolverError::DoubleAssignment);
        }
        let pos = self.tree.len();
        self.assign(literal, value, picked);
        Ok(pos)
    }

    /// Removes every trail entry from position `checkpoint` on, newest first,
    /// restoring the live counts that each removed value had lowered.
    pub fn truncate_to(&mut self, checkpoint: usize)
        requires
            old(self).wf(),
        ensures
            final(self).wf(),
            final(self).clauses@ == old(self).clauses@,
            final(self).literal_clauses@ == old(self).literal_clauses@,
            final(self).tree@ == if checkpoint < old(self).tree@.len() {
                old(self).tree@.take(checkpoint as int)
            } else {
                old(self).tree@
            },
            final(self).propagated == if checkpoint < old(self).propagated {
                checkpoint
            } else {
                old(self).propagated
            },
    {
        while self.tree.len() > checkpoint
            invariant
                self.wf(),
                old(self).wf(),
                self.clauses@ == old(self).clauses@,
                self.literal_clauses@ == old(self).literal_clauses@,
                self.tree@.len() <= old(self).tree@.len(),
                checkpoint < old(self).tree@.len() ==> self.tree@.len() >= checkpoint,
                old(self).tree@.len() <= checkpoint ==> self.tree@.len() == old(self).tree@.len(),
                self.tree@ == old(self).tree@.take(self.tree@.len() as int),
                self.propagated == if self.tree@.len() < old(self).propagated {
                    self.tree@.len() as usize
                } else {
                    old(self).propagated
                },
            decreases self.tree@.len(),
        {
            self.unassign_last();
            assert(self.tree@ =~= old(self).tree@.take(self.tree@.len() as int));
        }
        assert(old(self).tree@.take(old(self).tree@.len() as int) =~= old(self).tree@);
    }

    /// The position of the newest decision before position `checkpoint`, if any.
    pub fn last_decision_before(&self, checkpoint: usize) -> (r: Option<usize>)
        requires
            self.wf(),
        ensures
            match r {
                Some(i) => {
                    &&& i < checkpoint
                    &&& i < self.tree@.len()
                    &&& self.tree@[i as int].picked
                    &&& forall|j: int| i < j < checkpoint && j < self.tree@.len() ==> !(#[trigger] self.tree@[j]).picked
                },
                None => forall|j: int| 0 <= j < checkpoint && j < self.tree@.len() ==> !(#[trigger] self.tree@[j]).picked,
            },
    {
        let mut i: usize = if checkpoint < self.tree.len() {
            checkpoint
        } else {
            self.tree.len()
        };
        while i > 0
            invariant
                i <= checkpoint,
                i <= self.tree@.len(),
                forall|j: int| i <= j < checkpoint && j < self.tree@.len() ==> !(#[trigger] self.tree@[j]).picked,
            decreases i,
        {
            if self.tree[i - 1].picked {
                return Some(i - 1);
            }
            i -= 1;
        }
        None
    }

    /// Whether some literal of clause `clause_id` is satisfied by the current values.
    pub fn is_satisfied(&self, clause_id: usize) -> (r: bool)
        requires
            self.wf(),
            clause_id < self.clauses@.len(),
        ensures
            r == clause_satisfied(self.clauses@[clause_id as int]@, self.literal_values@),
    {
        let clause = &self.clauses[clause_id];
        let mut j: usize = 0;
        while j < clause.len()
            invariant
                self.wf(),
                clause_id < self.clauses@.len(),
                clause@ == self.clauses@[clause_id as int]@,
                j <= clause@.len(),
                forall|k: int| 0 <= k < j ==> !lit_satisfied(#[trigger] clause@[k], self.literal_values@),
            decreases clause@.len() - j,
        {
            let (v, pol) = clause[j];
            if self.literal_values[v as usize] == Some(pol) {
                assert(lit_satisfied(clause@[j as int], self.literal_values@));
                return true;
            }
            j += 1;
        }
        false
    }
}

} // verus!
