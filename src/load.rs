use vstd::prelude::*;
use crate::model::{Lit, Node, Solver, SolverError, live_count, lit_falsified, clause_has_var, clause_falsified_by};
use crate::parse::{parse_dimacs, parse_spec, views, lits_ok};

verus! {

/// Adding an entry past every variable of `c` leaves its live count unchanged.
proof fn lemma_live_extend(c: Seq<Lit>, vals: Seq<Option<bool>>, x: Option<bool>)
    requires
        forall|j: int| 0 <= j < c.len() ==> 0 <= (#[trigger] c[j]).0 < vals.len(),
    ensures
        live_count(c, vals.push(x)) == live_count(c, vals),
    decreases c.len(),
{
    if c.len() > 0 {
        let d = c.drop_last();
        assert forall|j: int| 0 <= j < d.len() implies 0 <= (#[trigger] d[j]).0 < vals.len() by {
            assert(d[j] == c[j]);
        }
        lemma_live_extend(d, vals, x);
        assert(c[c.len() - 1] == c.last());
    }
}

/// The literal that a nonzero signed integer stands for.
pub open spec fn lit_of_int(x: i32) -> Lit {
    ((if x < 0 { -(x as int) } else { x as int }) as u16, x > 0)
}

/// A clause without its trailing `0`, if it has one.
pub open spec fn clause_body(c: Seq<i32>) -> Seq<i32> {
    if c.len() > 0 && c.last() == 0 {
        c.drop_last()
    } else {
        c
    }
}

/// One clause given as signed integers: a trailing `0` is dropped; the rest
/// must be nonempty, hold no `0`, and have magnitudes at most 32767.
pub open spec fn clause_of_ints_spec(c: Seq<i32>) -> Option<Seq<Lit>> {
    let body = clause_body(c);
    if body.len() == 0 || exists|j: int| 0 <= j < body.len() && ((#[trigger] body[j]) == 0 || body[j] > 32767 || body[j] < -32767) {
        None
    } else {
        Some(body.map_values(|x: i32| lit_of_int(x)))
    }
}

/// Every clause converted, or `None` if any one is malformed.
pub open spec fn clauses_of_ints(cs: Seq<Seq<i32>>) -> Option<Seq<Seq<Lit>>>
    decreases cs.len(),
{
    if cs.len() == 0 {
        Some(Seq::empty())
    } else {
        match (clauses_of_ints(cs.drop_last()), clause_of_ints_spec(cs.last())) {
            (Some(a), Some(c)) => Some(a.push(c)),
            _ => None,
        }
    }
}

proof fn lemma_ints_failed_stays(cs: Seq<Seq<i32>>, i: int)
    requires
        0 <= i <= cs.len(),
        clauses_of_ints(cs.take(i)) is None,
    ensures
        clauses_of_ints(cs) is None,
    decreases cs.len() - i,
{
    if i == cs.len() {
        assert(cs.take(i) =~= cs);
    } else {
        assert(cs.take(i + 1).drop_last() =~= cs.take(i));
        lemma_ints_failed_stays(cs, i + 1);
    }
}

fn clause_of_ints(c: &Vec<i32>) -> (r: Option<Vec<Lit>>)
    ensures
        match clause_of_ints_spec(c@) {
            None => r is None,
            Some(l) => r is Some && r->Some_0@ == l && l.len() > 0 && lits_ok(l),
        },
{
    let n = if c.len() > 0 && c[c.len() - 1] == 0 { c.len() - 1 } else { c.len() };
    let ghost body = clause_body(c@);
    assert(body =~= c@.take(n as int));
    if n == 0 {
        return None;
    }
    let mut out: Vec<Lit> = Vec::new();
    let mut j: usize = 0;
    while j < n
        invariant
            n <= c@.len(),
            body == c@.take(n as int),
            body == clause_body(c@),
            j <= n,
            forall|k: int| 0 <= k < j ==> !((#[trigger] body[k]) == 0 || body[k] > 32767 || body[k] < -32767),
            out@ == body.take(j as int).map_values(|x: i32| lit_of_int(x)),
            lits_ok(out@),
        decreases n - j,
    {
        let x = c[j];
        assert(body[j as int] == x);
        if x == 0 || x > 32767 || x < -32767 {
            assert(body[j as int] == 0 || body[j as int] > 32767 || body[j as int] < -32767);
            return None;
        }
        let v: u16 = if x < 0 { (-x) as u16 } else { x as u16 };
        out.push((v, x > 0));
        assert(out@ =~= body.take(j + 1).map_values(|x: i32| lit_of_int(x)));
        j += 1;
    }
    assert(body.take(n as int) =~= body);
    Some(out)
}

impl Solver {
    /// Makes room for variables up to `m`.
    fn grow_vars(&mut self, m: u16)
        requires
            old(self).wf(),
        ensures
            final(self).wf(),
            final(self).tree@ == old(self).tree@,
            final(self).propagated == old(self).propagated,
            final(self).clauses@ == old(self).clauses@,
            final(self).num_vars() == if m > old(self).num_vars() { m as nat } else { old(self).num_vars() },
    {
        while self.literal_values.len() <= m as usize
            invariant
                self.wf(),
                self.tree@ == old(self).tree@,
                self.propagated == old(self).propagated,
                self.clauses@ == old(self).clauses@,
                old(self).literal_values@.len() <= self.literal_values@.len(),
                self.literal_values@.len() <= old(self).literal_values@.len() || self.literal_values@.len() <= m + 1,
            decreases m + 1 - self.literal_values@.len(),
        {
            let ghost s0 = *self;
            self.literal_values.push(None);
            self.literal_clauses.push(Vec::new());
            proof {
                assert forall|c: int| 0 <= c < self.clauses@.len() implies #[trigger] self.n_not_falses@[c]
                    == live_count(self.clauses@[c]@, self.literal_values@) by {
                    let cl = self.clauses@[c]@;
                    assert forall|j: int| 0 <= j < cl.len() implies 0 <= (#[trigger] cl[j]).0 < s0.literal_values@.len() by {
                        assert(1 <= s0.clauses@[c]@[j].0);
                    }
                    lemma_live_extend(cl, s0.literal_values@, None);
                }
                assert forall|i: int| 0 <= i < self.tree@.len() implies {
                    let e = #[trigger] self.tree@[i];
                    &&& 1 <= e.literal < self.literal_values@.len()
                    &&& self.literal_values@[e.literal as int] == Some(e.value)
                } by {
                    assert(s0.literal_values@[s0.tree@[i].literal as int] == Some(s0.tree@[i].value));
                }
                assert forall|v: int| 0 <= v < self.literal_values@.len() && (#[trigger] self.literal_values@[v]).is_some()
                    implies exists|i: int| 0 <= i < self.tree@.len() && (#[trigger] self.tree@[i]).literal == v by {
                    if v == s0.literal_values@.len() {
                        assert(self.literal_values@[v] == None::<bool>);
                    }
                    assert(self.literal_values@[v] == s0.literal_values@[v]);
                    assert(s0.literal_values@[v].is_some());
                    let i = choose|i: int| 0 <= i < s0.tree@.len() && (#[trigger] s0.tree@[i]).literal == v;
                    assert(self.tree@[i].literal == v);
                }
                assert forall|v: int, k: int|
                    0 <= v < self.literal_clauses@.len() && 0 <= k < self.literal_clauses@[v]@.len() implies {
                        let c = #[trigger] self.literal_clauses@[v]@[k];
                        c < self.clauses@.len() && clause_has_var(self.clauses@[c as int]@, v)
                    } by {
                    assert(self.literal_clauses@[v] == s0.literal_clauses@[v]);
                }
                assert forall|v: int, k1: int, k2: int|
                    0 <= v < self.literal_clauses@.len() && 0 <= k1 < k2 < self.literal_clauses@[v]@.len()
                    implies #[trigger] self.literal_clauses@[v]@[k1] < #[trigger] self.literal_clauses@[v]@[k2] by {
                    assert(self.literal_clauses@[v] == s0.literal_clauses@[v]);
                }
                assert forall|c: int, j: int|
                    0 <= c < self.clauses@.len() && 0 <= j < self.clauses@[c]@.len()
                    implies self.literal_clauses@[(#[trigger] self.clauses@[c]@[j]).0 as int]@.contains(c as usize) by {
                    assert(s0.literal_clauses@[self.clauses@[c]@[j].0 as int]@.contains(c as usize));
                    assert(self.literal_clauses@[self.clauses@[c]@[j].0 as int] == s0.literal_clauses@[self.clauses@[c]@[j].0 as int]);
                }
                assert(self.tree@.take(self.propagated as int) =~= s0.tree@.take(s0.propagated as int));
            }
        }
    }

    /// How many literals of `cl` the current values do not falsify.
    fn count_live(&self, cl: &Vec<Lit>) -> (r: usize)
        requires
            self.wf(),
            forall|j: int| 0 <= j < cl@.len() ==> 1 <= (#[trigger] cl@[j]).0 < self.literal_values@.len(),
        ensures
            r == live_count(cl@, self.literal_values@),
    {
        let mut r: usize = 0;
        let mut j: usize = 0;
        while j < cl.len()
            invariant
                self.wf(),
                forall|j: int| 0 <= j < cl@.len() ==> 1 <= (#[trigger] cl@[j]).0 < self.literal_values@.len(),
                j <= cl@.len(),
                r <= j,
                r == live_count(cl@.take(j as int), self.literal_values@),
            decreases cl@.len() - j,
        {
            proof {
                assert(cl@.take(j + 1).drop_last() =~= cl@.take(j as int));
                assert(cl@.take(j + 1).last() == cl@[j as int]);
            }
            let (v, pol) = cl[j];
            assert(1 <= cl@[j as int].0);
            if self.literal_values[v as usize] != Some(!pol) {
                r += 1;
            }
            j += 1;
        }
        assert(cl@.take(cl@.len() as int) =~= cl@);
        r
    }

    /// Appends one clause to the store and records it in the occurrence index.
    fn push_clause(&mut self, src: &Vec<Lit>)
        requires
            old(self).wf(),
            old(self).propagated == 0,
            src@.len() > 0,
            forall|j: int| 0 <= j < src@.len() ==> 1 <= (#[trigger] src@[j]).0 < old(self).literal_values@.len(),
        ensures
            final(self).wf(),
            final(self).tree@ == old(self).tree@,
            final(self).propagated == 0,
            final(self).formula() == old(self).formula().push(src@),
            final(self).num_vars() == old(self).num_vars(),
    {
        let mut cl: Vec<Lit> = Vec::new();
        let mut j: usize = 0;
        while j < src.len()
            invariant
                j <= src@.len(),
                cl@ == src@.take(j as int),
            decreases src@.len() - j,
        {
            cl.push(src[j]);
            j += 1;
            assert(cl@ =~= src@.take(j as int));
        }
        assert(cl@ =~= src@);
        let live = self.count_live(&cl);
        let c_id = self.clauses.len();
        let n = cl.len();
        let ghost s0 = *self;
        self.clauses.push(cl);
        let total = self.clauses.len();
        assert(total == c_id + 1);
        self.n_not_falses.push(live);
        let ghost cv = self.clauses@[c_id as int]@;
        proof {
            assert(cv == src@);
        }
        let mut j: usize = 0;
        while j < n
            invariant
                s0.wf(),
                s0.propagated == 0,
                live == live_count(cv, s0.literal_values@),
                c_id == s0.clauses@.len(),
                self.clauses@ == s0.clauses@.push(self.clauses@[c_id as int]),
                cv == self.clauses@[c_id as int]@,
                cv == src@,
                n == cv.len(),
                self.n_not_falses@ == s0.n_not_falses@.push(live),
                self.literal_values@ == s0.literal_values@,
                self.tree@ == s0.tree@,
                self.propagated == s0.propagated,
                forall|j: int| 0 <= j < cv.len() ==> 1 <= (#[trigger] cv[j]).0 < s0.literal_values@.len(),
                j <= n,
                self.literal_clauses@.len() == s0.literal_clauses@.len(),
                forall|v: int, k: int|
                    0 <= v < self.literal_clauses@.len() && 0 <= k < self.literal_clauses@[v]@.len() ==> {
                        let c = #[trigger] self.literal_clauses@[v]@[k];
                        c < self.clauses@.len() && clause_has_var(self.clauses@[c as int]@, v)
                    },
                forall|v: int, k1: int, k2: int|
                    0 <= v < self.literal_clauses@.len() && 0 <= k1 < k2 < self.literal_clauses@[v]@.len()
                        ==> #[trigger] self.literal_clauses@[v]@[k1] < #[trigger] self.literal_clauses@[v]@[k2],
                forall|c: int, jj: int|
                    0 <= c < self.clauses@.len() && 0 <= jj < self.clauses@[c]@.len() && (c < c_id || jj < j)
                        ==> self.literal_clauses@[(#[trigger] self.clauses@[c]@[jj]).0 as int]@.contains(c as usize),
            decreases n - j,
        {
            let v = self.clauses[c_id][j].0 as usize;
            let ghost lc0 = self.literal_clauses@;
            let len_v = self.literal_clauses[v].len();
            if len_v == 0 || self.literal_clauses[v][len_v - 1] != c_id {
                proof {
                    if len_v > 0 {
                        assert(lc0[v as int]@[len_v - 1] < self.clauses@.len());
                    }
                }
                self.literal_clauses[v].push(c_id);
                proof {
                    assert(self.literal_clauses@[v as int]@ == lc0[v as int]@.push(c_id));
                    assert forall|u: int, k: int|
                        0 <= u < self.literal_clauses@.len() && 0 <= k < self.literal_clauses@[u]@.len() implies {
                            let c = #[trigger] self.literal_clauses@[u]@[k];
                            c < self.clauses@.len() && clause_has_var(self.clauses@[c as int]@, u)
                        } by {
                        if u == v && k == len_v {
                            assert(self.clauses@[c_id as int]@[j as int].0 == v);
                        } else {
                            assert(self.literal_clauses@[u]@[k] == lc0[u]@[k]);
                        }
                    }
                    assert forall|u: int, k1: int, k2: int|
                        0 <= u < self.literal_clauses@.len() && 0 <= k1 < k2 < self.literal_clauses@[u]@.len()
                        implies #[trigger] self.literal_clauses@[u]@[k1] < #[trigger] self.literal_clauses@[u]@[k2] by {
                        if u == v {
                            if k2 == len_v {
                                assert(lc0[u]@[k1] < self.clauses@.len());
                                if k1 < len_v - 1 {
                                    assert(lc0[u]@[k1] < lc0[u]@[len_v - 1]);
                                }
                            } else {
                                assert(lc0[u]@[k1] < lc0[u]@[k2]);
                            }
                        } else {
                            assert(lc0[u]@[k1] < lc0[u]@[k2]);
                        }
                    }
                    assert forall|c: int, jj: int|
                        0 <= c < self.clauses@.len() && 0 <= jj < self.clauses@[c]@.len() && (c < c_id || jj < j + 1)
                        implies self.literal_clauses@[(#[trigger] self.clauses@[c]@[jj]).0 as int]@.contains(c as usize) by {
                        let u = self.clauses@[c]@[jj].0 as int;
                        if c == c_id && jj == j {
                            assert(self.literal_clauses@[v as int]@[len_v as int] == c_id);
                        } else {
                            assert(lc0[u]@.contains(c as usize));
                            let k = choose|k: int| 0 <= k < lc0[u]@.len() && lc0[u]@[k] == c as usize;
                            assert(self.literal_clauses@[u]@[k] == c as usize);
                        }
                    }
                }
            } else {
                proof {
                    assert forall|c: int, jj: int|
                        0 <= c < self.clauses@.len() && 0 <= jj < self.clauses@[c]@.len() && (c < c_id || jj < j + 1)
                        implies self.literal_clauses@[(#[trigger] self.clauses@[c]@[jj]).0 as int]@.contains(c as usize) by {
                        if c == c_id && jj == j {
                            assert(self.literal_clauses@[v as int]@[len_v - 1] == c_id);
                        }
                    }
                }
            }
            j += 1;
        }
        proof {
            assert forall|c: int| 0 <= c < self.clauses@.len() implies #[trigger] self.n_not_falses@[c]
                == live_count(self.clauses@[c]@, self.literal_values@) by {
                if c < c_id {
                    assert(self.clauses@[c] == s0.clauses@[c]);
                    assert(self.n_not_falses@[c] == s0.n_not_falses@[c]);
                }
            }
            assert forall|c: int| 0 <= c < self.clauses@.len() implies #[trigger] self.clauses@[c]@.len() > 0 by {
                if c < c_id {
                    assert(self.clauses@[c] == s0.clauses@[c]);
                }
            }
            assert forall|c: int, jj: int|
                0 <= c < self.clauses@.len() && 0 <= jj < self.clauses@[c]@.len() implies 1
                    <= (#[trigger] self.clauses@[c]@[jj]).0 < self.literal_values@.len() by {
                if c < c_id {
                    assert(self.clauses@[c] == s0.clauses@[c]);
                    assert(1 <= s0.clauses@[c]@[jj].0);
                }
            }
            assert(self.tree@.take(self.propagated as int) =~= Seq::<Node>::empty());
            assert forall|c: int| 0 <= c < self.clauses@.len() implies !clause_falsified_by(
                self.tree@.take(self.propagated as int),
                #[trigger] self.clauses@[c]@,
            ) by {
                assert(self.clauses@[c]@.len() > 0);
                let l = self.clauses@[c]@[0];
            }
            assert(self.formula() =~= s0.formula().push(src@));
            assert(self.clauses_ok());
            assert(self.index_ok());
            assert(self.counts_ok());
            assert(self.trail_ok());
            assert(self.queue_ok());
        }
    }

    /// Adds clauses whose literals all name variables `1..=32767`, growing the
    /// variable table to the largest variable named. The trail is kept; propagation will examine it again from its start.
    fn load_clauses(&mut self, cs: &Vec<Vec<Lit>>)
        requires
            old(self).wf(),
            forall|c: int| 0 <= c < cs@.len() ==> (#[trigger] cs@[c])@.len() > 0 && lits_ok(cs@[c]@),
        ensures
            final(self).wf(),
            final(self).formula() == old(self).formula() + views(cs@),
            final(self).tree@ == old(self).tree@,
            final(self).propagated == 0,
            old(self).num_vars() <= final(self).num_vars(),
            forall|c: int, j: int| 0 <= c < cs@.len() && 0 <= j < cs@[c]@.len() ==> (#[trigger] views(cs@)[c][j]).0 <= final(self).num_vars(),
            final(self).num_vars() == old(self).num_vars()
                || exists|c: int, j: int| 0 <= c < cs@.len() && 0 <= j < cs@[c]@.len() && (#[trigger] views(cs@)[c][j]).0 == final(self).num_vars(),
    {
        let ghost csv = views(cs@);
        let ghost n0 = self.num_vars();
        let mut m: u16 = (self.literal_values.len() - 1) as u16;
        let mut i: usize = 0;
        while i < cs.len()
            invariant
                csv == views(cs@),
                i <= cs@.len(),
                n0 <= m,
                m as int == n0 || exists|c: int, j: int| 0 <= c < csv.len() && 0 <= j < csv[c].len() && (#[trigger] csv[c][j]).0 == m,
                forall|c: int, j: int| 0 <= c < i && 0 <= j < csv[c].len() ==> (#[trigger] csv[c][j]).0 <= m,
            decreases cs@.len() - i,
        {
            let mut j: usize = 0;
            while j < cs[i].len()
                invariant
                    csv == views(cs@),
                    i < cs@.len(),
                    j <= cs@[i as int]@.len(),
                    n0 <= m,
                    m as int == n0 || exists|c: int, j: int| 0 <= c < csv.len() && 0 <= j < csv[c].len() && (#[trigger] csv[c][j]).0 == m,
                    forall|c: int, jj: int| 0 <= c < i && 0 <= jj < csv[c].len() ==> (#[trigger] csv[c][jj]).0 <= m,
                    forall|jj: int| 0 <= jj < j ==> (#[trigger] csv[i as int][jj]).0 <= m,
                decreases cs@[i as int]@.len() - j,
            {
                assert(csv[i as int] == cs@[i as int]@);
                if cs[i][j].0 > m {
                    m = cs[i][j].0;
                    assert(csv[i as int][j as int].0 == m);
                }
                j += 1;
            }
            assert(csv[i as int] == cs@[i as int]@);
            i += 1;
        }
        self.propagated = 0;
        proof {
            assert(self.tree@.take(0) =~= Seq::<Node>::empty());
            assert forall|c: int| 0 <= c < self.clauses@.len() implies !clause_falsified_by(
                self.tree@.take(self.propagated as int),
                #[trigger] self.clauses@[c]@,
            ) by {
                assert(self.clauses@[c]@.len() > 0);
                let l = self.clauses@[c]@[0];
            }
        }
        let ghost f0 = self.formula();
        assert(f0 == old(self).formula());
        self.grow_vars(m);
        let mut i: usize = 0;
        while i < cs.len()
            invariant
                csv == views(cs@),
                forall|c: int| 0 <= c < cs@.len() ==> (#[trigger] cs@[c])@.len() > 0 && lits_ok(cs@[c]@),
                forall|c: int, j: int| 0 <= c < csv.len() && 0 <= j < csv[c].len() ==> (#[trigger] csv[c][j]).0 <= m,
                i <= cs@.len(),
                self.wf(),
                self.tree@ == old(self).tree@,
                self.propagated == 0,
                self.num_vars() == m,
                self.formula() == f0 + csv.take(i as int),
            decreases cs@.len() - i,
        {
            proof {
                assert(csv[i as int] == cs@[i as int]@);
                assert forall|j: int| 0 <= j < cs@[i as int]@.len() implies 1 <= (#[trigger] cs@[i as int]@[j]).0 < self.literal_values@.len() by {
                    assert(csv[i as int][j] == cs@[i as int]@[j]);
                }
            }
            self.push_clause(&cs[i]);
            proof {
                assert(csv.take(i + 1) =~= csv.take(i as int).push(cs@[i as int]@));
                assert(self.formula() =~= f0 + csv.take(i + 1));
            }
            i += 1;
        }
        proof {
            assert(csv.take(cs@.len() as int) =~= csv);
        }
    }

    /// Reads a DIMACS text (see `parse_spec`) and adds its clauses, growing the
    /// variable table to the largest variable named. The trail is kept;
    /// propagation will examine it again from its start. On malformed input nothing changes.
    pub fn add_sat_file(&mut self, text: &[u8]) -> (r: Result<(), SolverError>)
        requires
            old(self).wf(),
        ensures
            final(self).wf(),
            match parse_spec(text@) {
                None => r == Err::<(), SolverError>(SolverError::MalformedInput) && *final(self) == *old(self),
                Some(cs) => {
                    &&& r == Ok::<(), SolverError>(())
                    &&& final(self).formula() == old(self).formula() + cs
                    &&& final(self).tree@ == old(self).tree@
                    &&& final(self).propagated == 0
                    &&& old(self).num_vars() <= final(self).num_vars()
                    &&& forall|c: int, j: int| 0 <= c < cs.len() && 0 <= j < cs[c].len() ==> (#[trigger] cs[c][j]).0 <= final(self).num_vars()
                    &&& final(self).num_vars() == old(self).num_vars()
                        || exists|c: int, j: int| 0 <= c < cs.len() && 0 <= j < cs[c].len() && (#[trigger] cs[c][j]).0 == final(self).num_vars()
                },
            },
    {
        let cs = match parse_dimacs(text) {
            Err(e) => {
                return Err(e);
            },
            Ok(cs) => cs,
        };
        self.load_clauses(&cs);
        Ok(())
    }

    /// Adds clauses given as signed integers (see `clauses_of_ints`): a
    /// trailing `0` ends a clause and is dropped. A clause left empty, a `0`
    /// inside a clause, or a magnitude above 32767 is `MalformedInput`, and
    /// then nothing changes. The trail is kept; propagation will examine it again from its start.
    pub fn add_clauses(&mut self, clause_list: &Vec<Vec<i32>>) -> (r: Result<(), SolverError>)
        requires
            old(self).wf(),
        ensures
            final(self).wf(),
            match clauses_of_ints(clause_list@.map_values(|c: Vec<i32>| c@)) {
                None => r == Err::<(), SolverError>(SolverError::MalformedInput) && *final(self) == *old(self),
                Some(cs) => {
                    &&& r == Ok::<(), SolverError>(())
                    &&& final(self).formula() == old(self).formula() + cs
                    &&& final(self).tree@ == old(self).tree@
                    &&& final(self).propagated == 0
                    &&& old(self).num_vars() <= final(self).num_vars()
                    &&& forall|c: int, j: int| 0 <= c < cs.len() && 0 <= j < cs[c].len() ==> (#[trigger] cs[c][j]).0 <= final(self).num_vars()
                    &&& final(self).num_vars() == old(self).num_vars()
                        || exists|c: int, j: int| 0 <= c < cs.len() && 0 <= j < cs[c].len() && (#[trigger] cs[c][j]).0 == final(self).num_vars()
                },
            },
    {
        let ghost ints = clause_list@.map_values(|c: Vec<i32>| c@);
        let mut cs: Vec<Vec<Lit>> = Vec::new();
        let mut i: usize = 0;
        while i < clause_list.len()
            invariant
                ints == clause_list@.map_values(|c: Vec<i32>| c@),
                i <= clause_list@.len(),
                *self == *old(self),
                self.wf(),
                clauses_of_ints(ints.take(i as int)) == Some(views(cs@)),
                forall|c: int| 0 <= c < cs@.len() ==> (#[trigger] cs@[c])@.len() > 0 && lits_ok(cs@[c]@),
            decreases clause_list@.len() - i,
        {
            proof {
                assert(ints.take(i + 1).drop_last() =~= ints.take(i as int));
                assert(ints.take(i + 1).last() == clause_list@[i as int]@);
            }
            match clause_of_ints(&clause_list[i]) {
                None => {
                    proof {
                        lemma_ints_failed_stays(ints, i + 1);
                    }
                    return Err(SolverError::MalformedInput);
                },
                Some(c) => {
                    let ghost before = cs@;
                    cs.push(c);
                    proof {
                        assert(views(cs@) =~= views(before).push(cs@[before.len() as int]@));
                    }
                },
            }
            i += 1;
        }
        proof {
            assert(ints.take(clause_list@.len() as int) =~= ints);
        }
        let ghost pre = *self;
        self.load_clauses(&cs);
        assert(self.tree@ == pre.tree@ && pre.tree@ == old(self).tree@);
        assert(clauses_of_ints(ints) == Some(views(cs@)));
        Ok(())
    }
}

} // verus!
