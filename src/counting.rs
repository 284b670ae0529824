use vstd::prelude::*;
use crate::model::{Lit, live_count, lit_falsified, clause_has_var};

verus! {

/// How many literals of `c` are over variable `w` with the polarity opposite to `b`.
pub open spec fn falsified_count(c: Seq<Lit>, w: int, b: bool) -> nat
    decreases c.len(),
{
    if c.len() == 0 {
        0
    } else {
        falsified_count(c.drop_last(), w, b) + if c.last().0 == w && c.last().1 != b {
            1nat
        } else {
            0nat
        }
    }
}

pub proof fn lemma_live_le_len(c: Seq<Lit>, vals: Seq<Option<bool>>)
    ensures
        live_count(c, vals) <= c.len(),
    decreases c.len(),
{
    if c.len() > 0 {
        lemma_live_le_len(c.drop_last(), vals);
    }
}

/// Giving the unassigned variable `w` the value `b` takes from the live count
/// exactly the literals that it falsifies.
pub proof fn lemma_live_assign(c: Seq<Lit>, vals: Seq<Option<bool>>, w: int, b: bool)
    requires
        0 <= w < vals.len(),
        vals[w].is_none(),
        forall|j: int| 0 <= j < c.len() ==> 0 <= (#[trigger] c[j]).0 < vals.len(),
    ensures
        live_count(c, vals.update(w, Some(b))) + falsified_count(c, w, b) == live_count(c, vals),
    decreases c.len(),
{
    if c.len() > 0 {
        let d = c.drop_last();
        assert forall|j: int| 0 <= j < d.len() implies 0 <= (#[trigger] d[j]).0 < vals.len() by {
            assert(d[j] == c[j]);
        }
        lemma_live_assign(d, vals, w, b);
        assert(c[c.len() - 1] == c.last());
    }
}

pub proof fn lemma_falsified_count_absent(c: Seq<Lit>, w: int, b: bool)
    requires
        !clause_has_var(c, w),
    ensures
        falsified_count(c, w, b) == 0,
    decreases c.len(),
{
    if c.len() > 0 {
        let d = c.drop_last();
        if clause_has_var(d, w) {
            let j = choose|j: int| 0 <= j < d.len() && (#[trigger] d[j]).0 == w;
            assert(c[j] == d[j]);
        }
        lemma_falsified_count_absent(d, w, b);
        assert(c[c.len() - 1] == c.last());
    }
}

/// The live count is zero exactly when every literal is falsified.
pub proof fn lemma_live_zero(c: Seq<Lit>, vals: Seq<Option<bool>>)
    ensures
        (live_count(c, vals) == 0) == (forall|j: int| 0 <= j < c.len() ==> lit_falsified(#[trigger] c[j], vals)),
    decreases c.len(),
{
    if c.len() > 0 {
        let d = c.drop_last();
        lemma_live_zero(d, vals);
        assert forall|j: int| 0 <= j < d.len() implies d[j] == c[j] by {}
        if live_count(c, vals) == 0 {
            assert forall|j: int| 0 <= j < c.len() implies lit_falsified(#[trigger] c[j], vals) by {
                if j < d.len() {
                    assert(lit_falsified(d[j], vals));
                }
            }
        }
        if forall|j: int| 0 <= j < c.len() ==> lit_falsified(#[trigger] c[j], vals) {
            assert(lit_falsified(c[c.len() - 1], vals));
            assert forall|j: int| 0 <= j < d.len() implies lit_falsified(#[trigger] d[j], vals) by {
                assert(lit_falsified(c[j], vals));
            }
        }
    }
}

/// With a live count of one, exactly one literal is not falsified.
pub proof fn lemma_live_one(c: Seq<Lit>, vals: Seq<Option<bool>>, k: int)
    requires
        live_count(c, vals) == 1,
        0 <= k < c.len(),
        !lit_falsified(c[k], vals),
    ensures
        forall|j: int| 0 <= j < c.len() && j != k ==> lit_falsified(#[trigger] c[j], vals),
    decreases c.len(),
{
    let d = c.drop_last();
    assert forall|j: int| 0 <= j < d.len() implies d[j] == c[j] by {}
    if k == c.len() - 1 {
        lemma_live_zero(d, vals);
        assert forall|j: int| 0 <= j < c.len() && j != k implies lit_falsified(#[trigger] c[j], vals) by {
            assert(lit_falsified(d[j], vals));
        }
    } else {
        assert(d[k] == c[k]);
        if !lit_falsified(c.last(), vals) {
            lemma_live_zero(d, vals);
            assert(lit_falsified(d[k], vals));
        }
        lemma_live_one(d, vals, k);
        assert forall|j: int| 0 <= j < c.len() && j != k implies lit_falsified(#[trigger] c[j], vals) by {
            if j < d.len() {
                assert(lit_falsified(d[j], vals));
            }
        }
    }
}

} // verus!
