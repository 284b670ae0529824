use vstd::prelude::*;
use crate::model::{Lit, Solver, SearchOutcome, is_model, lex_greater, live_count};
use crate::search::search_result;

verus! {

/// Two solver states with the same clauses, the same variable count and the
/// same trail hold the same value table and the same live counts. So
/// truncating the trail to a checkpoint and pushing the removed entries again
/// restores exactly the counts held before.
pub proof fn lemma_counts_follow_trail(s1: Solver, s2: Solver)
    requires
        s1.wf(),
        s2.wf(),
        s1.formula() == s2.formula(),
        s1.num_vars() == s2.num_vars(),
        s1.tree@ == s2.tree@,
    ensures
        s1.literal_values@ == s2.literal_values@,
        s1.n_not_falses@ == s2.n_not_falses@,
{
    assert forall|v: int| 0 <= v < s1.literal_values@.len() implies s1.literal_values@[v] == s2.literal_values@[v] by {
        if s1.literal_values@[v].is_some() {
            let i = choose|i: int| 0 <= i < s1.tree@.len() && (#[trigger] s1.tree@[i]).literal == v;
            assert(s2.tree@[i] == s1.tree@[i]);
        } else if s2.literal_values@[v].is_some() {
            let i = choose|i: int| 0 <= i < s2.tree@.len() && (#[trigger] s2.tree@[i]).literal == v;
            assert(s2.tree@[i] == s1.tree@[i]);
        }
    }
    assert(s1.literal_values@ =~= s2.literal_values@);
    assert(s1.formula().len() == s1.clauses@.len());
    assert(s2.formula().len() == s2.clauses@.len());
    assert forall|c: int| 0 <= c < s1.n_not_falses@.len() implies s1.n_not_falses@[c] == s2.n_not_falses@[c] by {
        assert(s1.formula()[c] == s1.clauses@[c]@);
        assert(s2.formula()[c] == s2.clauses@[c]@);
        assert(s1.n_not_falses@[c] == live_count(s1.clauses@[c]@, s1.literal_values@));
        assert(s2.n_not_falses@[c] == live_count(s2.clauses@[c]@, s2.literal_values@));
    }
    assert(s1.n_not_falses@ =~= s2.n_not_falses@);
}

proof fn lemma_first_difference(a: Seq<bool>, b: Seq<bool>, k: int)
    requires
        a.len() == b.len(),
        0 <= k <= a.len(),
        exists|u: int| 0 <= u < k && a[u] != b[u],
    ensures
        exists|u: int| 0 <= u < k && a[u] != b[u] && forall|i: int| 0 <= i < u ==> #[trigger] a[i] == b[i],
    decreases k,
{
    if exists|u: int| 0 <= u < k - 1 && a[u] != b[u] {
        lemma_first_difference(a, b, k - 1);
    } else {
        assert(a[k - 1] != b[k - 1]);
    }
}

/// The search outcome is a function of the formula: any two results that meet
/// the contract of `solve` on the same formula are the same outcome with the
/// same model.
pub proof fn lemma_search_deterministic(f: Seq<Seq<Lit>>, n: nat, r1: SearchOutcome, r2: SearchOutcome)
    requires
        search_result(f, n, r1),
        search_result(f, n, r2),
    ensures
        match (r1, r2) {
            (SearchOutcome::Satisfied(w1), SearchOutcome::Satisfied(w2)) => w1@ == w2@,
            (SearchOutcome::Unsatisfiable, SearchOutcome::Unsatisfiable) => true,
            _ => false,
        },
{
    match (r1, r2) {
        (SearchOutcome::Satisfied(w1), SearchOutcome::Satisfied(w2)) => {
            let a = w1@;
            let b = w2@;
            if exists|u: int| 0 <= u < a.len() && a[u] != b[u] {
                lemma_first_difference(a, b, a.len() as int);
                let u = choose|u: int| 0 <= u < a.len() && a[u] != b[u] && forall|i: int| 0 <= i < u ==> #[trigger] a[i] == b[i];
                if a[u] {
                    assert(lex_greater(a, b));
                } else {
                    assert(lex_greater(b, a));
                }
            }
            assert(a =~= b);
        },
        (SearchOutcome::Satisfied(w1), SearchOutcome::Unsatisfiable) => {
            assert(is_model(f, n, w1@));
        },
        (SearchOutcome::Unsatisfiable, SearchOutcome::Satisfied(w2)) => {
            assert(is_model(f, n, w2@));
        },
        _ => {},
    }
}

} // verus!
