//! Truth of clauses and cardinality constraints under an assignment.
use vstd::prelude::*;

verus! {

/// A literal: a variable index and whether it is negated.
pub type LitModel = (u32, bool);

/// A cardinality constraint as a value: an optional guard variable, the
/// counted variables, and the number of them that must be true.
pub type CardModel = (Option<u32>, Seq<u32>, nat);

/// The value of variable `v` under `m`; variables beyond `m` are false.
pub open spec fn val(m: Seq<bool>, v: u32) -> bool {
    (v as int) < m.len() && m[v as int]
}

pub open spec fn lit_holds(m: Seq<bool>, l: LitModel) -> bool {
    val(m, l.0) != l.1
}

pub open spec fn clause_holds(m: Seq<bool>, c: Seq<LitModel>) -> bool {
    exists|t: int| 0 <= t < c.len() && lit_holds(m, #[trigger] c[t])
}

pub open spec fn cnf_holds(m: Seq<bool>, f: Seq<Seq<LitModel>>) -> bool {
    forall|j: int| 0 <= j < f.len() ==> clause_holds(m, #[trigger] f[j])
}

/// Number of the variables of `vs` that are true under `m`.
pub open spec fn count_true(vs: Seq<u32>, m: Seq<bool>) -> nat
    decreases vs.len(),
{
    if vs.len() == 0 {
        0
    } else {
        count_true(vs.drop_last(), m) + if val(m, vs.last()) { 1nat } else { 0nat }
    }
}

/// Whether `m` meets the cardinality constraint `c`.
pub open spec fn card_holds(m: Seq<bool>, c: CardModel) -> bool {
    match c.0 {
        Some(g) => val(m, g) ==> count_true(c.1, m) == c.2,
        None => count_true(c.1, m) == c.2,
    }
}

/// Whether `m` meets every constraint of `cs`.
pub open spec fn cards_hold(m: Seq<bool>, cs: Seq<CardModel>) -> bool {
    forall|t: int| 0 <= t < cs.len() ==> card_holds(m, #[trigger] cs[t])
}

/// `a` and `b` give every variable below `bound` the same value.
pub open spec fn agree_below(a: Seq<bool>, b: Seq<bool>, bound: u32) -> bool {
    forall|v: u32| v < bound ==> #[trigger] val(a, v) == val(b, v)
}

/// Every variable of `f` is below `bound`.
pub open spec fn vars_below(f: Seq<Seq<LitModel>>, bound: u32) -> bool {
    forall|j: int, t: int| 0 <= j < f.len() && 0 <= t < f[j].len() ==> #[trigger] f[j][t].0 < bound
}

pub proof fn lemma_cnf_agree(a: Seq<bool>, b: Seq<bool>, f: Seq<Seq<LitModel>>, bound: u32)
    requires
        agree_below(a, b, bound),
        vars_below(f, bound),
        cnf_holds(a, f),
    ensures
        cnf_holds(b, f),
{
    assert forall|j: int| 0 <= j < f.len() implies clause_holds(b, #[trigger] f[j]) by {
        assert(clause_holds(a, f[j]));
        let t = choose|t: int| 0 <= t < f[j].len() && lit_holds(a, #[trigger] f[j][t]);
        assert(f[j][t].0 < bound);
        assert(val(a, f[j][t].0) == val(b, f[j][t].0));
        assert(lit_holds(b, f[j][t]));
    }
}

pub proof fn lemma_count_agree(a: Seq<bool>, b: Seq<bool>, vs: Seq<u32>, bound: u32)
    requires
        agree_below(a, b, bound),
        forall|t: int| 0 <= t < vs.len() ==> #[trigger] vs[t] < bound,
    ensures
        count_true(vs, a) == count_true(vs, b),
    decreases vs.len(),
{
    if vs.len() > 0 {
        let init = vs.drop_last();
        assert forall|t: int| 0 <= t < init.len() implies #[trigger] init[t] < bound by {
            assert(init[t] == vs[t]);
        }
        lemma_count_agree(a, b, init, bound);
        assert(vs.last() < bound);
        assert(val(a, vs.last()) == val(b, vs.last()));
    }
}

/// Counting the variables that are true is counting the items equal to `x`,
/// where each variable is true exactly when its item is `x`.
pub proof fn lemma_count_matches<T>(vs: Seq<u32>, m: Seq<bool>, xs: Seq<T>, x: T)
    requires
        vs.len() == xs.len(),
        forall|q: int| 0 <= q < vs.len() ==> #[trigger] val(m, vs[q]) == (xs[q] == x),
    ensures
        count_true(vs, m) == crate::secret_jesus::occurrences(xs, x),
    decreases vs.len(),
{
    if vs.len() > 0 {
        let (vi, xi) = (vs.drop_last(), xs.drop_last());
        assert forall|q: int| 0 <= q < vi.len() implies #[trigger] val(m, vi[q]) == (xi[q] == x) by {
            assert(vi[q] == vs[q]);
            assert(xi[q] == xs[q]);
        }
        lemma_count_matches(vi, m, xi, x);
        assert(val(m, vs[vs.len() - 1]) == (xs[xs.len() - 1] == x));
    }
}

/// Each clause of `f` with the negated guard added, if there is a guard.
pub open spec fn guarded(f: Seq<Seq<LitModel>>, g: Option<u32>) -> Seq<Seq<LitModel>> {
    match g {
        Some(v) => f.map_values(|c: Seq<LitModel>| c.push((v, true))),
        None => f,
    }
}

pub proof fn lemma_cnf_prefix(m: Seq<bool>, a: Seq<Seq<LitModel>>, b: Seq<Seq<LitModel>>)
    requires
        cnf_holds(m, a + b),
    ensures
        cnf_holds(m, a),
        cnf_holds(m, b),
{
    assert forall|j: int| 0 <= j < a.len() implies clause_holds(m, #[trigger] a[j]) by {
        assert((a + b)[j] == a[j]);
    }
    assert forall|j: int| 0 <= j < b.len() implies clause_holds(m, #[trigger] b[j]) by {
        assert((a + b)[j + a.len()] == b[j]);
    }
}

pub proof fn lemma_cnf_concat(m: Seq<bool>, a: Seq<Seq<LitModel>>, b: Seq<Seq<LitModel>>)
    requires
        cnf_holds(m, a),
        cnf_holds(m, b),
    ensures
        cnf_holds(m, a + b),
{
    assert forall|j: int| 0 <= j < (a + b).len() implies clause_holds(m, #[trigger] (a + b)[j]) by {
        if j < a.len() {
            assert((a + b)[j] == a[j]);
        } else {
            assert((a + b)[j] == b[j - a.len()]);
        }
    }
}

/// A guarded encoding holds whenever its guard is false.
pub proof fn lemma_guard_off(m: Seq<bool>, f: Seq<Seq<LitModel>>, v: u32)
    requires
        !val(m, v),
    ensures
        cnf_holds(m, guarded(f, Some(v))),
{
    let gf = guarded(f, Some(v));
    assert forall|j: int| 0 <= j < gf.len() implies clause_holds(m, #[trigger] gf[j]) by {
        assert(gf[j] == f[j].push((v, true)));
        assert(lit_holds(m, gf[j][f[j].len() as int]));
    }
}

/// Where its guard is true, a guarded encoding forces the encoding itself.
pub proof fn lemma_guard_on(m: Seq<bool>, f: Seq<Seq<LitModel>>, v: u32)
    requires
        val(m, v),
        cnf_holds(m, guarded(f, Some(v))),
    ensures
        cnf_holds(m, f),
{
    let gf = guarded(f, Some(v));
    assert forall|j: int| 0 <= j < f.len() implies clause_holds(m, #[trigger] f[j]) by {
        assert(clause_holds(m, gf[j]));
        let t = choose|t: int| 0 <= t < gf[j].len() && lit_holds(m, #[trigger] gf[j][t]);
        assert(gf[j] == f[j].push((v, true)));
        assert(t < f[j].len());
        assert(f[j][t] == gf[j][t]);
    }
}

/// Adding a guard to an encoding that holds keeps it holding.
pub proof fn lemma_guard_weaken(m: Seq<bool>, f: Seq<Seq<LitModel>>, g: Option<u32>)
    requires
        cnf_holds(m, f),
    ensures
        cnf_holds(m, guarded(f, g)),
{
    if let Some(v) = g {
        let gf = guarded(f, g);
        assert forall|j: int| 0 <= j < gf.len() implies clause_holds(m, #[trigger] gf[j]) by {
            assert(clause_holds(m, f[j]));
            let t = choose|t: int| 0 <= t < f[j].len() && lit_holds(m, #[trigger] f[j][t]);
            assert(gf[j] == f[j].push((v, true)));
            assert(gf[j][t] == f[j][t]);
        }
    }
}

/// If exactly one variable of `vs` is true, it has a single position.
pub proof fn lemma_count_one(vs: Seq<u32>, m: Seq<bool>)
    requires
        count_true(vs, m) == 1,
        forall|a: int, b: int| 0 <= a < b < vs.len() ==> vs[a] != vs[b],
    ensures
        exists|i: int|
            0 <= i < vs.len() && val(m, #[trigger] vs[i]) && (forall|k: int|
                0 <= k < vs.len() && k != i ==> !val(m, #[trigger] vs[k])),
    decreases vs.len(),
{
    let init = vs.drop_last();
    if val(m, vs.last()) {
        lemma_count_zero(init, m);
        let i = vs.len() - 1;
        assert forall|k: int| 0 <= k < vs.len() && k != i implies !val(m, #[trigger] vs[k]) by {
            assert(vs[k] == init[k]);
        }
    } else {
        lemma_count_one(init, m);
        let i = choose|i: int|
            0 <= i < init.len() && val(m, #[trigger] init[i]) && (forall|k: int|
                0 <= k < init.len() && k != i ==> !val(m, #[trigger] init[k]));
        assert(vs[i] == init[i]);
        assert forall|k: int| 0 <= k < vs.len() && k != i implies !val(m, #[trigger] vs[k]) by {
            if k < init.len() {
                assert(vs[k] == init[k]);
            }
        }
    }
}

/// If no variable of `vs` is counted, every one of them is false.
pub proof fn lemma_count_zero(vs: Seq<u32>, m: Seq<bool>)
    requires
        count_true(vs, m) == 0,
    ensures
        forall|k: int| 0 <= k < vs.len() ==> !val(m, #[trigger] vs[k]),
    decreases vs.len(),
{
    if vs.len() > 0 {
        let init = vs.drop_last();
        lemma_count_zero(init, m);
        assert forall|k: int| 0 <= k < vs.len() implies !val(m, #[trigger] vs[k]) by {
            if k < init.len() {
                assert(vs[k] == init[k]);
            }
        }
    }
}

} // verus!
