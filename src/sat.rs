//! The outside SAT machinery: the totalizer cardinality encoder of rustsat and
//! the BatSat solver, behind contracts stated over plain clauses. BatSat is
//! the pure-Rust solver of the rustsat family, so the library needs no C++
//! toolchain, cmake or libclang to build.
use vstd::prelude::*;

use crate::cnf::{agree_below, cnf_holds, count_true, vars_below, LitModel};
use rustsat::encodings::card::{BoundBoth, DefIncBothBounding};
use rustsat::instances::{BasicVarManager, Cnf, ManageVars};
use rustsat::solvers::{Solve, SolverResult};
use rustsat::types::constraints::CardConstraint;
use rustsat::types::{Lit, TernaryVal, Var};

verus! {

/// Variable indices handed to the outside crates stay below this bound.
pub const VAR_LIMIT: u32 = 16777216;

/// Counted variables of one cardinality constraint stay within this bound.
pub const CARD_LIMIT: usize = 64;

/// A number of constraints whose encoding always fits under `VAR_LIMIT`.
pub const MAX_CONSTRAINTS: usize = 4000;

/// The clauses of a vector of clauses, as values.
pub open spec fn clauses_view(v: Seq<Vec<(u32, bool)>>) -> Seq<Seq<LitModel>> {
    v.map_values(|c: Vec<(u32, bool)>| c@)
}

/// The clauses that rustsat's totalizer writes for "exactly `k` of `lits`",
/// with auxiliary variables numbered from `next_free`, and the next free
/// variable after them.
pub uninterp spec fn totalizer_eq(lits: Seq<u32>, k: nat, next_free: u32) -> (Seq<Seq<LitModel>>, u32);

/// Relies on `BoundBoth::encode_constr` of rustsat's `DefIncBothBounding`
/// (the totalizer): it writes clauses over `lits` and fresh variables from
/// `next_free` on that hold only where exactly `k` of `lits` are true, and
/// that every assignment with exactly `k` of them true extends to by setting
/// the fresh variables; the variable manager is left at the next free
/// variable (`n_used`). Its fresh variables are output literals of the
/// totalizer tree, at most one per internal node and count: with `m` literals,
/// fewer than `m * m`. It fails only where `k` exceeds the number of
/// literals, which `requires` excludes, or where the clause vector cannot
/// allocate, which this library treats as std's allocations are treated.
#[verifier::external_body]
pub(crate) fn encode_card_eq(lits: &Vec<u32>, k: usize, next_free: u32) -> (r: Option<(Vec<Vec<(u32, bool)>>, u32)>)
    requires
        k <= lits.len(),
        lits.len() <= CARD_LIMIT,
        lits@.no_duplicates(),
        next_free < VAR_LIMIT,
        forall|t: int| 0 <= t < lits.len() ==> #[trigger] lits[t] < next_free,
    ensures
        r is Some,
        r matches Some((cls, nx)) ==> {
            &&& (clauses_view(cls@), nx) == totalizer_eq(lits@, k as nat, next_free)
            &&& nx >= next_free
            &&& nx <= next_free + lits.len() * lits.len()
            &&& vars_below(clauses_view(cls@), nx)
            &&& forall|m: Seq<bool>| cnf_holds(m, clauses_view(cls@)) ==> count_true(lits@, m) == k
            &&& forall|m: Seq<bool>| count_true(lits@, m) == k ==> exists|e: Seq<bool>|
                agree_below(m, e, next_free) && cnf_holds(e, clauses_view(cls@))
        },
{
    let mut vm = BasicVarManager::from_next_free(Var::new(next_free));
    let mut cnf = Cnf::new();
    let constr = CardConstraint::new_eq(lits.iter().map(|&v| Lit::positive(v)), k);
    match DefIncBothBounding::encode_constr(constr, &mut cnf, &mut vm) {
        Ok(()) => Some((
            cnf.into_iter().map(|cl| cl.into_iter().map(|l| (l.vidx32(), l.is_neg())).collect()).collect(),
            vm.n_used(),
        )),
        Err(_) => None,
    }
}

/// One incremental solving session of the BatSat solver.
#[verifier::external_body]
pub struct SatSession {
    solver: rustsat_batsat::BasicSolver,
}

/// The clauses added to a session so far, in order.
pub uninterp spec fn session_clauses(s: SatSession) -> Seq<Seq<LitModel>>;

/// What one solver call found.
pub enum SolveOutcome {
    /// A model: the value of each variable, by index.
    Sat(Vec<bool>),
    Unsat,
    /// The solver stopped without an answer or could not hand out its model.
    Failed,
}

/// Relies on `Default` of `rustsat_batsat::BasicSolver`: a solver without clauses.
#[verifier::external_body]
pub(crate) fn new_session() -> (r: SatSession)
    ensures
        session_clauses(r) == Seq::<Seq<LitModel>>::empty(),
{
    SatSession { solver: rustsat_batsat::BasicSolver::default() }
}

/// Relies on `Solve::add_clause` of BatSat: it always succeeds, and the
/// clause joins the session.
#[verifier::external_body]
pub(crate) fn add_clause(s: &mut SatSession, c: &Vec<(u32, bool)>) -> (r: bool)
    requires
        forall|t: int| 0 <= t < c.len() ==> #[trigger] c[t].0 < VAR_LIMIT,
    ensures
        r,
        session_clauses(*final(s)) == session_clauses(*old(s)).push(c@),
{
    s.solver.add_clause(c.iter().map(|&(v, neg)| Lit::new(v, neg)).collect()).is_ok()
}

/// Relies on `Solve::solve` and `Solve::full_solution` of BatSat: a model
/// found satisfies every clause of the session (variables the solver never
/// saw read as false), and `Unsat` means no assignment satisfies them all.
/// `BasicSolver` has no stop callback and no budget, so `solve` always answers
/// `Sat` or `Unsat`, and `full_solution` succeeds after `Sat`.
#[verifier::external_body]
pub(crate) fn solve(s: &mut SatSession) -> (r: SolveOutcome)
    ensures
        session_clauses(*final(s)) == session_clauses(*old(s)),
        !(r is Failed),
        r matches SolveOutcome::Sat(m) ==> cnf_holds(m@, session_clauses(*old(s))),
        r is Unsat ==> forall|m: Seq<bool>| !cnf_holds(m, session_clauses(*old(s))),
{
    match s.solver.solve() {
        Ok(SolverResult::Sat) => match s.solver.full_solution() {
            Ok(a) => SolveOutcome::Sat(
                (0..a.len()).map(|i| a.var_value(Var::new(i as u32)) == TernaryVal::True).collect(),
            ),
            Err(_) => SolveOutcome::Failed,
        },
        Ok(SolverResult::Unsat) => SolveOutcome::Unsat,
        _ => SolveOutcome::Failed,
    }
}

} // verus!
