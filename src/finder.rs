//! The deduction engine: the hidden-role problem as cardinality constraints,
//! and the enumeration of every player who may still hold the target role.
use vstd::prelude::*;
use vstd::set_lib::{lemma_int_range, lemma_len_subset, set_int_range};

use crate::cnf::{
    agree_below, card_holds, cards_hold, clause_holds, cnf_holds, count_true, lemma_cnf_agree,
    lemma_count_agree, lemma_guard_off, lemma_guard_on, lemma_guard_weaken, lit_holds, vars_below, guarded, lemma_cnf_concat, lemma_cnf_prefix, lemma_count_one, val,
    CardModel, LitModel,
};
use crate::sat::{
    add_clause, clauses_view, encode_card_eq, new_session, solve, totalizer_eq,
    SatSession, SolveOutcome, CARD_LIMIT, MAX_CONSTRAINTS, VAR_LIMIT, session_clauses,
};
use crate::witness::{lemma_witness_static, witness};
use crate::secret_jesus::{
    occurrences, prodigy_at, prodigy_count, prodigies_of, role_at, role_count, Prodigy, Role,
};

verus! {

/// "Exactly `k` of `lits` are true", applying only where the guard variable is
/// true (or always, without a guard).
pub struct CardEq {
    pub guard: Option<u32>,
    pub lits: Vec<u32>,
    pub k: usize,
}

impl View for CardEq {
    type V = CardModel;

    open spec fn view(&self) -> CardModel {
        (self.guard, self.lits@, self.k as nat)
    }
}

/// Variable: player `i` holds the role at position `r`.
pub open spec fn id_var(i: int, r: int) -> u32 {
    (5 * i + r) as u32
}

/// Variable: among `n` players, player `i` holds prodigy `p` at slot `s`.
pub open spec fn ev_var(n: int, i: int, p: int, s: int) -> u32 {
    (5 * n + 15 * i + 5 * p + s) as u32
}

/// Number of variables for `n` players.
pub open spec fn num_vars(n: nat) -> u32 {
    (20 * n) as u32
}

/// The identity variables of one role, by player.
pub open spec fn role_col(n: nat, r: int) -> Seq<u32> {
    Seq::new(n, |i: int| id_var(i, r))
}

/// The identity variables of one player, by role.
pub open spec fn player_row(i: int) -> Seq<u32> {
    Seq::new(5, |r: int| id_var(i, r))
}

/// The prodigy variables of one player and kind, by slot.
pub open spec fn slot_vars(n: nat, i: int, p: int) -> Seq<u32> {
    Seq::new(5, |s: int| ev_var(n as int, i, p, s))
}

pub open spec fn role_card(n: nat, r: int) -> CardModel {
    (None, role_col(n, r), role_count(n, role_at(r as nat)))
}

pub open spec fn row_card(i: int) -> CardModel {
    (None, player_row(i), 1)
}

pub open spec fn dist_card(n: nat, i: int, r: int, p: int) -> CardModel {
    (Some(id_var(i, r)), slot_vars(n, i, p), prodigy_count(role_at(r as nat), prodigy_at(p as nat)))
}

pub open spec fn row_pos(i: int) -> int {
    5 + 16 * i
}

pub open spec fn dist_pos(i: int, r: int, p: int) -> int {
    6 + 16 * i + 3 * r + p
}

/// Number of constraints of the static model for `n` players.
pub open spec fn static_len(n: nat) -> nat {
    5 + 16 * n
}

/// `cs` begins with the static model for `n` players: one constraint per role
/// column, then for each player its row and its guarded distributions.
pub open spec fn static_prefix(n: nat, cs: Seq<CardModel>) -> bool {
    &&& cs.len() >= static_len(n)
    &&& forall|r: int| 0 <= r < 5 ==> #[trigger] cs[r] == role_card(n, r)
    &&& forall|i: int| 0 <= i < n ==> #[trigger] cs[row_pos(i)] == row_card(i)
    &&& forall|i: int, r: int, p: int|
        0 <= i < n && 0 <= r < 5 && 0 <= p < 3 ==> #[trigger] cs[dist_pos(i, r, p)] == dist_card(n, i, r, p)
}

/// The evidence of one event: among the participants, exactly `count` hold
/// prodigy `p` at `slot`.
pub open spec fn evidence_card(n: nat, slot: int, ids: Seq<usize>, p: int, count: nat) -> CardModel {
    (None, ids.map_values(|id: usize| ev_var(n as int, id as int, p, slot)), count)
}

/// The constraint fits the solver's bounds for `n` players.
pub open spec fn card_bounded(n: nat, c: CardModel) -> bool {
    &&& c.2 <= c.1.len() <= CARD_LIMIT
    &&& c.1.no_duplicates()
    &&& forall|t: int| 0 <= t < c.1.len() ==> #[trigger] c.1[t] < num_vars(n)
    &&& c.0 matches Some(g) ==> g < num_vars(n)
}

/// Where the totalizer encoding of `cs` ends, starting from `start`.
pub open spec fn encode_next(cs: Seq<CardModel>, start: u32) -> u32
    decreases cs.len(),
{
    if cs.len() == 0 {
        start
    } else {
        totalizer_eq(cs.last().1, cs.last().2, encode_next(cs.drop_last(), start)).1
    }
}

/// The clauses of `cs`: each constraint encoded by the totalizer, in order,
/// with the negated guard added to each clause of a guarded constraint.
pub open spec fn encode(cs: Seq<CardModel>, start: u32) -> Seq<Seq<LitModel>>
    decreases cs.len(),
{
    if cs.len() == 0 {
        Seq::empty()
    } else {
        let c = cs.last();
        encode(cs.drop_last(), start) + guarded(
            totalizer_eq(c.1, c.2, encode_next(cs.drop_last(), start)).0,
            c.0,
        )
    }
}

/// Every prefix of `cs` encodes, from `start`, within the variable bound.
pub open spec fn fits(cs: Seq<CardModel>, start: u32) -> bool {
    forall|u: int| 0 <= u <= cs.len() ==> #[trigger] encode_next(cs.take(u), start) < VAR_LIMIT
}

/// Who holds the target role under `m`, by player.
pub open spec fn projection(n: nat, m: Seq<bool>) -> Seq<bool> {
    Seq::new(n, |i: int| val(m, id_var(i, 0)))
}

/// Under `m` every role is held by as many players as the game deals it.
pub open spec fn role_counts_hold(n: nat, m: Seq<bool>) -> bool {
    forall|r: int| 0 <= r < 5 ==> #[trigger] count_true(role_col(n, r), m) == role_count(n, role_at(r as nat))
}

/// The clause that forbids player `i` to hold the target role.
pub open spec fn block_clause(i: int) -> Seq<LitModel> {
    seq![(id_var(i, 0), true)]
}

/// The deduction engine for one game: the static model for its players and
/// the evidence of every event revealed so far. Identity variable of player
/// `i` and role `r`: `id_var(i, r)`; prodigy variable of player `i`, kind `p`
/// and slot `s`: `ev_var(n, i, p, s)`.
pub struct JesusFinder {
    n: usize,
    constraints: Vec<CardEq>,
}

/// Why an enumeration could not run.
pub enum SolveError {
    /// The encoding needs more variables than the solver is handed.
    VariableLimit,
}


/// How many of `n` players hold `r`.
fn role_count_exec(n: usize, r: Role) -> (k: usize)
    requires
        4 <= n <= 10,
    ensures
        k as nat == role_count(n as nat, r),
        k <= n,
{
    match r {
        Role::Jesus => 1,
        Role::Judas => 1,
        Role::Peter => 1,
        Role::Mary => if n <= 6 { 0 } else { 1 },
        Role::Apostle => if n <= 6 { n - 3 } else { n - 4 },
    }
}

/// The number of slots at which `r` holds `p`, counted in its distribution.
fn prodigy_count_exec(r: Role, p: Prodigy) -> (k: usize)
    ensures
        k as nat == prodigy_count(r, p),
        k <= 5,
{
    let dist = r.initial_prodigies();
    let mut k: usize = 0;
    let mut t: usize = 0;
    while t < 5
        invariant
            t <= 5,
            dist@ == prodigies_of(r),
            k as nat == occurrences(dist@.take(t as int), p),
            k <= t,
        decreases 5 - t,
    {
        assert(dist@.take(t as int + 1).drop_last() =~= dist@.take(t as int));
        if dist[t] == p {
            k = k + 1;
        }
        t = t + 1;
    }
    assert(dist@.take(5) =~= dist@);
    k
}

impl JesusFinder {
    /// The number of players.
    pub closed spec fn player_count(&self) -> nat {
        self.n as nat
    }

    /// The accumulated constraints, as values.
    pub closed spec fn formula(&self) -> Seq<CardModel> {
        self.constraints@.map_values(|c: CardEq| c@)
    }

    /// A supported number of players, the static model first, and every
    /// constraint within the solver's bounds.
    pub open spec fn wf(&self) -> bool {
        &&& 4 <= self.player_count() <= 10
        &&& static_prefix(self.player_count(), self.formula())
        &&& forall|j: int| 0 <= j < self.formula().len() ==> card_bounded(self.player_count(), #[trigger] self.formula()[j])
    }

    /// The clauses the solver is given for the accumulated constraints.
    pub open spec fn clauses(&self) -> Seq<Seq<LitModel>> {
        encode(self.formula(), num_vars(self.player_count()))
    }

    /// Every distinct projection of a model of the clauses: the candidate
    /// assignments of the target role.
    pub open spec fn candidates(&self) -> Set<Seq<bool>> {
        Set::new(|p: Seq<bool>| exists|m: Seq<bool>| cnf_holds(m, self.clauses()) && p == projection(self.player_count(), m))
    }

    /// Builds the static model for `n` players: every role column holds as
    /// many players as the game deals that role, every player holds one role,
    /// and a player holding a role holds that role's prodigies.
    pub fn new(n: usize) -> (r: Self)
        requires
            4 <= n <= 10,
        ensures
            r.wf(),
            r.player_count() == n,
            r.formula().len() == static_len(n as nat),
    {
        let mut cs: Vec<CardEq> = Vec::new();
        let ghost nn = n as nat;
        let mut r: usize = 0;
        while r < 5
            invariant
                4 <= n <= 10,
                nn == n,
                r <= 5,
                cs.len() == r,
                forall|j: int| 0 <= j < r ==> #[trigger] cs@[j]@ == role_card(nn, j),
                forall|j: int| 0 <= j < cs.len() ==> card_bounded(nn, #[trigger] cs@[j]@),
            decreases 5 - r,
        {
            let role = Role::from_index(r);
            let mut col: Vec<u32> = Vec::new();
            let mut i: usize = 0;
            while i < n
                invariant
                    4 <= n <= 10,
                    i <= n,
                    r < 5,
                    col@ =~= Seq::new(i as nat, |t: int| id_var(t, r as int)),
                decreases n - i,
            {
                col.push((5 * i + r) as u32);
                i = i + 1;
            }
            let k = role_count_exec(n, role);
            let c = CardEq { guard: None, lits: col, k };
            assert(c@ == role_card(nn, r as int));
            cs.push(c);
            r = r + 1;
        }
        let mut i: usize = 0;
        while i < n
            invariant
                4 <= n <= 10,
                nn == n,
                i <= n,
                cs.len() == 5 + 16 * i,
                forall|j: int| 0 <= j < 5 ==> #[trigger] cs@[j]@ == role_card(nn, j),
                forall|a: int| 0 <= a < i ==> #[trigger] cs@[row_pos(a)]@ == row_card(a),
                forall|a: int, b: int, q: int|
                    0 <= a < i && 0 <= b < 5 && 0 <= q < 3 ==> #[trigger] cs@[dist_pos(a, b, q)]@ == dist_card(nn, a, b, q),
                forall|j: int| 0 <= j < cs.len() ==> card_bounded(nn, #[trigger] cs@[j]@),
            decreases n - i,
        {
            let mut row: Vec<u32> = Vec::new();
            let mut r: usize = 0;
            while r < 5
                invariant
                    4 <= n <= 10,
                    i < n,
                    r <= 5,
                    row@ =~= Seq::new(r as nat, |t: int| id_var(i as int, t)),
                decreases 5 - r,
            {
                row.push((5 * i + r) as u32);
                r = r + 1;
            }
            assert(row@ =~= player_row(i as int));
            cs.push(CardEq { guard: None, lits: row, k: 1 });
            let mut r: usize = 0;
            while r < 5
                invariant
                    4 <= n <= 10,
                    nn == n,
                    i < n,
                    r <= 5,
                    cs.len() == 6 + 16 * i + 3 * r,
                    forall|j: int| 0 <= j < 5 ==> #[trigger] cs@[j]@ == role_card(nn, j),
                    forall|a: int| 0 <= a <= i ==> #[trigger] cs@[row_pos(a)]@ == row_card(a),
                    forall|a: int, b: int, q: int|
                        0 <= a < i && 0 <= b < 5 && 0 <= q < 3 ==> #[trigger] cs@[dist_pos(a, b, q)]@ == dist_card(nn, a, b, q),
                    forall|b: int, q: int|
                        0 <= b < r && 0 <= q < 3 ==> #[trigger] cs@[dist_pos(i as int, b, q)]@ == dist_card(nn, i as int, b, q),
                    forall|j: int| 0 <= j < cs.len() ==> card_bounded(nn, #[trigger] cs@[j]@),
                decreases 5 - r,
            {
                let role = Role::from_index(r);
                let mut p: usize = 0;
                while p < 3
                    invariant
                        4 <= n <= 10,
                        nn == n,
                        i < n,
                        r < 5,
                        p <= 3,
                        role == role_at(r as nat),
                        cs.len() == 6 + 16 * i + 3 * r + p,
                        forall|j: int| 0 <= j < 5 ==> #[trigger] cs@[j]@ == role_card(nn, j),
                        forall|a: int| 0 <= a <= i ==> #[trigger] cs@[row_pos(a)]@ == row_card(a),
                        forall|a: int, b: int, q: int|
                            0 <= a < i && 0 <= b < 5 && 0 <= q < 3 ==> #[trigger] cs@[dist_pos(a, b, q)]@ == dist_card(nn, a, b, q),
                        forall|b: int, q: int|
                            (0 <= b < r && 0 <= q < 3) || (b == r && 0 <= q < p) ==> #[trigger] cs@[dist_pos(i as int, b, q)]@ == dist_card(nn, i as int, b, q),
                        forall|j: int| 0 <= j < cs.len() ==> card_bounded(nn, #[trigger] cs@[j]@),
                    decreases 3 - p,
                {
                    let kind = Prodigy::from_index(p);
                    let mut lits: Vec<u32> = Vec::new();
                    let mut s: usize = 0;
                    while s < 5
                        invariant
                            4 <= n <= 10,
                            i < n,
                            p < 3,
                            s <= 5,
                            lits@ =~= Seq::new(s as nat, |t: int| ev_var(n as int, i as int, p as int, t)),
                        decreases 5 - s,
                    {
                        lits.push((5 * n + 15 * i + 5 * p + s) as u32);
                        s = s + 1;
                    }
                    assert(lits@ =~= slot_vars(nn, i as int, p as int));
                    let k = prodigy_count_exec(role, kind);
                    let c = CardEq { guard: Some((5 * i + r) as u32), lits, k };
                    assert(c@ == dist_card(nn, i as int, r as int, p as int));
                    cs.push(c);
                    p = p + 1;
                }
                r = r + 1;
            }
            i = i + 1;
        }
        let f = JesusFinder { n, constraints: cs };
        assert forall|j: int| 0 <= j < f.formula().len() implies card_bounded(nn, #[trigger] f.formula()[j]) by {
            assert(f.formula()[j] == cs@[j]@);
        }
        assert forall|a: int| 0 <= a < n implies #[trigger] f.formula()[row_pos(a)] == row_card(a) by {
            assert(f.formula()[row_pos(a)] == cs@[row_pos(a)]@);
        }
        assert forall|a: int, b: int, q: int| 0 <= a < n && 0 <= b < 5 && 0 <= q < 3
            implies #[trigger] f.formula()[dist_pos(a, b, q)] == dist_card(nn, a, b, q) by {
            assert(f.formula()[dist_pos(a, b, q)] == cs@[dist_pos(a, b, q)]@);
        }
        f
    }

    /// Adds the evidence of the event at `event_index`: for each prodigy kind,
    /// exactly as many of the participants hold it at that slot as were
    /// revealed.
    pub fn process_event(&mut self, event_index: usize, selected_player_ids: &[usize], selected_prodigies: &[Prodigy])
        requires
            old(self).wf(),
            event_index < 5,
            selected_player_ids@.no_duplicates(),
            forall|t: int| 0 <= t < selected_player_ids.len() ==> #[trigger] selected_player_ids[t] < old(self).player_count(),
            selected_prodigies.len() == selected_player_ids.len(),
        ensures
            final(self).wf(),
            final(self).player_count() == old(self).player_count(),
            final(self).formula() == old(self).formula() + Seq::new(3, |p: int| evidence_card(
                old(self).player_count(),
                event_index as int,
                selected_player_ids@,
                p,
                occurrences(selected_prodigies@, prodigy_at(p as nat)),
            )),
    {
        let ghost nn = self.n as nat;
        let ghost before = self.formula();
        proof {
            lemma_distinct_below(selected_player_ids@, self.n as int);
        }
        let mut p: usize = 0;
        while p < 3
            invariant
                self.wf(),
                self.player_count() == nn,
                event_index < 5,
                p <= 3,
                selected_player_ids.len() <= nn,
                selected_player_ids@.no_duplicates(),
                forall|t: int| 0 <= t < selected_player_ids.len() ==> #[trigger] selected_player_ids[t] < nn,
                selected_prodigies.len() == selected_player_ids.len(),
                self.formula() =~= before + Seq::new(p as nat, |q: int| evidence_card(
                    nn,
                    event_index as int,
                    selected_player_ids@,
                    q,
                    occurrences(selected_prodigies@, prodigy_at(q as nat)),
                )),
            decreases 3 - p,
        {
            let kind = Prodigy::from_index(p);
            let mut count: usize = 0;
            let mut lits: Vec<u32> = Vec::new();
            let mut t: usize = 0;
            while t < selected_player_ids.len()
                invariant
                    4 <= self.n <= 10,
                    nn == self.n,
                    event_index < 5,
                    p < 3,
                    t <= selected_player_ids.len(),
                    forall|u: int| 0 <= u < selected_player_ids.len() ==> #[trigger] selected_player_ids[u] < nn,
                    selected_prodigies.len() == selected_player_ids.len(),
                    count as nat == occurrences(selected_prodigies@.take(t as int), kind),
                    count <= t,
                    lits@ =~= selected_player_ids@.take(t as int).map_values(|id: usize| ev_var(nn as int, id as int, p as int, event_index as int)),
                decreases selected_player_ids.len() - t,
            {
                assert(selected_prodigies@.take(t as int + 1).drop_last() =~= selected_prodigies@.take(t as int));
                if selected_prodigies[t] == kind {
                    count = count + 1;
                }
                let id = selected_player_ids[t];
                lits.push((5 * self.n + 15 * id + 5 * p + event_index) as u32);
                t = t + 1;
            }
            assert(selected_prodigies@.take(t as int) =~= selected_prodigies@);
            assert(selected_player_ids@.take(t as int) =~= selected_player_ids@);
            let c = CardEq { guard: None, lits, k: count };
            assert(c@ == evidence_card(nn, event_index as int, selected_player_ids@, p as int, occurrences(selected_prodigies@, prodigy_at(p as nat))));
            assert(c@.1.no_duplicates()) by {
                assert forall|a: int, b: int| 0 <= a < c@.1.len() && 0 <= b < c@.1.len() && a != b implies c@.1[a] != c@.1[b] by {
                    assert(selected_player_ids@[a] != selected_player_ids@[b]);
                }
            }
            assert(card_bounded(nn, c@));
            let ghost mid = self.formula();
            self.constraints.push(c);
            assert(self.formula() =~= mid.push(c@));
            p = p + 1;
        }
    }
}

impl JesusFinder {
    /// Loads the clauses of the accumulated constraints into a new solver
    /// session, or `None` where the outside encoder or solver failed.
    fn load(&self) -> (r: Option<SatSession>)
        requires
            self.wf(),
        ensures
            r is Some <==> fits(self.formula(), num_vars(self.player_count())),
            self.formula().len() <= MAX_CONSTRAINTS ==> r is Some,
            r matches Some(s) ==> session_clauses(s) == self.clauses(),
            r is Some ==> forall|m: Seq<bool>| #[trigger] cnf_holds(m, self.clauses()) ==> cards_hold(m, self.formula()),
            r is Some ==> forall|a: Seq<bool>| #[trigger] cards_hold(a, self.formula()) ==> exists|e: Seq<bool>|
                agree_below(a, e, num_vars(self.player_count())) && cnf_holds(e, self.clauses()),
    {
        let ghost nn = self.n as nat;
        let ghost f = self.formula();
        let mut session = new_session();
        let mut next: u32 = (20 * self.n) as u32;
        proof {
            assert forall|a: Seq<bool>| #[trigger] cards_hold(a, f.take(0)) implies exists|e: Seq<bool>|
                agree_below(a, e, num_vars(nn)) && cnf_holds(e, session_clauses(session)) by {
                assert(agree_below(a, a, num_vars(nn)));
                assert(cnf_holds(a, session_clauses(session)));
            }
        }
        let mut j: usize = 0;
        while j < self.constraints.len()
            invariant
                self.wf(),
                nn == self.n,
                f == self.formula(),
                j <= self.constraints.len(),
                session_clauses(session) == encode(f.take(j as int), num_vars(nn)),
                next == encode_next(f.take(j as int), num_vars(nn)),
                next >= num_vars(nn),
                vars_below(session_clauses(session), next),
                forall|a: Seq<bool>| #[trigger] cards_hold(a, f.take(j as int)) ==> exists|e: Seq<bool>|
                    agree_below(a, e, num_vars(nn)) && cnf_holds(e, session_clauses(session)),
                forall|m: Seq<bool>| #[trigger] cnf_holds(m, session_clauses(session)) ==> cards_hold(m, f.take(j as int)),
                forall|u: int| 0 <= u <= j ==> #[trigger] encode_next(f.take(u), num_vars(nn)) < VAR_LIMIT,
                next <= num_vars(nn) + 4096 * j,
            decreases self.constraints.len() - j,
        {
            let c = &self.constraints[j];
            assert(f[j as int] == c@);
            assert(card_bounded(nn, f[j as int]));
            assert(next == encode_next(f.take(j as int), num_vars(nn)));
            let ghost base = session_clauses(session);
            let enc = encode_card_eq(&c.lits, c.k, next);
            let (cls, nx) = match enc {
                Some(e) => e,
                None => return None,
            };
            assert(f.take(j as int + 1).drop_last() =~= f.take(j as int));
            assert(f.take(j as int + 1).last() == c@);
            assert(nx == encode_next(f.take(j as int + 1), num_vars(nn)));
            assert(c.lits.len() * c.lits.len() <= 4096) by (nonlinear_arith)
                requires
                    c.lits.len() <= 64,
            {
            }
            if nx >= VAR_LIMIT {
                assert(f.len() > MAX_CONSTRAINTS);
                assert(!fits(f, num_vars(nn))) by {
                    assert(encode_next(f.take(j as int + 1), num_vars(nn)) >= VAR_LIMIT);
                }
                return None;
            }
            let ghost cv = clauses_view(cls@);
            let ghost gv = guarded(cv, c.guard);
            let mut t: usize = 0;
            while t < cls.len()
                invariant
                    t <= cls.len(),
                    cv == clauses_view(cls@),
                    gv == guarded(cv, c.guard),
                    vars_below(cv, nx),
                    nx < VAR_LIMIT,
                    c.guard matches Some(g) ==> g < VAR_LIMIT && g < nx,
                    session_clauses(session) =~= base + gv.take(t as int),
                    vars_below(base, nx),
                decreases cls.len() - t,
            {
                let src = &cls[t];
                assert(cv[t as int] == src@);
                let mut cl: Vec<(u32, bool)> = Vec::new();
                let mut u: usize = 0;
                while u < src.len()
                    invariant
                        u <= src.len(),
                        cl@ =~= src@.take(u as int),
                    decreases src.len() - u,
                {
                    cl.push(src[u]);
                    u = u + 1;
                }
                assert(cl@ =~= src@);
                match c.guard {
                    Some(g) => {
                        cl.push((g, true));
                    },
                    None => {},
                }
                assert(cl@ == gv[t as int]);
                assert forall|w: int| 0 <= w < cl.len() implies #[trigger] cl@[w].0 < VAR_LIMIT by {
                    if w < src.len() {
                        assert(cv[t as int][w].0 < nx);
                    }
                }
                add_clause(&mut session, &cl);
                assert(gv.take(t as int + 1) =~= gv.take(t as int).push(gv[t as int]));
                t = t + 1;
            }
            assert(gv.take(t as int) =~= gv);
            proof {
                assert(vars_below(gv, nx)) by {
                    assert forall|a: int, b: int| 0 <= a < gv.len() && 0 <= b < gv[a].len() implies #[trigger] gv[a][b].0 < nx by {
                        if let Some(g) = c.guard {
                            assert(gv[a] == cv[a].push((g, true)));
                            if b < cv[a].len() {
                                assert(gv[a][b] == cv[a][b]);
                            }
                        }
                    }
                }
                assert(vars_below(session_clauses(session), nx)) by {
                    assert forall|a: int, b: int| 0 <= a < session_clauses(session).len() && 0 <= b < session_clauses(session)[a].len()
                        implies #[trigger] session_clauses(session)[a][b].0 < nx by {
                        if a < base.len() {
                            assert(session_clauses(session)[a] == base[a]);
                        } else {
                            assert(session_clauses(session)[a] == gv[a - base.len()]);
                        }
                    }
                }
                let ghost nv = num_vars(nn);
                assert forall|a: Seq<bool>| #[trigger] cards_hold(a, f.take(j as int + 1)) implies exists|e: Seq<bool>|
                    agree_below(a, e, nv) && cnf_holds(e, session_clauses(session)) by {
                    assert(cards_hold(a, f.take(j as int))) by {
                        assert forall|u: int| 0 <= u < f.take(j as int).len() implies card_holds(a, #[trigger] f.take(j as int)[u]) by {
                            assert(f.take(j as int)[u] == f.take(j as int + 1)[u]);
                        }
                    }
                    assert(card_holds(a, f.take(j as int + 1)[j as int]));
                    let e1 = choose|e: Seq<bool>| agree_below(a, e, nv) && cnf_holds(e, base);
                    lemma_count_agree(a, e1, c.lits@, nv);
                    assert(card_holds(e1, c@)) by {
                        if let Some(g) = c.guard {
                            assert(val(a, g) == val(e1, g));
                        }
                    }
                    if c.guard is Some && !val(e1, c.guard->0) {
                        lemma_guard_off(e1, cv, c.guard->0);
                        lemma_cnf_concat(e1, base, gv);
                    } else {
                        assert(count_true(c.lits@, e1) == c.k);
                        let e2 = choose|e: Seq<bool>| agree_below(e1, e, next) && cnf_holds(e, cv);
                        lemma_cnf_agree(e1, e2, base, next);
                        lemma_guard_weaken(e2, cv, c.guard);
                        lemma_cnf_concat(e2, base, gv);
                        assert(agree_below(a, e2, nv)) by {
                            assert forall|v: u32| v < nv implies #[trigger] val(a, v) == val(e2, v) by {
                                assert(val(a, v) == val(e1, v));
                                assert(val(e1, v) == val(e2, v));
                            }
                        }
                    }
                }
                assert forall|m: Seq<bool>| #[trigger] cnf_holds(m, session_clauses(session)) implies cards_hold(m, f.take(j as int + 1)) by {
                    lemma_cnf_prefix(m, base, gv);
                    assert(card_holds(m, c@)) by {
                        match c.guard {
                            Some(g) => {
                                if val(m, g) {
                                    lemma_guard_on(m, cv, g);
                                }
                            },
                            None => {
                                assert(gv == cv);
                            },
                        }
                    }
                    assert forall|u: int| 0 <= u < j + 1 implies card_holds(m, #[trigger] f.take(j as int + 1)[u]) by {
                        if u < j {
                            assert(f.take(j as int + 1)[u] == f.take(j as int)[u]);
                        }
                    }
                }
                assert forall|u: int| 0 <= u <= j + 1 implies #[trigger] encode_next(f.take(u), num_vars(nn)) < VAR_LIMIT by {
                    if u == j + 1 {
                    }
                }
            }
            next = nx;
            j = j + 1;
        }
        assert(f.take(j as int) =~= f);
        assert(fits(f, num_vars(nn))) by {
            assert forall|u: int| 0 <= u <= f.len() implies #[trigger] encode_next(f.take(u), num_vars(nn)) < VAR_LIMIT by {
                assert(f.take(j as int).take(u) =~= f.take(u));
            }
        }
        assert forall|m: Seq<bool>| #[trigger] cnf_holds(m, self.clauses()) implies cards_hold(m, self.formula()) by {
            assert(cnf_holds(m, session_clauses(session)));
        }
        assert forall|a: Seq<bool>| #[trigger] cards_hold(a, self.formula()) implies exists|e: Seq<bool>|
            agree_below(a, e, num_vars(nn)) && cnf_holds(e, self.clauses()) by {
            assert(cards_hold(a, f.take(j as int)));
            let e = choose|e: Seq<bool>| agree_below(a, e, num_vars(nn)) && cnf_holds(e, session_clauses(session));
            assert(session_clauses(session) == self.clauses());
            assert(agree_below(a, e, num_vars(nn)) && cnf_holds(e, self.clauses()));
        }
        Some(session)
    }
}

/// The projection in which exactly player `i` holds the target role.
pub open spec fn single(n: nat, i: int) -> Seq<bool> {
    Seq::new(n, |q: int| q == i)
}

/// `p` names one of `n` players alone as holder of the target role.
pub open spec fn is_single(n: nat, p: Seq<bool>) -> bool {
    exists|i: int| 0 <= i < n && p == single(n, i)
}

/// Player `i` holds the target role alone in one of the projections `ps`.
pub open spec fn names_player(ps: Seq<Vec<bool>>, n: nat, i: int) -> bool {
    exists|j: int| 0 <= j < ps.len() && #[trigger] ps[j]@ == single(n, i)
}

/// The projections of a result, as values.
pub open spec fn projections_view(ps: Seq<Vec<bool>>) -> Seq<Seq<bool>> {
    ps.map_values(|p: Vec<bool>| p@)
}

impl JesusFinder {
    /// Enumerates every distinct projection of the target role over the
    /// models of the accumulated constraints, blocking each projection once
    /// found: one solver call per candidate found, and one more that answers
    /// `Unsat`. It fails only where the encoding outgrows the variable bound. On success the result is exactly the candidate set, without
    /// repetition, and the constraints with every found candidate blocked
    /// have no model. An empty result means the evidence is contradictory.
    pub fn find_jesus(&self) -> (r: Result<Vec<Vec<bool>>, SolveError>)
        requires
            self.wf(),
        ensures
            r is Ok <==> fits(self.formula(), num_vars(self.player_count())),
            self.formula().len() <= MAX_CONSTRAINTS ==> r is Ok,
            r matches Ok(ps) ==> {
                &&& projections_view(ps@).to_set() == self.candidates()
                &&& projections_view(ps@).no_duplicates()
                &&& ps.len() <= self.player_count()
                &&& (ps.len() == 0 <==> forall|a: Seq<bool>| !#[trigger] cards_hold(a, self.formula()))
                &&& forall|j: int| 0 <= j < ps.len() ==> is_single(self.player_count(), #[trigger] ps[j]@)
                &&& forall|m: Seq<bool>| #[trigger] cnf_holds(m, self.clauses()) ==> cards_hold(m, self.formula())
                &&& forall|a: Seq<bool>| #[trigger] cards_hold(a, self.formula()) ==> exists|x: Seq<bool>|
                    agree_below(a, x, num_vars(self.player_count())) && cnf_holds(x, self.clauses())
                &&& forall|m: Seq<bool>| #[trigger] cnf_holds(m, self.clauses()) ==> role_counts_hold(self.player_count(), m)
                &&& forall|m: Seq<bool>| #[trigger] cnf_holds(m, self.clauses()) ==>
                    exists|j: int, i: int| 0 <= j < ps.len() && 0 <= i < ps[j]@.len() && ps[j]@[i] && val(m, id_var(i, 0))
            },
            self.formula().len() == static_len(self.player_count()) ==> r is Ok,
            r matches Ok(ps) ==> (self.formula().len() == static_len(self.player_count()) ==> {
                &&& ps.len() == self.player_count()
                &&& forall|i: int| 0 <= i < self.player_count() ==> #[trigger] names_player(ps@, self.player_count(), i)
            }),
    {
        let ghost nn = self.n as nat;
        let ghost e = self.clauses();
        let n = self.n;
        let mut session = match self.load() {
            Some(s) => s,
            None => return Err(SolveError::VariableLimit),
        };
        let mut found: Vec<Vec<bool>> = Vec::new();
        let ghost mut owners: Seq<usize> = Seq::empty();
        proof {
            assert forall|m: Seq<bool>| #[trigger] cnf_holds(m, e) implies role_counts_hold(nn, m) by {
                self.lemma_roles_from_cards(m);
            }
            assert(session_clauses(session) =~= e + owners.map_values(|b: usize| block_clause(b as int)));
        }
        loop
            invariant
                self.wf(),
                nn == n,
                n == self.player_count(),
                e == self.clauses(),
                session_clauses(session) == e + owners.map_values(|b: usize| block_clause(b as int)),
                found.len() == owners.len(),
                owners.no_duplicates(),
                forall|k: int| 0 <= k < owners.len() ==> #[trigger] owners[k] < n,
                forall|k: int| 0 <= k < found.len() ==> #[trigger] found@[k]@ == single(nn, owners[k] as int),
                forall|k: int| 0 <= k < found.len() ==> self.candidates().contains(#[trigger] found@[k]@),
                forall|m: Seq<bool>| #[trigger] cnf_holds(m, e) ==> cards_hold(m, self.formula()),
                forall|m: Seq<bool>| #[trigger] cnf_holds(m, e) ==> role_counts_hold(nn, m),
                forall|a: Seq<bool>| #[trigger] cards_hold(a, self.formula()) ==> exists|x: Seq<bool>|
                    agree_below(a, x, num_vars(nn)) && cnf_holds(x, e),
                fits(self.formula(), num_vars(nn)),
            decreases n - found.len(),
        {
            let ghost units = owners.map_values(|b: usize| block_clause(b as int));
            match solve(&mut session) {
                SolveOutcome::Failed => {
                    // `solve` always answers.
                    proof {
                        assert(false);
                    }
                    return Err(SolveError::VariableLimit);
                },
                SolveOutcome::Unsat => {
                    proof {
                        self.lemma_unsat_covers(found@, owners, units);
                        if self.formula().len() == static_len(nn) {
                            assert(found.len() == nn && forall|i: int| 0 <= i < nn ==> #[trigger] names_player(found@, nn, i)) by {
                                self.lemma_all_players_found(found@, owners);
                            }
                        }
                        let pv = projections_view(found@);
                        if found.len() == 0 {
                            assert forall|a: Seq<bool>| !#[trigger] cards_hold(a, self.formula()) by {
                                if cards_hold(a, self.formula()) {
                                    let x = choose|x: Seq<bool>| agree_below(a, x, num_vars(nn)) && cnf_holds(x, e);
                                    assert(self.candidates().contains(projection(nn, x)));
                                    assert(pv.to_set().contains(projection(nn, x)));
                                }
                            }
                        } else {
                            assert(self.candidates().contains(pv[0]));
                            let m = choose|m: Seq<bool>| cnf_holds(m, self.clauses()) && pv[0] == projection(nn, m);
                            assert(cards_hold(m, self.formula()));
                        }
                    }
                    return Ok(found);
                },
                SolveOutcome::Sat(m) => {
                    proof {
                        lemma_cnf_prefix(m@, e, units);
                    }
                    let ghost i = self.lemma_unique_jesus(m@);
                    proof {
                        assert forall|k: int| 0 <= k < owners.len() implies #[trigger] owners[k] != i by {
                            assert(clause_holds(m@, units[k]));
                            let t = choose|t: int| 0 <= t < units[k].len() && lit_holds(m@, #[trigger] units[k][t]);
                            assert(units[k][t] == (id_var(owners[k] as int, 0), true));
                        }
                    }
                    let p = projection_of(&m, n);
                    assert(p@ =~= projection(nn, m@));
                    assert(p@ =~= single(nn, i));
                    let mut pos: usize = 0;
                    while pos < n && !p[pos]
                        invariant
                            pos <= n,
                            p@ == single(nn, i),
                            0 <= i < n,
                            nn == n,
                            pos <= i,
                        decreases n - pos,
                    {
                        pos = pos + 1;
                    }
                    assert(pos == i);
                    let block: Vec<(u32, bool)> = vec![((5 * pos) as u32, true)];
                    assert(block@ =~= block_clause(i));
                    add_clause(&mut session, &block);
                    proof {
                        assert(self.candidates().contains(p@)) by {
                            assert(cnf_holds(m@, e) && p@ == projection(nn, m@));
                        }
                        let grown = owners.push(pos);
                        assert(grown.map_values(|b: usize| block_clause(b as int)) =~= units.push(block@));
                        assert(grown.no_duplicates()) by {
                            assert forall|a: int, b: int| 0 <= a < grown.len() && 0 <= b < grown.len() && a != b implies grown[a] != grown[b] by {
                                if a < owners.len() && b < owners.len() {
                                } else if a < owners.len() {
                                    assert(owners[a] != i);
                                } else {
                                    assert(owners[b] != i);
                                }
                            }
                        }
                        lemma_distinct_below(grown, n as int);
                        owners = grown;
                    }
                    found.push(p);
                },
            }
        }
    }

    /// The static role columns fix how many players hold each role.
    proof fn lemma_roles_from_cards(&self, m: Seq<bool>)
        requires
            self.wf(),
            cards_hold(m, self.formula()),
        ensures
            role_counts_hold(self.player_count(), m),
    {
        assert forall|r: int| 0 <= r < 5 implies #[trigger] count_true(role_col(self.player_count(), r), m)
            == role_count(self.player_count(), role_at(r as nat)) by {
            assert(self.formula()[r] == role_card(self.player_count(), r));
            assert(card_holds(m, self.formula()[r]));
        }
    }

    /// Under a model of the clauses exactly one player holds the target role.
    proof fn lemma_unique_jesus(&self, m: Seq<bool>) -> (i: int)
        requires
            self.wf(),
            cnf_holds(m, self.clauses()) ==> role_counts_hold(self.player_count(), m),
            cnf_holds(m, self.clauses()),
        ensures
            0 <= i < self.player_count(),
            val(m, id_var(i, 0)),
            forall|k: int| 0 <= k < self.player_count() && k != i ==> !val(m, #[trigger] id_var(k, 0)),
            projection(self.player_count(), m) == single(self.player_count(), i),
    {
        let n = self.player_count();
        let col = role_col(n, 0);
        assert(count_true(col, m) == role_count(n, role_at(0)));
        lemma_count_one(col, m);
        let i = choose|i: int|
            0 <= i < col.len() && val(m, #[trigger] col[i]) && (forall|k: int|
                0 <= k < col.len() && k != i ==> !val(m, #[trigger] col[k]));
        assert forall|k: int| 0 <= k < n && k != i implies !val(m, #[trigger] id_var(k, 0)) by {
            assert(col[k] == id_var(k, 0));
        }
        assert(projection(n, m) =~= single(n, i));
        i
    }

    /// Before any evidence, every player is found as a candidate.
    proof fn lemma_all_players_found(&self, found: Seq<Vec<bool>>, owners: Seq<usize>)
        requires
            self.wf(),
            self.formula().len() == static_len(self.player_count()),
            projections_view(found).to_set() == self.candidates(),
            found.len() == owners.len(),
            owners.no_duplicates(),
            forall|k: int| 0 <= k < owners.len() ==> #[trigger] owners[k] < self.player_count(),
            forall|k: int| 0 <= k < found.len() ==> #[trigger] found[k]@ == single(self.player_count(), owners[k] as int),
            forall|a: Seq<bool>| #[trigger] cards_hold(a, self.formula()) ==> exists|x: Seq<bool>|
                agree_below(a, x, num_vars(self.player_count())) && cnf_holds(x, self.clauses()),
        ensures
            found.len() == self.player_count(),
            forall|i: int| 0 <= i < self.player_count() ==> #[trigger] names_player(found, self.player_count(), i),
    {
        let n = self.player_count();
        let pv = projections_view(found);
        let oi = owners.map_values(|x: usize| x as int);
        assert forall|i: int| 0 <= i < n implies #[trigger] oi.contains(i) by {
            let a = witness(n, i);
            lemma_witness_static(n, i, self.formula());
            let x = choose|x: Seq<bool>| agree_below(a, x, num_vars(n)) && cnf_holds(x, self.clauses());
            assert(projection(n, x) =~= projection(n, a)) by {
                assert forall|q: int| 0 <= q < n implies #[trigger] projection(n, x)[q] == projection(n, a)[q] by {
                    assert(id_var(q, 0) < num_vars(n));
                }
            }
            assert(self.candidates().contains(single(n, i)));
            assert(pv.to_set().contains(single(n, i)));
            let k = choose|k: int| 0 <= k < pv.len() && pv[k] == single(n, i);
            assert(found[k]@ == single(n, i));
            assert(single(n, owners[k] as int)[i] == single(n, i)[i]);
            assert(oi[k] == i);
        }
        assert forall|i: int| 0 <= i < self.player_count() implies #[trigger] names_player(found, self.player_count(), i) by {
            assert(oi.contains(i));
            let k = choose|k: int| 0 <= k < oi.len() && oi[k] == i;
            assert(0 <= k < found.len());
            assert(found[k]@ == single(self.player_count(), i));
        }
        lemma_distinct_below(owners, n as int);
        assert(set_int_range(0, n as int).subset_of(oi.to_set())) by {
            assert forall|i: int| set_int_range(0, n as int).contains(i) implies oi.to_set().contains(i) by {
                assert(oi.contains(i));
            }
        }
        assert(oi.no_duplicates()) by {
            assert forall|a: int, b: int| 0 <= a < oi.len() && 0 <= b < oi.len() && a != b implies oi[a] != oi[b] by {
                assert(owners[a] != owners[b]);
            }
        }
        oi.unique_seq_to_set();
        lemma_int_range(0, n as int);
        lemma_len_subset(set_int_range(0, n as int), oi.to_set());
    }

    /// Once the clauses with the found candidates blocked have no model,
    /// every model of the clauses projects onto a found candidate.
    proof fn lemma_unsat_covers(&self, found: Seq<Vec<bool>>, owners: Seq<usize>, units: Seq<Seq<LitModel>>)
        requires
            self.wf(),
            units == owners.map_values(|b: usize| block_clause(b as int)),
            forall|m: Seq<bool>| !cnf_holds(m, self.clauses() + units),
            found.len() == owners.len(),
            owners.no_duplicates(),
            forall|k: int| 0 <= k < owners.len() ==> #[trigger] owners[k] < self.player_count(),
            forall|k: int| 0 <= k < found.len() ==> #[trigger] found[k]@ == single(self.player_count(), owners[k] as int),
            forall|k: int| 0 <= k < found.len() ==> self.candidates().contains(#[trigger] found[k]@),
            forall|m: Seq<bool>| #[trigger] cnf_holds(m, self.clauses()) ==> role_counts_hold(self.player_count(), m),
        ensures
            projections_view(found).to_set() == self.candidates(),
            found.len() <= self.player_count(),
            forall|j: int| 0 <= j < found.len() ==> is_single(self.player_count(), #[trigger] found[j]@),
            projections_view(found).no_duplicates(),
            forall|m: Seq<bool>| #[trigger] cnf_holds(m, self.clauses()) ==>
                exists|j: int, i: int| 0 <= j < found.len() && 0 <= i < found[j]@.len() && found[j]@[i] && val(m, id_var(i, 0)),
    {
        lemma_distinct_below(owners, self.player_count() as int);
        assert forall|j: int| 0 <= j < found.len() implies is_single(self.player_count(), #[trigger] found[j]@) by {
            let i = owners[j] as int;
            assert(0 <= i < self.player_count());
            assert(found[j]@ == single(self.player_count(), i));
        }
        let n = self.player_count();
        let pv = projections_view(found);
        assert forall|m: Seq<bool>| #[trigger] cnf_holds(m, self.clauses()) implies
            exists|k: int| 0 <= k < owners.len() && val(m, #[trigger] id_var(owners[k] as int, 0)) by {
            let i = self.lemma_unique_jesus(m);
            if forall|k: int| 0 <= k < owners.len() ==> !val(m, #[trigger] id_var(owners[k] as int, 0)) {
                assert forall|j: int| 0 <= j < units.len() implies clause_holds(m, #[trigger] units[j]) by {
                    assert(units[j][0] == (id_var(owners[j] as int, 0), true));
                    assert(lit_holds(m, units[j][0]));
                }
                lemma_cnf_concat(m, self.clauses(), units);
            }
        }
        assert forall|p: Seq<bool>| self.candidates().contains(p) implies pv.to_set().contains(p) by {
            let m = choose|m: Seq<bool>| cnf_holds(m, self.clauses()) && p == projection(n, m);
            let i = self.lemma_unique_jesus(m);
            let k = choose|k: int| 0 <= k < owners.len() && val(m, #[trigger] id_var(owners[k] as int, 0));
            assert(owners[k] == i);
            assert(pv[k] == found[k]@);
            assert(pv.contains(p));
        }
        assert forall|p: Seq<bool>| pv.to_set().contains(p) implies self.candidates().contains(p) by {
            let k = choose|k: int| 0 <= k < pv.len() && pv[k] == p;
            assert(found[k]@ == p);
        }
        assert(pv.to_set() =~= self.candidates());
        assert forall|a: int, b: int| 0 <= a < pv.len() && 0 <= b < pv.len() && a != b implies pv[a] != pv[b] by {
            assert(pv[a] == single(n, owners[a] as int));
            assert(pv[b] == single(n, owners[b] as int));
            assert(pv[a][owners[a] as int] != pv[b][owners[a] as int]);
        }
        assert forall|m: Seq<bool>| #[trigger] cnf_holds(m, self.clauses()) implies
            exists|j: int, i: int| 0 <= j < found.len() && 0 <= i < found[j]@.len() && found[j]@[i] && val(m, id_var(i, 0)) by {
            let i = self.lemma_unique_jesus(m);
            let k = choose|k: int| 0 <= k < owners.len() && val(m, #[trigger] id_var(owners[k] as int, 0));
            assert(owners[k] == i);
            assert(found[k]@[i]);
        }
    }
}

/// Encoding more constraints only adds clauses after those already there.
pub proof fn lemma_encode_extends(cs: Seq<CardModel>, es: Seq<CardModel>, start: u32)
    ensures
        exists|tail: Seq<Seq<LitModel>>| encode(cs + es, start) == encode(cs, start) + tail,
    decreases es.len(),
{
    if es.len() == 0 {
        assert(cs + es =~= cs);
        assert(encode(cs, start) + Seq::<Seq<LitModel>>::empty() =~= encode(cs, start));
    } else {
        lemma_encode_extends(cs, es.drop_last(), start);
        let tail = choose|tail: Seq<Seq<LitModel>>| encode(cs + es.drop_last(), start) == encode(cs, start) + tail;
        assert((cs + es).drop_last() =~= cs + es.drop_last());
        let c = (cs + es).last();
        let more = guarded(totalizer_eq(c.1, c.2, encode_next((cs + es).drop_last(), start)).0, c.0);
        assert(encode(cs + es, start) =~= encode(cs, start) + (tail + more));
    }
}

/// Asking twice, with no evidence added in between, gives the same candidate
/// set: whether an enumeration succeeds, and what it returns as a set,
/// depend on the accumulated constraints alone.
pub proof fn lemma_solve_idempotent(f: JesusFinder, first: Seq<Vec<bool>>, second: Seq<Vec<bool>>)
    requires
        f.wf(),
        projections_view(first).to_set() == f.candidates(),
        projections_view(second).to_set() == f.candidates(),
    ensures
        projections_view(first).to_set() == projections_view(second).to_set(),
{
}

/// Evidence only narrows: every candidate after evidence was added was a
/// candidate before it, and where the later enumeration succeeds so does the
/// earlier one.
pub proof fn lemma_evidence_narrows(before: JesusFinder, after: JesusFinder, extra: Seq<CardModel>)
    requires
        after.player_count() == before.player_count(),
        after.formula() == before.formula() + extra,
    ensures
        after.candidates().subset_of(before.candidates()),
        fits(after.formula(), num_vars(after.player_count())) ==> fits(before.formula(), num_vars(before.player_count())),
{
    let n0 = num_vars(before.player_count());
    if fits(after.formula(), n0) {
        assert forall|u: int| 0 <= u <= before.formula().len() implies #[trigger] encode_next(before.formula().take(u), n0) < VAR_LIMIT by {
            assert(after.formula().take(u) =~= before.formula().take(u));
        }
    }
    let n = before.player_count();
    lemma_encode_extends(before.formula(), extra, num_vars(n));
    let tail = choose|tail: Seq<Seq<LitModel>>|
        encode(before.formula() + extra, num_vars(n)) == encode(before.formula(), num_vars(n)) + tail;
    assert forall|p: Seq<bool>| after.candidates().contains(p) implies before.candidates().contains(p) by {
        let m = choose|m: Seq<bool>| cnf_holds(m, after.clauses()) && p == projection(n, m);
        lemma_cnf_prefix(m, before.clauses(), tail);
    }
}

/// Reads off, from a model, who holds the target role, by player.
pub fn projection_of(m: &Vec<bool>, n: usize) -> (p: Vec<bool>)
    requires
        n <= 10,
    ensures
        p@ == projection(n as nat, m@),
{
    let mut p: Vec<bool> = Vec::new();
    let mut q: usize = 0;
    while q < n
        invariant
            q <= n,
            n <= 10,
            p@ =~= projection(n as nat, m@).take(q as int),
        decreases n - q,
    {
        let v: usize = 5 * q;
        p.push(v < m.len() && m[v]);
        q = q + 1;
    }
    assert(p@ =~= projection(n as nat, m@));
    p
}

/// Distinct indices below `n` are at most `n`.
proof fn lemma_distinct_below(s: Seq<usize>, n: int)
    requires
        s.no_duplicates(),
        n >= 0,
        forall|t: int| 0 <= t < s.len() ==> #[trigger] s[t] < n,
    ensures
        s.len() <= n,
{
    let si = s.map_values(|x: usize| x as int);
    assert(si.no_duplicates()) by {
        assert forall|a: int, b: int| 0 <= a < si.len() && 0 <= b < si.len() && a != b implies si[a] != si[b] by {
            assert(s[a] != s[b]);
        }
    }
    si.unique_seq_to_set();
    assert(si.to_set().subset_of(set_int_range(0, n))) by {
        assert forall|x: int| si.to_set().contains(x) implies set_int_range(0, n).contains(x) by {
            let t = choose|t: int| 0 <= t < si.len() && si[t] == x;
            assert(s[t] < n);
        }
    }
    lemma_int_range(0, n);
    lemma_len_subset(si.to_set(), set_int_range(0, n));
}

} // verus!
