//! A model of the static constraints in which a chosen player holds the
//! target role: the roles dealt with that player and the first seat swapped,
//! and every player holding its role's prodigies slot by slot.
use vstd::arithmetic::div_mod::lemma_fundamental_div_mod_converse;
use vstd::prelude::*;

use crate::cnf::{card_holds, cards_hold, lemma_count_matches, val, CardModel};
use crate::finder::{
    dist_card, dist_pos, ev_var, id_var, num_vars, player_row, projection, role_card, role_col,
    row_card, row_pos, single, slot_vars, static_len, static_prefix,
};
use crate::secret_jesus::{
    lemma_role_count_matches_deal, occurrences, prodigies_of, prodigy_at, role_at, roles_for, Prodigy,
    Role,
};

verus! {

/// The roles of `n` players with player `i` and the first seat swapped.
pub open spec fn dealt(n: nat, i: int) -> Seq<Role> {
    roles_for(n).update(0, roles_for(n)[i]).update(i, Role::Jesus)
}

pub open spec fn witness_val(n: nat, i: int, v: int) -> bool {
    if v < 5 * n {
        dealt(n, i)[v / 5] == role_at((v % 5) as nat)
    } else {
        let w = v - 5 * n;
        prodigies_of(dealt(n, i)[w / 15])[w % 5] == prodigy_at(((w % 15) / 5) as nat)
    }
}

/// The assignment in which player `i` holds the target role.
pub open spec fn witness(n: nat, i: int) -> Seq<bool> {
    Seq::new(num_vars(n) as nat, |v: int| witness_val(n, i, v))
}

proof fn lemma_occurrences_update<T>(s: Seq<T>, k: int, y: T, x: T)
    requires
        0 <= k < s.len(),
    ensures
        occurrences(s.update(k, y), x) + (if s[k] == x { 1nat } else { 0nat }) == occurrences(s, x) + (if y == x { 1nat } else { 0nat }),
    decreases s.len(),
{
    let u = s.update(k, y);
    if k == s.len() - 1 {
        assert(u.drop_last() =~= s.drop_last());
    } else {
        lemma_occurrences_update(s.drop_last(), k, y, x);
        assert(u.drop_last() =~= s.drop_last().update(k, y));
    }
}

proof fn lemma_roles_for_shape(n: nat)
    requires
        4 <= n <= 10,
    ensures
        roles_for(n).len() == n,
        roles_for(n)[0] == Role::Jesus,
        forall|q: int| 1 <= q < n ==> #[trigger] roles_for(n)[q] != Role::Jesus,
{
}

proof fn lemma_dealt(n: nat, i: int)
    requires
        4 <= n <= 10,
        0 <= i < n,
    ensures
        dealt(n, i).len() == n,
        forall|q: int| 0 <= q < n ==> (#[trigger] dealt(n, i)[q] == Role::Jesus <==> q == i),
        forall|x: Role| occurrences(#[trigger] dealt(n, i), x) == occurrences(roles_for(n), x),
{
    lemma_roles_for_shape(n);
    let s = roles_for(n);
    let u1 = s.update(0, s[i]);
    assert forall|x: Role| occurrences(#[trigger] dealt(n, i), x) == occurrences(roles_for(n), x) by {
        lemma_occurrences_update(s, 0, s[i], x);
        lemma_occurrences_update(u1, i, Role::Jesus, x);
        if i == 0 {
            assert(u1 =~= s);
        }
    }
}

proof fn lemma_prodigies_len(r: Role)
    ensures
        prodigies_of(r).len() == 5,
{
}

proof fn lemma_witness_id(n: nat, i: int, q: int, r: int)
    requires
        4 <= n <= 10,
        0 <= i < n,
        0 <= q < n,
        0 <= r < 5,
    ensures
        val(witness(n, i), id_var(q, r)) == (dealt(n, i)[q] == role_at(r as nat)),
{
    let v = 5 * q + r;
    lemma_fundamental_div_mod_converse(v, 5, q, r);
    assert(id_var(q, r) as int == v);
}

proof fn lemma_witness_ev(n: nat, i: int, q: int, p: int, s: int)
    requires
        4 <= n <= 10,
        0 <= i < n,
        0 <= q < n,
        0 <= p < 3,
        0 <= s < 5,
    ensures
        val(witness(n, i), ev_var(n as int, q, p, s)) == (prodigies_of(dealt(n, i)[q])[s] == prodigy_at(p as nat)),
{
    let w = 15 * q + 5 * p + s;
    lemma_fundamental_div_mod_converse(w, 15, q, 5 * p + s);
    lemma_fundamental_div_mod_converse(w, 5, 3 * q + p, s);
    lemma_fundamental_div_mod_converse(5 * p + s, 5, p, s);
    assert(ev_var(n as int, q, p, s) as int == 5 * n + w);
}

/// The witness meets every constraint of the static model, and in it exactly
/// player `i` holds the target role.
pub proof fn lemma_witness_static(n: nat, i: int, cs: Seq<CardModel>)
    requires
        4 <= n <= 10,
        0 <= i < n,
        static_prefix(n, cs),
        cs.len() == static_len(n),
    ensures
        cards_hold(witness(n, i), cs),
        projection(n, witness(n, i)) == single(n, i),
{
    let a = witness(n, i);
    lemma_dealt(n, i);
    assert forall|r: int| 0 <= r < 5 implies card_holds(a, #[trigger] role_card(n, r)) by {
        let x = role_at(r as nat);
        assert forall|q: int| 0 <= q < n implies #[trigger] val(a, role_col(n, r)[q]) == (dealt(n, i)[q] == x) by {
            lemma_witness_id(n, i, q, r);
        }
        lemma_count_matches(role_col(n, r), a, dealt(n, i), x);
        lemma_role_count_matches_deal(n, x);
    }
    let roles = seq![Role::Jesus, Role::Judas, Role::Peter, Role::Apostle, Role::Mary];
    assert forall|q: int| 0 <= q < n implies card_holds(a, #[trigger] row_card(q)) by {
        let x = dealt(n, i)[q];
        assert forall|r: int| 0 <= r < 5 implies #[trigger] val(a, player_row(q)[r]) == (roles[r] == x) by {
            lemma_witness_id(n, i, q, r);
            assert(roles[r] == role_at(r as nat));
        }
        lemma_count_matches(player_row(q), a, roles, x);
        reveal_with_fuel(occurrences, 6);
        assert(occurrences(roles, x) == 1);
    }
    assert forall|q: int, r: int, p: int| 0 <= q < n && 0 <= r < 5 && 0 <= p < 3
        implies card_holds(a, #[trigger] dist_card(n, q, r, p)) by {
        lemma_witness_id(n, i, q, r);
        if val(a, id_var(q, r)) {
            let role = dealt(n, i)[q];
            lemma_prodigies_len(role);
            assert forall|s: int| 0 <= s < 5 implies #[trigger] val(a, slot_vars(n, q, p)[s]) == (prodigies_of(role)[s] == prodigy_at(p as nat)) by {
                lemma_witness_ev(n, i, q, p, s);
            }
            lemma_count_matches(slot_vars(n, q, p), a, prodigies_of(role), prodigy_at(p as nat));
        }
    }
    assert forall|j: int| 0 <= j < cs.len() implies card_holds(a, #[trigger] cs[j]) by {
        if j < 5 {
            assert(cs[j] == role_card(n, j));
        } else {
            let t = j - 5;
            let q = t / 16;
            let u = t % 16;
            lemma_fundamental_div_mod_converse(t, 16, q, u);
            assert(0 <= q < n) by {
                assert(t < 16 * n);
            }
            if u == 0 {
                assert(row_pos(q) == j);
                assert(cs[row_pos(q)] == row_card(q));
            } else {
                let r = (u - 1) / 3;
                let p = (u - 1) % 3;
                lemma_fundamental_div_mod_converse(u - 1, 3, r, p);
                assert(dist_pos(q, r, p) == j);
                assert(cs[dist_pos(q, r, p)] == dist_card(n, q, r, p));
            }
        }
    }
    assert forall|q: int| 0 <= q < n implies #[trigger] projection(n, a)[q] == single(n, i)[q] by {
        lemma_witness_id(n, i, q, 0);
    }
    assert(projection(n, a) =~= single(n, i));
}

} // verus!
