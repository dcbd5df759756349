use vstd::prelude::*;

use crate::event::{min_players_of, Event};
use vstd::string::StringExecFns;

verus! {

/// Number of event slots in one game; each role holds one prodigy per slot.
pub const EVENTS_PER_GAME: usize = 5;

/// The hidden roles of the game. `Jesus` is the role being inferred.
#[derive(Debug, Clone, Copy, PartialEq, Eq, Structural)]
pub enum Role {
    Jesus,
    Judas,
    Peter,
    Apostle,
    Mary,
}

/// The token kinds a player may reveal at an event.
#[derive(Debug, Clone, Copy, PartialEq, Eq, Structural)]
pub enum Prodigy {
    Bane,
    Null,
    Boon,
}

/// Position of a role in the fixed role order.
pub open spec fn role_index(r: Role) -> nat {
    match r {
        Role::Jesus => 0,
        Role::Judas => 1,
        Role::Peter => 2,
        Role::Apostle => 3,
        Role::Mary => 4,
    }
}

/// The role at a position of the fixed role order.
pub open spec fn role_at(i: nat) -> Role {
    if i == 0 {
        Role::Jesus
    } else if i == 1 {
        Role::Judas
    } else if i == 2 {
        Role::Peter
    } else if i == 3 {
        Role::Apostle
    } else {
        Role::Mary
    }
}

/// Position of a prodigy kind in the fixed kind order.
pub open spec fn prodigy_index(p: Prodigy) -> nat {
    match p {
        Prodigy::Bane => 0,
        Prodigy::Null => 1,
        Prodigy::Boon => 2,
    }
}

/// The prodigy kind at a position of the fixed kind order.
pub open spec fn prodigy_at(i: nat) -> Prodigy {
    if i == 0 {
        Prodigy::Bane
    } else if i == 1 {
        Prodigy::Null
    } else {
        Prodigy::Boon
    }
}

/// The fixed per-slot prodigy distribution of a role.
pub open spec fn prodigies_of(r: Role) -> Seq<Prodigy> {
    match r {
        Role::Jesus => seq![Prodigy::Boon, Prodigy::Boon, Prodigy::Boon, Prodigy::Boon, Prodigy::Boon],
        Role::Judas => seq![Prodigy::Bane, Prodigy::Bane, Prodigy::Bane, Prodigy::Null, Prodigy::Boon],
        Role::Peter => seq![Prodigy::Bane, Prodigy::Null, Prodigy::Null, Prodigy::Null, Prodigy::Boon],
        Role::Apostle => seq![Prodigy::Null, Prodigy::Null, Prodigy::Null, Prodigy::Null, Prodigy::Boon],
        Role::Mary => seq![Prodigy::Null, Prodigy::Null, Prodigy::Null, Prodigy::Boon, Prodigy::Boon],
    }
}

/// Number of occurrences of `x` in `s`.
pub open spec fn occurrences<T>(s: Seq<T>, x: T) -> nat
    decreases s.len(),
{
    if s.len() == 0 {
        0
    } else {
        occurrences(s.drop_last(), x) + if s.last() == x { 1nat } else { 0nat }
    }
}

/// The roles dealt to `n` players, in seat order.
pub open spec fn roles_for(n: nat) -> Seq<Role> {
    if n <= 6 {
        seq![Role::Jesus, Role::Judas, Role::Peter] + Seq::new((n - 3) as nat, |i: int| Role::Apostle)
    } else {
        seq![Role::Jesus, Role::Judas, Role::Peter, Role::Mary] + Seq::new((n - 4) as nat, |i: int| Role::Apostle)
    }
}

/// How many of `n` players hold role `r`.
pub open spec fn role_count(n: nat, r: Role) -> nat {
    match r {
        Role::Jesus => 1,
        Role::Judas => 1,
        Role::Peter => 1,
        Role::Mary => if n <= 6 { 0 } else { 1 },
        Role::Apostle => if n <= 6 { (n - 3) as nat } else { (n - 4) as nat },
    }
}

/// Appending `k` apostles adds `k` to their count and nothing to the others.
proof fn lemma_occurrences_apostles(s: Seq<Role>, k: nat, x: Role)
    ensures
        occurrences(s + Seq::new(k, |i: int| Role::Apostle), x) == occurrences(s, x) + if x == Role::Apostle { k } else { 0 },
    decreases k,
{
    let t = s + Seq::new(k, |i: int| Role::Apostle);
    if k > 0 {
        lemma_occurrences_apostles(s, (k - 1) as nat, x);
        assert(t.drop_last() =~= s + Seq::new((k - 1) as nat, |i: int| Role::Apostle));
    } else {
        assert(t =~= s);
    }
}

/// The lookup table of role counts agrees with the roles dealt: for every
/// supported table size, `role_count(n, r)` players are dealt role `r`.
pub proof fn lemma_role_count_matches_deal(n: nat, r: Role)
    requires
        4 <= n <= 10,
    ensures
        occurrences(roles_for(n), r) == role_count(n, r),
{
    if n <= 6 {
        let head = seq![Role::Jesus, Role::Judas, Role::Peter];
        lemma_occurrences_apostles(head, (n - 3) as nat, r);
        assert(head.drop_last().drop_last().drop_last() =~= Seq::<Role>::empty());
        assert(head.drop_last().drop_last() =~= seq![Role::Jesus]);
        assert(head.drop_last() =~= seq![Role::Jesus, Role::Judas]);
        reveal_with_fuel(occurrences, 4);
        assert(occurrences(head, r) == if r == Role::Jesus || r == Role::Judas || r == Role::Peter { 1nat } else { 0nat });
    } else {
        let head = seq![Role::Jesus, Role::Judas, Role::Peter, Role::Mary];
        lemma_occurrences_apostles(head, (n - 4) as nat, r);
        assert(head.drop_last().drop_last().drop_last().drop_last() =~= Seq::<Role>::empty());
        assert(head.drop_last().drop_last().drop_last() =~= seq![Role::Jesus]);
        assert(head.drop_last().drop_last() =~= seq![Role::Jesus, Role::Judas]);
        assert(head.drop_last() =~= seq![Role::Jesus, Role::Judas, Role::Peter]);
        reveal_with_fuel(occurrences, 5);
        assert(occurrences(head, r) == if r == Role::Apostle { 0nat } else { 1nat });
    }
}

/// The number of slots at which role `r` holds prodigy `p`.
pub open spec fn prodigy_count(r: Role, p: Prodigy) -> nat {
    occurrences(prodigies_of(r), p)
}

impl Role {
    pub const NUMBER: usize = 5;

    pub fn initial_prodigies(&self) -> (r: [Prodigy; 5])
        ensures
            r@ == prodigies_of(*self),
    {
        let r = match self {
            Role::Jesus => [Prodigy::Boon, Prodigy::Boon, Prodigy::Boon, Prodigy::Boon, Prodigy::Boon],
            Role::Judas => [Prodigy::Bane, Prodigy::Bane, Prodigy::Bane, Prodigy::Null, Prodigy::Boon],
            Role::Peter => [Prodigy::Bane, Prodigy::Null, Prodigy::Null, Prodigy::Null, Prodigy::Boon],
            Role::Apostle => [Prodigy::Null, Prodigy::Null, Prodigy::Null, Prodigy::Null, Prodigy::Boon],
            Role::Mary => [Prodigy::Null, Prodigy::Null, Prodigy::Null, Prodigy::Boon, Prodigy::Boon],
        };
        assert(r@ =~= prodigies_of(*self));
        r
    }

    /// The role at position `i` of the fixed role order.
    pub fn from_index(i: usize) -> (r: Role)
        requires
            i < 5,
        ensures
            r == role_at(i as nat),
            role_index(r) == i,
    {
        if i == 0 {
            Role::Jesus
        } else if i == 1 {
            Role::Judas
        } else if i == 2 {
            Role::Peter
        } else if i == 3 {
            Role::Apostle
        } else {
            Role::Mary
        }
    }
}

impl Prodigy {
    pub const NUMBER: usize = 3;

    pub fn value(&self) -> (r: i32)
        ensures
            r == match *self {
                Prodigy::Bane => -1i32,
                Prodigy::Null => 0i32,
                Prodigy::Boon => 1i32,
            },
    {
        match self {
            Prodigy::Bane => -1,
            Prodigy::Null => 0,
            Prodigy::Boon => 1,
        }
    }

    /// The prodigy kind at position `i` of the fixed kind order.
    pub fn from_index(i: usize) -> (r: Prodigy)
        requires
            i < 3,
        ensures
            r == prodigy_at(i as nat),
            prodigy_index(r) == i,
    {
        if i == 0 {
            Prodigy::Bane
        } else if i == 1 {
            Prodigy::Null
        } else {
            Prodigy::Boon
        }
    }
}


/// The decimal digits of `v`, most significant first.
pub open spec fn decimal(v: nat) -> Seq<char>
    decreases v,
{
    if v < 10 {
        seq![digit(v)]
    } else {
        decimal(v / 10).push(digit(v % 10))
    }
}

pub open spec fn digit(d: nat) -> char {
    if d == 0 { '0' } else if d == 1 { '1' } else if d == 2 { '2' } else if d == 3 { '3' }
    else if d == 4 { '4' } else if d == 5 { '5' } else if d == 6 { '6' } else if d == 7 { '7' }
    else if d == 8 { '8' } else { '9' }
}

/// The text of one decimal digit.
fn digit_text(d: usize) -> (r: &'static str)
    requires
        d < 10,
    ensures
        r@ == seq![digit(d as nat)],
{
    proof {
        reveal_strlit("0");
        reveal_strlit("1");
        reveal_strlit("2");
        reveal_strlit("3");
        reveal_strlit("4");
        reveal_strlit("5");
        reveal_strlit("6");
        reveal_strlit("7");
        reveal_strlit("8");
        reveal_strlit("9");
    }
    if d == 0 { "0" } else if d == 1 { "1" } else if d == 2 { "2" } else if d == 3 { "3" }
    else if d == 4 { "4" } else if d == 5 { "5" } else if d == 6 { "6" } else if d == 7 { "7" }
    else if d == 8 { "8" } else { "9" }
}

/// The decimal digits of `v`, most significant first.
fn decimal_text(v: usize) -> (r: String)
    ensures
        r@ == decimal(v as nat),
    decreases v,
{
    if v < 10 {
        String::from_str(digit_text(v))
    } else {
        let head = decimal_text(v / 10);
        let r = head.concat(digit_text(v % 10));
        assert(r@ =~= decimal((v / 10) as nat).push(digit((v % 10) as nat)));
        r
    }
}

/// A seat at the table: its index, its secret role and the prodigies it has left.
#[derive(Debug)]
pub struct Player {
    pub id: usize,
    pub role: Role,
    pub prodigies: Vec<Prodigy>,
}

/// How a player is called: by role, and apostles by seat as well.
pub open spec fn player_name(role: Role, id: usize) -> Seq<char> {
    match role {
        Role::Apostle => "Apostle "@ + decimal(id as nat),
        Role::Jesus => "Jesus"@,
        Role::Judas => "Judas"@,
        Role::Peter => "Peter"@,
        Role::Mary => "Mary"@,
    }
}

/// `i` is the first position of `x` in `s`.
pub open spec fn is_first(s: Seq<Prodigy>, x: Prodigy, i: int) -> bool {
    0 <= i < s.len() && s[i] == x && forall|w: int| 0 <= w < i ==> s[w] != x
}

pub open spec fn first_index(s: Seq<Prodigy>, x: Prodigy) -> int {
    choose|i: int| is_first(s, x, i)
}

/// The position of the prodigy a player gives up: at the last event Judas
/// gives a bane if one is left, and otherwise anyone gives a boon if one is
/// left; in every other case the drawn position.
pub open spec fn consumed_index(role: Role, s: Seq<Prodigy>, event_index: nat, pick: nat) -> int {
    if event_index == EVENTS_PER_GAME - 1 && role == Role::Judas && s.contains(Prodigy::Bane) {
        first_index(s, Prodigy::Bane)
    } else if event_index == EVENTS_PER_GAME - 1 && s.contains(Prodigy::Boon) {
        first_index(s, Prodigy::Boon)
    } else {
        pick as int
    }
}

/// Finds the first position of `x` in `s`, if any.
fn position_of(s: &Vec<Prodigy>, x: Prodigy) -> (r: Option<usize>)
    ensures
        r matches Some(i) ==> i as int == first_index(s@, x) && is_first(s@, x, i as int),
        r is None <==> !s@.contains(x),
{
    let mut t: usize = 0;
    while t < s.len()
        invariant
            t <= s.len(),
            forall|w: int| 0 <= w < t ==> s@[w] != x,
        decreases s.len() - t,
    {
        if s[t] == x {
            assert(is_first(s@, x, t as int));
            assert forall|j: int| is_first(s@, x, j) implies j == t by {
                if j < t {
                } else if j > t {
                    assert(s@[t as int] == x);
                }
            }
            return Some(t);
        }
        t = t + 1;
    }
    None
}

impl Player {
    pub fn new(id: usize, role: Role) -> (r: Self)
        ensures
            r.id == id,
            r.role == role,
            r.prodigies@ == prodigies_of(role),
    {
        let dist = role.initial_prodigies();
        let mut prodigies: Vec<Prodigy> = Vec::new();
        let mut t: usize = 0;
        while t < 5
            invariant
                t <= 5,
                dist@ == prodigies_of(role),
                prodigies@ =~= dist@.take(t as int),
            decreases 5 - t,
        {
            prodigies.push(dist[t]);
            t = t + 1;
        }
        assert(prodigies@ =~= dist@);
        Player { id, role, prodigies }
    }

    pub fn name(&self) -> (r: String)
        ensures
            r@ == player_name(self.role, self.id),
    {
        proof {
            reveal_strlit("Apostle ");
            reveal_strlit("Jesus");
            reveal_strlit("Judas");
            reveal_strlit("Peter");
            reveal_strlit("Mary");
        }
        match self.role {
            Role::Apostle => String::from_str("Apostle ").concat(decimal_text(self.id).as_str()),
            Role::Jesus => String::from_str("Jesus"),
            Role::Judas => String::from_str("Judas"),
            Role::Peter => String::from_str("Peter"),
            Role::Mary => String::from_str("Mary"),
        }
    }

    /// Gives up one prodigy at the event `event_index`; `pick` is the position
    /// drawn at random, used where the rules leave the choice open.
    pub fn consume_prodigy(&mut self, event_index: usize, pick: usize) -> (r: Prodigy)
        requires
            pick < old(self).prodigies.len(),
        ensures
            ({
                let i = consumed_index(old(self).role, old(self).prodigies@, event_index as nat, pick as nat);
                &&& 0 <= i < old(self).prodigies.len()
                &&& r == old(self).prodigies@[i]
                &&& final(self).prodigies@ == old(self).prodigies@.remove(i)
            }),
            final(self).id == old(self).id,
            final(self).role == old(self).role,
    {
        if event_index == EVENTS_PER_GAME - 1 {
            if self.role == Role::Judas {
                if let Some(pos) = position_of(&self.prodigies, Prodigy::Bane) {
                    return self.prodigies.remove(pos);
                }
            }
            if let Some(pos) = position_of(&self.prodigies, Prodigy::Boon) {
                return self.prodigies.remove(pos);
            }
        }
        self.prodigies.remove(pick)
    }
}

/// Deals the roles for `n` players, in seat order.
pub fn get_roles(n: usize) -> (r: Vec<Role>)
    requires
        4 <= n <= 10,
    ensures
        r@ == roles_for(n as nat),
{
    let mut roles = if n <= 6 {
        vec![Role::Jesus, Role::Judas, Role::Peter]
    } else {
        vec![Role::Jesus, Role::Judas, Role::Peter, Role::Mary]
    };
    let ghost head = roles@;
    let fixed = roles.len();
    let mut t: usize = fixed;
    while t < n
        invariant
            fixed <= t <= n,
            roles@ =~= head + Seq::new((t - fixed) as nat, |i: int| Role::Apostle),
        decreases n - t,
    {
        roles.push(Role::Apostle);
        t = t + 1;
    }
    assert(roles@ =~= roles_for(n as nat));
    roles
}

/// Seats `n` players with their roles and prodigies.
pub fn get_players(n: usize) -> (r: Vec<Player>)
    requires
        4 <= n <= 10,
    ensures
        r.len() == n,
        forall|i: int| #![trigger r@[i]] 0 <= i < n ==> {
            &&& r@[i].id == i
            &&& r@[i].role == roles_for(n as nat)[i]
            &&& r@[i].prodigies@ == prodigies_of(r@[i].role)
        },
{
    let roles = get_roles(n);
    let mut players: Vec<Player> = Vec::new();
    let mut i: usize = 0;
    while i < n
        invariant
            i <= n,
            roles@ == roles_for(n as nat),
            roles.len() == n,
            players.len() == i,
            forall|k: int| #![trigger players@[k]] 0 <= k < i ==> {
                &&& players@[k].id == k
                &&& players@[k].role == roles_for(n as nat)[k]
                &&& players@[k].prodigies@ == prodigies_of(players@[k].role)
            },
        decreases n - i,
    {
        players.push(Player::new(i, roles[i]));
        i = i + 1;
    }
    players
}

/// The events that may occur before the last one, in their fixed order.
pub open spec fn all_events() -> Seq<Event> {
    seq![
        Event::FishCatch,
        Event::Transfiguration,
        Event::ResurrectionOfLazarus,
        Event::HealingOfTheBlind,
        Event::WalkingOnWater,
        Event::SermonOnTheMount,
        Event::WeddingAtCana,
        Event::PalmSunday,
        Event::CleansingOfTheTemple,
    ]
}

/// The events that a game of `n` players admits, in their fixed order.
pub open spec fn eligible_for(n: nat) -> Seq<Event> {
    all_events().filter(|e: Event| min_players_of(e) <= n)
}

/// The events that a game of `n` players admits before the last one.
pub fn eligible_events(n: usize) -> (r: Vec<Event>)
    ensures
        r@ == eligible_for(n as nat),
        r@.no_duplicates(),
        forall|k: int| 0 <= k < r.len() ==> !(#[trigger] r@[k] is LastSupper),
{
    let all = vec![
        Event::FishCatch,
        Event::Transfiguration,
        Event::ResurrectionOfLazarus,
        Event::HealingOfTheBlind,
        Event::WalkingOnWater,
        Event::SermonOnTheMount,
        Event::WeddingAtCana,
        Event::PalmSunday,
        Event::CleansingOfTheTemple,
    ];
    assert(all@ =~= all_events());
    let mut r: Vec<Event> = Vec::new();
    let mut t: usize = 0;
    while t < all.len()
        invariant
            t <= all.len(),
            all@ == all_events(),
            r@ == all@.take(t as int).filter(|e: Event| min_players_of(e) <= n as nat),
            r@.no_duplicates(),
            forall|k: int| 0 <= k < r.len() ==> exists|u: int| 0 <= u < t && #[trigger] r@[k] == all@[u],
        decreases all.len() - t,
    {
        let e = all[t];
        assert(all@.take(t as int + 1).drop_last() =~= all@.take(t as int));
        reveal(Seq::filter);
        if e.min_players() <= n {
            proof {
                assert forall|k: int| 0 <= k < r.len() implies #[trigger] r@[k] != e by {
                    let u = choose|u: int| 0 <= u < t && r@[k] == all@[u];
                }
            }
            let ghost before = r@;
            r.push(e);
            proof {
                assert forall|k: int| 0 <= k < r.len() implies exists|u: int| 0 <= u < t + 1 && #[trigger] r@[k] == all@[u] by {
                    if k < before.len() {
                        assert(r@[k] == before[k]);
                    } else {
                        assert(r@[k] == all@[t as int]);
                    }
                }
            }
        }
        t = t + 1;
    }
    assert(all@.take(t as int) =~= all@);
    assert forall|k: int| 0 <= k < r.len() implies !(#[trigger] r@[k] is LastSupper) by {
        let u = choose|u: int| 0 <= u < t && r@[k] == all@[u];
    }
    r
}

/// The events of a game of `n` players: those of `eligible_events(n)` at the
/// positions `chosen` (drawn at random, in play order), then the last supper.
pub fn get_events(chosen: &[usize], n: usize) -> (r: Vec<Event>)
    requires
        chosen.len() == EVENTS_PER_GAME - 1,
        chosen@.no_duplicates(),
        forall|k: int| 0 <= k < chosen.len() ==> #[trigger] chosen[k] < eligible_for(n as nat).len(),
    ensures
        r.len() == EVENTS_PER_GAME,
        forall|k: int| 0 <= k < EVENTS_PER_GAME - 1 ==> #[trigger] r@[k] == eligible_for(n as nat)[chosen[k] as int],
        r@[EVENTS_PER_GAME - 1] == Event::LastSupper(n),
        r@.no_duplicates(),
{
    let eligible = eligible_events(n);
    let mut r: Vec<Event> = Vec::new();
    let mut k: usize = 0;
    while k < chosen.len()
        invariant
            k <= chosen.len(),
            chosen.len() == EVENTS_PER_GAME - 1,
            eligible@ == eligible_for(n as nat),
            forall|j: int| 0 <= j < chosen.len() ==> #[trigger] chosen[j] < eligible_for(n as nat).len(),
            r.len() == k,
            forall|j: int| 0 <= j < k ==> #[trigger] r@[j] == eligible_for(n as nat)[chosen[j] as int],
        decreases chosen.len() - k,
    {
        r.push(eligible[chosen[k]]);
        k = k + 1;
    }
    r.push(Event::LastSupper(n));
    assert forall|a: int, b: int| 0 <= a < r.len() && 0 <= b < r.len() && a != b implies r@[a] != r@[b] by {
        if a < 4 && b < 4 {
            assert(chosen@[a] != chosen@[b]);
            assert(eligible@[chosen@[a] as int] != eligible@[chosen@[b] as int]);
        } else if a < 4 {
            assert(!(eligible@[chosen@[a] as int] is LastSupper));
        } else {
            assert(!(eligible@[chosen@[b] as int] is LastSupper));
        }
    }
    r
}

} // verus!
