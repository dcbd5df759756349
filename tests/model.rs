use secret_jesus_solver::{
    eligible_events, get_events, get_players, get_roles, Event, Player, Prodigy, Role, EVENTS_PER_GAME,
};

#[test]
fn roles_for_small_and_large_tables() {
    assert_eq!(get_roles(4), vec![Role::Jesus, Role::Judas, Role::Peter, Role::Apostle]);
    assert_eq!(
        get_roles(6),
        vec![Role::Jesus, Role::Judas, Role::Peter, Role::Apostle, Role::Apostle, Role::Apostle]
    );
    let seven = get_roles(7);
    assert_eq!(seven.len(), 7);
    assert_eq!(seven[3], Role::Mary);
    assert_eq!(seven.iter().filter(|r| **r == Role::Apostle).count(), 3);
    assert_eq!(get_roles(10).iter().filter(|r| **r == Role::Apostle).count(), 6);
}

#[test]
fn role_distributions() {
    assert_eq!(Role::Jesus.initial_prodigies(), [Prodigy::Boon; 5]);
    assert_eq!(
        Role::Judas.initial_prodigies(),
        [Prodigy::Bane, Prodigy::Bane, Prodigy::Bane, Prodigy::Null, Prodigy::Boon]
    );
    assert_eq!(
        Role::Apostle.initial_prodigies(),
        [Prodigy::Null, Prodigy::Null, Prodigy::Null, Prodigy::Null, Prodigy::Boon]
    );
    assert_eq!(
        Role::Mary.initial_prodigies(),
        [Prodigy::Null, Prodigy::Null, Prodigy::Null, Prodigy::Boon, Prodigy::Boon]
    );
}

#[test]
fn prodigy_values() {
    assert_eq!(Prodigy::Bane.value(), -1);
    assert_eq!(Prodigy::Null.value(), 0);
    assert_eq!(Prodigy::Boon.value(), 1);
}

#[test]
fn player_names() {
    assert_eq!(Player::new(0, Role::Jesus).name(), "Jesus");
    assert_eq!(Player::new(1, Role::Judas).name(), "Judas");
    assert_eq!(Player::new(3, Role::Apostle).name(), "Apostle 3");
    assert_eq!(Player::new(12, Role::Apostle).name(), "Apostle 12");
}

#[test]
fn players_are_seated_with_their_roles() {
    let ps = get_players(5);
    assert_eq!(ps.len(), 5);
    for (i, p) in ps.iter().enumerate() {
        assert_eq!(p.id, i);
        assert_eq!(p.prodigies, p.role.initial_prodigies().to_vec());
    }
    assert_eq!(ps[0].role, Role::Jesus);
    assert_eq!(ps[4].role, Role::Apostle);
}

#[test]
fn judas_gives_a_bane_at_the_last_event() {
    let mut p = Player::new(1, Role::Judas);
    let got = p.consume_prodigy(EVENTS_PER_GAME - 1, 4);
    assert_eq!(got, Prodigy::Bane);
    assert_eq!(p.prodigies, vec![Prodigy::Bane, Prodigy::Bane, Prodigy::Null, Prodigy::Boon]);
}

#[test]
fn others_give_a_boon_at_the_last_event() {
    let mut p = Player::new(2, Role::Peter);
    assert_eq!(p.consume_prodigy(EVENTS_PER_GAME - 1, 0), Prodigy::Boon);
    assert_eq!(p.prodigies, vec![Prodigy::Bane, Prodigy::Null, Prodigy::Null, Prodigy::Null]);
    // Without a boon left, the drawn position decides.
    assert_eq!(p.consume_prodigy(EVENTS_PER_GAME - 1, 1), Prodigy::Null);
    assert_eq!(p.prodigies.len(), 3);
}

#[test]
fn before_the_last_event_the_draw_decides() {
    let mut p = Player::new(1, Role::Judas);
    assert_eq!(p.consume_prodigy(0, 3), Prodigy::Null);
    assert_eq!(p.prodigies, vec![Prodigy::Bane, Prodigy::Bane, Prodigy::Bane, Prodigy::Boon]);
}

#[test]
fn event_tables() {
    assert_eq!(Event::FishCatch.participation(), 2);
    assert_eq!(Event::CleansingOfTheTemple.participation(), 6);
    assert_eq!(Event::LastSupper(7).participation(), 7);
    assert_eq!(Event::SermonOnTheMount.difficulty(), 2);
    assert_eq!(Event::LastSupper(7).difficulty(), 3);
    assert_eq!(Event::PalmSunday.min_players(), 8);
    assert_eq!(Event::LastSupper(9).min_players(), 4);
    assert_eq!(Event::HealingOfTheBlind.name(), "Healing of the Blind");
    assert_eq!(Event::LastSupper(4).name(), "The Last Supper");
}

#[test]
fn eligible_events_grow_with_players() {
    assert_eq!(eligible_events(4).len(), 4);
    assert_eq!(eligible_events(6).len(), 6);
    assert_eq!(eligible_events(10).len(), 9);
    assert_eq!(eligible_events(5)[4], Event::WalkingOnWater);
}

#[test]
fn events_follow_the_chosen_positions() {
    let evs = get_events(&[3, 0, 2, 1], 4);
    assert_eq!(
        evs,
        vec![
            Event::HealingOfTheBlind,
            Event::FishCatch,
            Event::ResurrectionOfLazarus,
            Event::Transfiguration,
            Event::LastSupper(4)
        ]
    );
}
