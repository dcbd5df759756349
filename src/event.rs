use vstd::prelude::*;

verus! {

/// The events of a game. `LastSupper` carries the number of players.
#[derive(Debug, Clone, Copy, PartialEq, Eq, Structural)]
pub enum Event {
    FishCatch,
    Transfiguration,
    ResurrectionOfLazarus,
    HealingOfTheBlind,
    WalkingOnWater,
    SermonOnTheMount,
    WeddingAtCana,
    PalmSunday,
    CleansingOfTheTemple,
    LastSupper(usize),
}

/// How many players take part in `e`.
pub open spec fn participation_of(e: Event) -> nat {
    match e {
        Event::FishCatch => 2,
        Event::Transfiguration => 3,
        Event::ResurrectionOfLazarus => 3,
        Event::HealingOfTheBlind => 3,
        Event::WalkingOnWater => 4,
        Event::SermonOnTheMount => 4,
        Event::WeddingAtCana => 5,
        Event::PalmSunday => 5,
        Event::CleansingOfTheTemple => 6,
        Event::LastSupper(n) => n as nat,
    }
}

/// The total prodigy value `e` asks for.
pub open spec fn difficulty_of(e: Event) -> nat {
    match e {
        Event::FishCatch => 0,
        Event::Transfiguration => 0,
        Event::ResurrectionOfLazarus => 1,
        Event::HealingOfTheBlind => 1,
        Event::WalkingOnWater => 1,
        Event::SermonOnTheMount => 2,
        Event::WeddingAtCana => 2,
        Event::PalmSunday => 3,
        Event::CleansingOfTheTemple => 3,
        Event::LastSupper(n) => (n / 2) as nat,
    }
}

/// The fewest players a game needs for `e` to occur in it.
pub open spec fn min_players_of(e: Event) -> nat {
    match e {
        Event::FishCatch => 4,
        Event::Transfiguration => 4,
        Event::ResurrectionOfLazarus => 4,
        Event::HealingOfTheBlind => 4,
        Event::WalkingOnWater => 5,
        Event::SermonOnTheMount => 6,
        Event::WeddingAtCana => 7,
        Event::PalmSunday => 8,
        Event::CleansingOfTheTemple => 9,
        Event::LastSupper(_) => 4,
    }
}

/// The display name of `e`.
pub open spec fn name_of(e: Event) -> Seq<char> {
    match e {
        Event::FishCatch => "Fish Catch"@,
        Event::Transfiguration => "Transfiguration"@,
        Event::ResurrectionOfLazarus => "Resurrection of Lazarus"@,
        Event::HealingOfTheBlind => "Healing of the Blind"@,
        Event::WalkingOnWater => "Walking on Water"@,
        Event::SermonOnTheMount => "Sermon on the Mount"@,
        Event::WeddingAtCana => "Wedding at Cana"@,
        Event::PalmSunday => "Palm Sunday"@,
        Event::CleansingOfTheTemple => "Cleansing of the Temple"@,
        Event::LastSupper(_) => "The Last Supper"@,
    }
}

impl Event {
    pub fn participation(&self) -> (r: usize)
        ensures
            r as nat == participation_of(*self),
    {
        match self {
            Event::FishCatch => 2,
            Event::Transfiguration => 3,
            Event::ResurrectionOfLazarus => 3,
            Event::HealingOfTheBlind => 3,
            Event::WalkingOnWater => 4,
            Event::SermonOnTheMount => 4,
            Event::WeddingAtCana => 5,
            Event::PalmSunday => 5,
            Event::CleansingOfTheTemple => 6,
            Event::LastSupper(n) => *n,
        }
    }

    pub fn difficulty(&self) -> (r: usize)
        ensures
            r as nat == difficulty_of(*self),
    {
        match self {
            Event::FishCatch => 0,
            Event::Transfiguration => 0,
            Event::ResurrectionOfLazarus => 1,
            Event::HealingOfTheBlind => 1,
            Event::WalkingOnWater => 1,
            Event::SermonOnTheMount => 2,
            Event::WeddingAtCana => 2,
            Event::PalmSunday => 3,
            Event::CleansingOfTheTemple => 3,
            Event::LastSupper(n) => n / 2,
        }
    }

    pub fn min_players(&self) -> (r: usize)
        ensures
            r as nat == min_players_of(*self),
    {
        match self {
            Event::FishCatch => 4,
            Event::Transfiguration => 4,
            Event::ResurrectionOfLazarus => 4,
            Event::HealingOfTheBlind => 4,
            Event::WalkingOnWater => 5,
            Event::SermonOnTheMount => 6,
            Event::WeddingAtCana => 7,
            Event::PalmSunday => 8,
            Event::CleansingOfTheTemple => 9,
            Event::LastSupper(_) => 4,
        }
    }

    pub fn name(&self) -> (r: &'static str)
        ensures
            r@ == name_of(*self),
    {
        match self {
            Event::FishCatch => "Fish Catch",
            Event::Transfiguration => "Transfiguration",
            Event::ResurrectionOfLazarus => "Resurrection of Lazarus",
            Event::HealingOfTheBlind => "Healing of the Blind",
            Event::WalkingOnWater => "Walking on Water",
            Event::SermonOnTheMount => "Sermon on the Mount",
            Event::WeddingAtCana => "Wedding at Cana",
            Event::PalmSunday => "Palm Sunday",
            Event::CleansingOfTheTemple => "Cleansing of the Temple",
            Event::LastSupper(_) => "The Last Supper",
        }
    }
}

} // verus!
