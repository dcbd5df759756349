pub mod cnf;
pub mod event;
pub mod finder;
pub mod sat;
pub mod witness;
pub mod secret_jesus;

pub use event::Event;
pub use finder::{projection_of, JesusFinder, SolveError};
pub use secret_jesus::{Prodigy, Role, Player, EVENTS_PER_GAME, get_roles, get_players, get_events, eligible_events};
