//! A turn-based territory game engine on a rectangular grid: shapes, cards,
//! action legality, legal-move enumeration, and simultaneous turn resolution.
pub mod action;
pub mod game;
pub mod resolve;
pub mod rules;
pub mod shape;
pub mod text;
pub mod text_protocol;

pub use action::{Action, CardId, Direction, MulliganAction};
pub use game::{Card, ConfigurationError, Environment, Field, FieldId, PlayerState, State};
pub use resolve::InvalidActionError;
pub use rules::get_cursor;
pub use shape::{CardShape, CardSquareType, DecodeError, FieldShape, FieldSquareType, PlayerId};
