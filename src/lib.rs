//! Bulls and Cows: a secret of four distinct decimal digits, guesses checked
//! for shape, and each guess scored by the digits it places right (bulls) and
//! the digits it holds in the wrong place (cows).

pub mod digits;
pub mod score;
pub mod secret;
pub mod session;
pub mod validate;

pub use score::get_bulls_and_cows;
pub use secret::ChosenSecret;
pub use session::{strip_line_end, take_turn, TurnReport};
pub use validate::{validate_input, ValidationError};
