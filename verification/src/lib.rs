//! Exact poker hand equity. A card-set is a 52-bit field, one bit per card;
//! the classifier maps a five-to-seven-card set straight to a totally
//! ordered hand ranking without building sub-combinations; the enumerator
//! produces every board completion of the undealt cards; and the predictor
//! drives the classifier over every board and tallies, for each player, the
//! boards won outright.

pub mod analyser;
pub mod bits;
pub mod deck;
pub mod hand;
pub mod predictor;

pub use bits::Deck;
pub use hand::Hand;
