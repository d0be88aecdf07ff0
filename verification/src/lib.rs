pub mod cards;
pub mod parse;
pub mod table;

pub use cards::Card;
pub use cards::CardNum;
pub use cards::Deck;
pub use cards::Suit;
pub use parse::parse_move;
pub use parse::CustomError;
pub use parse::CustomErrorKind;
pub use parse::ParsedMove;
pub use parse::ParsingError;
pub use table::legality_check;
pub use table::AcePile;
pub use table::GamePile;
pub use table::GamePileMovingError;
pub use table::IllegalAcePileAdd;
pub use table::IllegalGamePileAdd;
pub use table::MoveMakingError;
pub use table::MoveOutcome;
pub use table::Table;
