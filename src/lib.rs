//! A deck of prompt cards: field validation, card assembly, and the
//! persisted form of the whole deck.

pub mod builder;
pub mod card;
pub mod codec;
pub mod deck;
pub mod fields;
pub mod text;
