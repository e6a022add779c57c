//! Extract a price amount and currency symbol from a raw text string.

pub mod classes;
pub mod number;
pub mod currencies;
pub mod strip;
pub mod text;
pub mod alternation;
pub mod order;
pub mod symbols;
pub mod price;

pub use price::Price;
