//! A pronunciation dictionary: user-defined substitution rules, width
//! normalisation, symbol transliteration and English word segmentation that
//! together turn chat text into text a speech synthesiser can read.

pub mod dictionary;
pub mod item;
pub mod lexicon;
pub mod matcher;
pub mod pattern;
pub mod rules;
pub mod segment;
pub mod text;
pub mod translit;
pub mod width;
pub mod wordbreak;

pub use dictionary::Dictionary;
pub use item::{DictError, DictItem};
pub use lexicon::Lexicon;
pub use width::to_narrow;
pub use wordbreak::{can_construct, can_construct_inner};
