//! Franco-Arabic (Arabizi) to Arabic script transliteration.

pub mod text;
pub mod mappings;
pub mod assoc;
pub mod dictionary;
pub mod phrase;
pub mod single;
pub mod engine;
pub mod user_prefs;
pub mod frequency;
pub mod tashkeela;
pub mod ranking;
pub mod desktop;
