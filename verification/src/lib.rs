//! A meal-planning core library.
//!
//! The crate models and verifies the decision logic of a small meal-planning
//! assistant: parsing textual ingredient quantities (decimals, vulgar-fraction
//! glyphs and mixed numbers) into exact rational amounts, consolidating the
//! ingredients of many recipes into one shopping list, rendering that list as
//! text, ranking candidate recipes by accumulated tag preferences, and the
//! two-phase gather/review workflow over a persistent store. All I/O (the
//! remote recipe catalog, the terminal, the database file) lives outside this
//! crate and hands plain values in and out.

pub mod catalog;
pub mod list;
pub mod quantity;
pub mod scoring;
pub mod store;
pub mod workflow;
