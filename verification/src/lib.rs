//! A restaurant list with price categories and a bounded history of recent
//! picks, from which `roll` draws the next place to eat.

pub mod db;
pub mod error;
pub mod laws;
pub mod model;
pub mod seq_facts;
mod sources;
pub mod text;
