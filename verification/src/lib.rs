//! Presents the anime seasons that upstream catalogues list as separate shows as one show.

pub mod combine;
pub mod dates;
pub mod decimal;
pub mod discovery;
pub mod fill;
pub mod json;
pub mod json_text;
pub mod laws;
pub mod models;
pub mod ordering;
pub mod previews;
pub mod queries;
pub mod refs;
pub mod seasons;
pub mod service;
pub mod text;
pub mod titles;
pub mod tokens;
pub mod tvmaze;
pub mod upstream;
