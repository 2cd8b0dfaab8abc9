//! A live dashboard over tailed data sources: parsing of delimited and JSON
//! records, a windowed time-series cache, a shared file-watch registry, and
//! the layers that draw and take the keys.
pub mod order;
pub mod series;
pub mod records;
pub mod registry;
pub mod geometry;
pub mod viewport;
pub mod layers;
pub mod input;
pub mod ui;
pub mod options;
