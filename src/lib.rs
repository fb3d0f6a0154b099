//! Content-addressed storage and synchronisation of build-progress reports.
pub mod artifact;
pub mod codec;
pub mod db;
pub mod models;
pub mod params;
pub mod paths;
pub mod queries;
pub mod report;
pub mod store;
pub mod sync;
pub mod text;
