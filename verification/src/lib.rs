pub mod text;
pub mod venue;
pub mod mapping;
pub mod feed;
pub mod divergence;
pub mod api;
pub mod wallet;
pub mod detection;
