pub mod api;
pub mod resources;
