pub mod client;
pub mod db;
pub mod providers;
pub mod rencode;
pub mod requests;
pub mod resources;
pub mod text;
pub mod tvmaze;

pub use rencode::{Float, Int, Object};
