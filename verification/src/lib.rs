pub mod anchor;
pub mod post;
pub mod store;
pub mod index;
pub mod query;
pub mod laws;
