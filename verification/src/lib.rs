pub mod aggregator;
pub mod arena;
pub mod column;
pub mod entity;
pub mod error;
pub mod function;
pub mod hash_table;
pub mod laws;
pub mod layout;
pub mod method;
pub mod model;
pub mod params;
pub mod short_table;
pub mod table;
