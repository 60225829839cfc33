pub mod schema;
pub mod table;
