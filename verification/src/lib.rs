pub mod assoc;
pub mod database;
pub mod json;
pub mod text;
