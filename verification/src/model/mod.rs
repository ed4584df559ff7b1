pub mod calendar;
pub mod decimal;
pub mod error;
pub mod schema;
pub mod style;
pub mod table;
pub mod value;
