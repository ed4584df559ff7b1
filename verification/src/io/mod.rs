pub mod paths;
pub mod sheet;
