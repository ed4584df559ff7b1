pub mod bindings;
pub mod io;
pub mod jobs;
pub mod model;
pub mod session;
pub mod utils;
