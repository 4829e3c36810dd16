pub mod bounds;
pub mod commit;
pub mod file;
pub mod laws;
pub mod model;
