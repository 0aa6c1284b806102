pub mod format;
pub mod functions;
pub mod helpers;
pub mod laws;
pub mod models;
