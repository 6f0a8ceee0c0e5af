//! Keeps a reverse proxy's routing configuration in step with the containers
//! that a container runtime reports.

pub mod text;
pub mod settings;
pub mod service;
pub mod reconcile;
pub mod state_store;
pub mod docker;
pub mod sync;
pub mod nginx;
pub mod worker;
pub mod template;
pub mod upstream;
