//! Project-specific data: the command registry and the preauth HTTP routes.

pub mod command_registry;
pub mod preauth_config;
