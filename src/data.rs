//! The data the tool reads and writes: template configurations, versions
//! and identifier casing.
pub mod backups;
pub mod cases;
pub mod config;
pub mod templates;
pub mod vars;
pub mod version;

pub use backups::{Backups, RegistryError};
pub use cases::{convert_case, get_words, to_case, Cases};
pub use config::{Config, ConfigError, VariableMap};
pub use templates::Templates;
pub use vars::{ConfigArgs, DateStamp, VarCounter};
pub use version::{ParseVersionError, Version};
