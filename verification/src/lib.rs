pub mod condition;
pub mod config;
pub mod declarative;
pub mod digest;
pub mod info;
pub mod installer;
pub mod order;
pub mod str_map;
pub mod text;
pub mod version;

pub use config::ModuleConfig;
pub use declarative::{
    DeclarativeConfig, DeclarativeError, SelectionDiff, SelectionSummary, SCHEMA_VERSION,
};
pub use digest::hash_xml;
pub use info::FomodInfo;
pub use installer::{FileOperation, InstallPlan, Installer, SelectionError};
pub use str_map::StrMap;
