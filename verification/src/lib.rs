//! A directory bookmark store: short names mapped to filesystem paths,
//! persisted as a JSON object in a file in the user's home directory.

mod codec;
mod commands;
mod config;

pub use codec::from_json;
pub use codec::to_json;
pub use commands::AddOutcome;
pub use commands::JumpOutcome;
pub use commands::ListOutcome;
pub use commands::RemoveOutcome;
pub use commands::command_add;
pub use commands::command_list;
pub use commands::command_remove;
pub use commands::jump_lookup;
pub use config::Config;
pub use config::ConfigError;
pub use config::CONFIG_FILE_NAME;
pub use config::join_config_name;
pub use config::path_to_file;
