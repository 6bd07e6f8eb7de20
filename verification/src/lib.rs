//! Verified core of the message-media and configuration layers of an agent
//! runtime: media claim tickets, the inbound media pipeline, layered TOML
//! configuration files, and the redacting log bridge.

pub mod config_layers;
pub mod config_merge;
pub mod encoding;
pub mod fetch_media;
pub mod json;
pub mod landed_files;
pub mod log_bridge;
pub mod media;
pub mod media_pipeline;
pub mod media_ref;
pub mod text;
pub mod toml_tree;
