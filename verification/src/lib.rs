pub mod entry_config;
pub mod fancy;
pub mod gen_relayer_configs;
pub mod graph;
pub mod json;
pub mod key_paths;
pub mod text;
pub mod vrm;
