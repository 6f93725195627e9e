pub mod entry_config;
pub mod gen_regex_defs;
pub mod gen_relayer_configs;
pub mod gen_solidity;
pub mod js_caller;
pub mod substr_defs;
pub mod substr_paths;
