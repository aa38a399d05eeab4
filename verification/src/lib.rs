//! Discovery of the OpenCode provider keys: which providers are configured,
//! which have credentials, and which the models cache knows as built in.
//!
//! The library works on plain values: the keys read from the configuration,
//! from the credential store and from the models cache. Reading the files is
//! left to the caller.

pub mod key_order;
pub mod discovery;
pub mod paths;
pub mod models_cache;

pub use discovery::{discover_opencode_provider_keys, ProviderKeyDiscoveryResult, ProviderKeyInfo};
pub use models_cache::read_opencode_models_cache_provider_keys;
pub use paths::{get_opencode_cache_dir, get_opencode_models_cache_path};
pub mod json_text;
