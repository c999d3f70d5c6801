pub mod account_concurrency;
pub mod admission;
pub mod calendar;
pub mod config;
pub mod context_profile;
pub mod cooldown;
pub mod downstream_patch;
pub mod downstream_runtime;
pub mod freekey_sync;
pub mod hedge;
pub mod keyed;
pub mod lease_table;
pub mod cost_scope;
pub mod cost_window;
pub mod log_queries;
pub mod model_access;
pub mod model_catalog;
pub mod model_discovery;
pub mod model_identity;
pub mod model_key_sync;
pub mod model_qualification;
pub mod normalize;
pub mod order;
pub mod patch;
pub mod registry;
pub mod request_window;
pub mod response_history;
pub mod routing_memory;
pub mod runtime;
pub mod slot_wait;
pub mod text;
pub mod text_map;
pub mod upstream_patch;
pub mod upstream_snapshot;
pub mod validate;
