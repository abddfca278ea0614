//! freetoken: a verified core for edge-native mixture-of-experts serving.
//!
//! Expert weights live in host memory and the device holds a least-recently
//! used cache of expert slots shared by all layers.

pub mod batch;
pub mod chat;
pub mod config;
pub mod copy_plan;
pub mod copy_plan_laws;
pub mod dispatch;
pub mod dispatch_laws;
pub mod driver;
pub mod expert_bank;
pub mod gguf;
pub mod gguf_laws;
pub mod launch;
pub mod le_bytes;
pub mod load;
pub mod model_laws;
pub mod order;
pub mod par;
pub mod plan;
pub mod profile;
pub mod q4_0;
pub mod q4_0_laws;
pub mod q6k;
pub mod reply;
pub mod rng;
pub mod routing;
pub mod schedule;
pub mod schedule_flow;
pub mod schedule_laws;
pub mod schedule_meaning;
pub mod schedule_modes;
pub mod scheduler;
pub mod slot_cache;
pub mod slot_cache_laws;
pub mod text;
pub mod tokenizer;
pub mod tokenizer_laws;
