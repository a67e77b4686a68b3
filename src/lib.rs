use vstd::prelude::*;

pub mod cache_plan;
pub mod file_group;
pub mod index_filter;
pub mod kv_key;
pub mod lock;
pub mod meta_keys;
pub mod scan_plan;
pub mod schema_source;
pub mod text;
pub mod watch;

verus! {

} // verus!
