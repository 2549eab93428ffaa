pub mod assoc;
pub mod byte_map;
pub mod global_keyed_map;
pub mod key_time_multi_map;
pub mod keyed_map;
pub mod time_key_map;
pub mod timeline;
