//! The tags of the format: `[label: text]` and `[mm:ss.xx]`.
pub mod id_tag;
pub mod time_tag;
