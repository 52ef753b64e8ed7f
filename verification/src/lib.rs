//! Attribute-keyed storage for metric measurements.

pub mod aggregator;
pub mod attribute_laws;
pub mod canonical;
pub mod collect;
pub mod collection_laws;
pub mod encoding;
pub mod encoding_laws;
pub mod hashed_attributes;
pub mod histogram;
pub mod history_laws;
pub mod key_value;
pub mod laws;
pub mod listing;
pub mod map_view;
pub mod number;
pub mod number_laws;
pub mod operation_laws;
pub mod shard;
pub mod sharded_laws;
pub mod sharded_map;
pub mod storage_laws;
pub mod tracker_pool;
pub mod value_map;
