//! An IPv4 geolocation engine: CIDR blocks from two datasets (a coarse
//! operator map and a fine city map) are folded into disjoint, label-merged
//! interval maps, which a cross-reference walk reconciles into contiguous
//! output rows.

pub mod builder;
pub mod codec;
pub mod cross_ref;
pub mod interval_map;

pub use builder::CIDRGroup;
pub use codec::cidr_depacker;
pub use codec::format_ipv4;
pub use codec::CidrError;
pub use cross_ref::generate_csv;
pub use interval_map::CIDRMap;
pub use interval_map::IPv4QueryResult;
