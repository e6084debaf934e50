//! Verified core of a virtual tabletop: map zone ordering and hierarchy,
//! signed-distance object layout, and the networking decisions of the
//! client and the server.

pub mod zone_ordering;
pub mod zone_hierarchy;
pub mod object_zones;
pub mod sdf_tree;
pub mod decimal;
pub mod communication;
pub mod connection;
pub mod hello;
pub mod map_zones;
pub mod camera_controls;
pub mod active_zones;
