//! Shadow casting over polygon maps: the map file format, the point tables
//! handed to the caster, the caster's state, and the tessellation of the
//! visible area.
pub mod caster;
pub mod config;
pub mod map_format;
pub mod point_info;
pub mod segments;
pub mod tessellation;
