//! Fog-of-war visibility engine for tabletop maps.
//!
//! The map is split into square grid cells; each cell is either fully hidden,
//! fully shown, or holds a quadtree that records, at pixel granularity, which
//! parts of the cell are hidden. The counter of hidden rectangles is kept equal
//! to the number of rectangles that [`fog_of_war::FogOfWar::get_rectangles`]
//! reports.
//!
//! Polygon geometry stays with the caller: an update takes a `measure` that
//! reports, for a rectangle, how much of it the line-of-sight polygon covers,
//! and the choice among ray/wall intersections takes their distance keys.

pub mod errors;
pub mod fog_of_war;
pub mod fowrectangle;
pub mod helper;
pub mod planar;
pub mod quadtreenode;
pub mod vtt;
pub mod walls;
