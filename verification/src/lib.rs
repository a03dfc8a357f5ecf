//! A verified guard-patrol simulator over a bounded rectangular grid.
//!
//! The library owns a static map (dimensions plus a sparse obstruction set),
//! walks a directed guard one step at a time until it leaves the bounded
//! area, and decides for each newly discovered cell whether placing one
//! extra obstruction there would make the patrol run forever.

pub mod detector;
pub mod geom;
pub mod grid;
pub mod march;
pub mod model;
pub mod parse;
pub mod patrol;
pub mod search;
