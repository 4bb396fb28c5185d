//! Hard-shadow geometry for point lights and oriented rectangular obstacles
//! inside a bounded rectangular world.
//!
//! All computation happens in a snapped integer coordinate plane: callers
//! multiply world coordinates by a scale factor of their choice and round to
//! the nearest integer before entering the library, and divide on the way
//! out.  Working on integers makes every geometric predicate exact, which is
//! what keeps the boolean region operations robust.

pub mod geom;
pub mod boundary;
pub mod rect;
pub mod region;
pub mod hull;
pub mod shadow;
pub mod aggregate;
