//! What the operations are for, stated of what goes into them and what comes out.

pub mod adding;
pub mod declaring;
pub mod describing;
pub mod editing;
pub mod faithful;
pub mod fetching;
pub mod importing;
pub mod keeping;
pub mod linking;
pub mod locating;
pub mod nesting;
pub mod paths;
pub mod pinning;
pub mod surroundings;
pub mod telling;
pub mod transporting;
pub mod viewing;
pub mod walking;
