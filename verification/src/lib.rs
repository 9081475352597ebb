//! A constraint-driven Penrose rhombus tiling engine.
//!
//! The library builds a planar tiling out of the two Penrose prototiles
//! (the "fat" and the "skinny" rhombus) one tile at a time.  Every shared
//! edge between adjacent tiles is geometrically exact and obeys the fixed
//! edge-matching rules of the P3 Penrose tile set.
//!
//! All geometry is carried out in exact integer arithmetic: a point of the
//! plane is an element of the ring of integers of the 20th cyclotomic field,
//! written in the basis 1, z, ..., z^7 where z = e^(i*pi/10).  A rotation by
//! a multiple of 18 degrees is multiplication by a power of z, which is an
//! exact linear map on the eight integer coordinates, so two placement chains
//! that reach the same physical edge produce bit-identical coordinates and
//! edge identity is decided by exact comparison.

pub mod ring;
pub mod sign;
pub mod prototile;
pub mod xform;
pub mod collision;
pub mod edge;
pub mod model;
pub mod engine;
pub mod codec;
