//! An emulator of a calculus of objects.
//!
//! A program is a table of objects. An object is data, or an atom, or a set
//! of attributes that lead to other objects along paths of slots. To dataize
//! the first object is to activate it in a basket and to advance the slots
//! of the baskets, tick by tick, until the first basket holds data.
//!
//! Objects, baskets and programs have a text form; what is written of them
//! reads back as it was.

use vstd::prelude::*;

pub mod atom;
pub mod basket;
pub mod basket_laws;
pub mod bound;
pub mod data;
pub mod emu;
pub mod emu_laws;
pub mod error;
pub mod loc;
pub mod locator;
pub mod locmap;
pub mod machine;
pub mod number;
pub mod object;
pub mod object_laws;
pub mod text;

verus! {

} // verus!
