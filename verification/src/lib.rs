//! Verified core of the rocom desktop pets: pack and asset bookkeeping,
//! manifest face curves and material roles, faces and personas, appearance
//! mutations, silhouettes and canvas sizes, mesh pieces and skeleton order,
//! scripted scenes, control codes and the tray menu.
use vstd::prelude::*;

pub mod text;
pub mod assets;
pub mod pack;
pub mod material;
pub mod config;
pub mod persona;
pub mod glassy;
pub mod act;
pub mod mask;
pub mod target;
pub mod model;
pub mod draws;
pub mod skeleton;
pub mod control;
pub mod tray;
pub mod platform;

verus! {
} // verus!
