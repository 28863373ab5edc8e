//! Verified game logic of an online RPG: procedural dungeons, skill
//! formulas, inventory slots and the small grid algorithms the world uses.
use vstd::prelude::*;

pub mod rng;
pub mod weights;
pub mod dungeon;
pub mod floor_cells;
pub mod connectivity;
pub mod dungeon_gen;
pub mod gen_model;
pub mod fishing;
pub mod doors;
pub mod passability;
pub mod text;
pub mod inventory;
mod chance;
pub mod mining;
pub mod fishing_session;
pub mod woodcutting;
pub mod entity;
pub mod housing;
pub mod merchants;
pub mod trading;
pub mod dungeon_runtime;
pub mod pathing;
pub mod rivers;
pub mod csv_text;
pub mod spawn_tables;
pub mod chat;
pub mod grid;
pub mod splat;
pub mod item_defs;
pub mod boats;
pub mod shop_holds;
pub mod descent;

verus! {
} // verus!
