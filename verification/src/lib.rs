//! Offline editor core for Minecraft Anvil worlds: block states, packed
//! section storage, palettes, patterns, masks, region/linear file formats
//! and the session history cursor.

pub mod text;
pub mod blockstate;
pub mod bitstorage;
pub mod indexset;
pub mod palette;
pub mod chunk;
pub mod pattern;
pub mod ops;
pub mod mask;
pub mod mc_version;
pub mod bigendian;
pub mod linear;
pub mod error;
pub mod history;
pub mod region;
pub mod assets;
pub mod build_ops;
pub mod tick;
pub mod models;
pub mod view;
pub mod level;
pub mod session;
pub mod structure;
pub mod schem;
pub mod action;
pub mod preview;
pub mod anvil;
pub mod template;
pub mod style;
pub mod schem_template;
pub mod structure_template;
pub mod commit;
pub mod level_patch;
pub mod world_plan;
pub mod edit_apply;
pub mod entity;
pub mod cli;
pub mod smooth;
pub mod nbt;
pub mod chunk_nbt;
pub mod schem_root;
pub mod world_step;
