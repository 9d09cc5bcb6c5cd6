//! Rat Run core library: the integer logic of a terminal horde-survivor game,
//! with its contracts and laws checked by Verus.

pub mod capped;
pub mod chance;
pub mod collision;
pub mod enemy;
pub mod framebuffer;
pub mod gem;
pub mod input;
pub mod layout;
pub mod level;
pub mod loadout;
pub mod lore;
pub mod music;
pub mod nav;
pub mod palette;
pub mod player;
pub mod props;
pub mod scores;
pub mod screen;
pub mod titleart;
pub mod weapon;
