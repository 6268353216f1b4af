//! The combat decisions of a Screeps bot.
//!
//! Every decision is a function of plain values: what is known of a room, of its defenders and of the
//! squads at hand. Nothing here reads the game or acts in it. Numbers that a game counts in fractions are
//! counted in whole parts of one ([`fixed`]), so that the same values give the same decision on every
//! machine.
//!
//! - What to fight for: [`war_decision`] finds the enemies near our rooms, [`objective_value`] prices
//!   objectives, [`claim_pacing`] limits how many are taken on, and [`assignment`] gives squads to them.
//! - What to bring: [`force_sizing`] says what a defense takes, [`doctrine`] what an engagement asks for,
//!   [`composition`] which squad that makes, [`bodies`] and [`spawning`] of which creeps, and [`fielding`]
//!   which of them to spawn.
//! - How to fight: [`rally`] gathers a squad, [`lifecycle`] keeps or retires it, [`squad_fsm`] moves its
//!   members from state to state, [`strategy`] chooses the weights they fight by, and [`kernel`] decides
//!   what each does and where it goes.
pub mod assignment;
pub mod battlefield;
pub mod bodies;
pub mod claim_pacing;
pub mod composition;
pub mod constants;
pub mod damage;
pub mod doctrine;
pub mod fielding;
pub mod fixed;
pub mod force_sizing;
pub mod geometry;
pub mod kernel;
pub mod lifecycle;
mod lists;
pub mod objective_value;
pub mod parts;
pub mod rally;
pub mod spawning;
pub mod squad_fsm;
pub mod strategy;
pub mod war_decision;
