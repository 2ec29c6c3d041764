//! Coverage planning for mobile agents that must paint every open cell of a polygonal grid arena.
//!
//! An arena is described by the tour of its boundary, the tours of its obstacles, a start
//! cell and the pickups that lie on it ([`task`]). The description is rasterised into a grid
//! of cells ([`fill`], [`grid`]). Agents ([`bot`]) walk the grid and paint the cells that
//! their arms reach along a clear line of sight ([`plot`]). The engine ([`system`]) lets the
//! agents take turns: an agent follows its order, else walks to a pickup ([`pickups`]), else
//! to the nearest pose from which it can paint ([`search`]), until no cell is left unpainted.
//! The logs of the agents are the solution ([`action`], [`report`]).

pub mod action;
pub mod bot;
pub mod counting;
pub mod fill;
pub mod flags;
pub mod geometry;
pub mod grid;
pub mod pickups;
pub mod plot;
pub mod puzzle;
pub mod report;
pub mod routes;
pub mod search;
pub mod system;
pub mod task;
pub mod text;
