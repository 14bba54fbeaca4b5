//! A robot that cleans a walled 20 by 20 field: the model of the field and
//! the robot, the command language and its text, the simulation of command
//! lists, the breadth-first searches over places and headings, and the
//! search for a short command text that makes the robot stand on every cell.

pub mod command;
pub mod compress;
pub mod field;
pub mod geometry;
pub mod search;
pub mod solve;
pub mod state;
pub mod table;
