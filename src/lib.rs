//! Conway's Game of Life (rule B3/S23) on an unbounded integer grid, and the
//! timing decisions of a driver that animates it.

use vstd::prelude::*;

pub mod colony;
pub mod driver;
