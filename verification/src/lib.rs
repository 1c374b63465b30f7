//! Composes conflict-free weekly class schedules: raw meeting records are
//! normalized into week-relative second intervals, indexed per course and
//! role (lecture / lab / discussion / exam), and a backtracking search
//! enumerates every combination of alternatives without time overlap.

pub mod parse;
pub mod solver;
pub mod utils;
