//! Turtle graphics: a small indentation-scoped script language drives a
//! position/heading state machine whose traced path is rasterized into
//! discrete pixel coordinates.

use vstd::prelude::*;

pub mod common;
pub mod geometry;
pub mod graphics;
pub mod math;
pub mod script;
pub mod trig;
pub mod turtle;

pub use common::constrain;
pub use geometry::{Bounds, Line, Point, Rect, Size, Triangle};
pub use graphics::{circle, frame_index};
pub use math::{diagonal_distance, point_is_in_triangle};
pub use script::{count_indentation, ParseError, Script};
pub use turtle::{Command, ExecutionError, Scope, Turtle};
