//! Turns a small line-oriented diagram language into a laid-out text
//! drawing of boxes and arrows.
pub mod text;
pub mod node;
pub mod parse;
pub mod gsmap;

pub use node::{ADirect, AEdge, ANode, ASharp, RBox};
pub use parse::{get_arrow, parse_edge, parse_node};
pub use gsmap::{render_diagram, GBoard, GSMap};
pub use text::cn_length;
