//! Finds every dictionary word that a simple path of adjacent cells spells in
//! a letter grid. The dictionary is a radix trie over lowercase bytes; the
//! search walks the trie once and keeps, for the prefix under exploration,
//! every live grid path in a parent-linked log.

use vstd::prelude::*;

pub mod climb;
pub mod frontier;
pub mod geometry;
pub mod grid;
pub mod order;
pub mod scan;
pub mod search;
pub mod trie;

pub use climb::{climb_step, grid_nbs, score, Climb};
pub use geometry::{all_cells, neighbours};
pub use grid::Grid;
pub use grid::random_grid;
pub use scan::eval_word_list;
pub use search::eval_grid;
pub use trie::{build_trie, InvalidWord, Trie};
