pub mod array_deque;
pub mod averaging_deque;
pub mod bst_map;
pub mod calendar;
pub mod collatz;
pub mod deque;
pub mod game;
pub mod linked_list_deque;
pub mod model;
pub mod render;

pub use array_deque::ArrayDeque;
pub use averaging_deque::{AveragingDeque, Measure};
pub use bst_map::BSTMap;
pub use calendar::is_leap_year;
pub use collatz::next_number;
pub use deque::Deque;
pub use game::{add_tile, game_over, open_positions, tilt, Board, Direction, MovingTile};
pub use linked_list_deque::LinkedListDeque;
