//! Verified game engines and board primitives.
pub mod adjacency;
pub mod bank;
pub mod bitboard;
pub mod board;
pub mod catan_common;
pub mod catan_state;
pub mod chance;
pub mod common;
pub mod dots_and_boxes;
pub mod ml;
pub mod odds_game;
pub mod pig;
pub mod road_trails;
pub mod tic_tac_toe;
pub mod tournament;
pub mod traffic_light;
pub mod value_game;
