//! Puzzle solvers over plain data, each proved against its contract.
//!
//! The central piece is `disk`, a block-addressed storage compaction
//! engine with two compaction policies and the laws they obey. The other
//! modules each solve one small puzzle: list distances (`lists`), report
//! safety (`reports`), instruction scanning (`memory`), word search
//! (`word_search`), page ordering (`print_queue`), operator equations
//! (`equations`), antenna antinodes (`antennas`), hiking trails (`trails`),
//! splitting stones (`stones`), claw machines (`claw`), wrapping robots
//! (`robots`) and a box-pushing robot (`warehouse`).
pub mod antennas;
pub mod claw;
pub mod disk;
pub mod equations;
pub mod guard;
pub mod lists;
pub mod memory;
pub mod print_queue;
pub mod regions;
pub mod reports;
pub mod robots;
pub mod stones;
pub mod text;
pub mod trails;
pub mod warehouse;
pub mod word_search;
