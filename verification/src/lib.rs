pub mod annot;
pub mod blocks;
pub mod coverage;
pub mod extract;
pub mod figure;
pub mod hull;
pub mod order;
pub mod runs;
pub mod summary;
pub mod text;
pub mod utils;
