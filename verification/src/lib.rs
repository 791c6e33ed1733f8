pub mod algebra;
pub mod compressed_mapping;
pub mod data_structure;
pub mod dp;
pub mod graph;
pub mod math;
pub mod str_algo;
pub mod traits;
pub mod utils;
