pub mod kth_smallest;
pub mod linear_search;

pub use kth_smallest::kth_smallest;
pub use linear_search::linear_search;
