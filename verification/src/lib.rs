//! Kernels over sorted columns: a streaming quantile sketch and merges that keep order.
pub mod total_ord;
pub mod merge;
pub mod merge_laws;
pub mod capacity;
pub mod kll_model;
pub mod kll_laws;
pub mod kll;
pub mod heap;
pub mod cells;
pub mod merge_many;
pub mod merge_many_laws;
pub mod frame;
pub mod gather;
pub mod physical;
pub mod indicator;
pub mod keys;
pub mod merge_frames;
pub mod shape;
pub mod merge_many_frames;
pub mod frame_laws;
pub mod pairwise_laws;
pub mod same_frames;
pub mod order_laws;
pub mod value_laws;
pub mod reading_laws;
pub mod sketch_laws;
pub mod column_laws;
pub mod key_laws;
pub mod result_laws;
pub mod ascending_laws;
