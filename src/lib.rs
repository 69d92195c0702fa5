pub mod model;
pub mod variance;
pub mod program;
pub mod region;
pub mod dropck;
pub mod evaluator;
pub mod codec;
pub mod unmarked;
pub mod dangle_marked;
pub mod split_lifetimes;
