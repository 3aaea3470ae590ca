pub mod order;
pub mod tree;
pub mod vcs;
