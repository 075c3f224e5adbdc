pub mod inner;
pub mod order;
pub mod tree;
pub mod coloring;
pub mod immutable;
pub mod fixup;
pub mod active;
