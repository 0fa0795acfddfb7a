//! The interactive browser of the dictionary index: the category tree, the rows it
//! shows, and what each key press does.
pub mod tree;
pub mod rows;
pub mod view;
pub mod select;
