//! Prints a process's ancestry and its subtree of descendants as an indented
//! tree, over a table of task descriptors.

pub mod task;
pub mod render;
pub mod walk;
pub mod family_tree;
