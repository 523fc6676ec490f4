//! Five small in-memory containers with machine-checked contracts:
//! a LIFO stack, a FIFO queue, a singly linked list with a sentinel head,
//! a binary search tree and a directed graph with named nodes.

pub mod stack;
pub mod queue;
pub mod graph;
pub mod linked_list;
pub mod binary_tree;
