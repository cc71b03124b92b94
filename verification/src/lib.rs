//! Ordered sets kept as search trees, linked lists, and an evaluator of
//! arithmetic expressions, each with its contract.

pub mod avl;
pub mod bst;
pub mod calculator;
pub mod double_linked_list;
pub mod history;
pub mod linked_list;
pub mod order;
pub mod text;
