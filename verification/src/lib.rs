//! Linked lists whose nodes live in an arena: a singly-linked list, and a
//! doubly-linked list with a cursor that steps in both directions.

pub mod arena;
pub mod double_link_list;
pub mod model;
pub mod single_link_list;
