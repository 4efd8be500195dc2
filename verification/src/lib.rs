//! A sequence container built from doubly-linked nodes kept in an arena of
//! stable slots, together with a few classic sorting and Fibonacci routines.

pub mod linked_list;
pub mod sorting;
