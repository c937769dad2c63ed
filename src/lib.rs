//! An AVL search tree kept in a node arena, with owning child links and
//! parent back-references expressed as arena indices.
pub mod avl;
pub mod binary;
pub mod key;
pub mod mem_st;
pub mod search;
