//! Model families.

pub mod lfm2_vl;
