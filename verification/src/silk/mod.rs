//! SILK helpers.

pub mod flp;
