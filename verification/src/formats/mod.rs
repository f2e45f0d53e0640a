//! The `.rzx` archive container and path helpers for building one.
pub mod find_common_ancestor;
pub mod rzx;
