//! Per-user access rights over named file-system roots.
//!
//! Each named root is declared by a path pattern, whose segments may list
//! alternatives (`/docs/?en|fr?/public`), and a base permission. The pattern
//! is expanded into a tree of path segments (`builder`); a user's grants on
//! roots are merged into one tree per user (`merge`, `config`); and a request
//! for a path is decided by walking that tree (`resolve`). The laws that
//! hold between these operations are proved in `laws`.

pub mod access;
pub mod auth;
pub mod bits;
pub mod builder;
pub mod config;
pub mod error;
pub mod laws;
pub mod merge;
pub mod order;
pub mod pattern;
pub mod resolve;
pub mod segments;
pub mod session;
pub mod tree;
