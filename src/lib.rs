//! A small static-page generator: each template fragment is split into a
//! title line and a body, both are substituted into a shared layout, and a
//! generation pass writes one page per fragment.
pub mod engine;
pub mod pass;
pub mod render;
pub mod text;
