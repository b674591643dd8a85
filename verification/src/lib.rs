//! A synthetic filesystem over a remote learning-management service.
//!
//! The library is the verified core of the driver: the inode arena and its
//! node model, the lazy population of course and discussion content, the
//! dispatch of filesystem requests (lookup, getattr, readdir, open, read,
//! write, mkdir, unlink) against that model, and the interpretation of
//! writes as remote commands.  All remote traffic stays outside: callers
//! perform the network calls and hand the typed results in as plain values,
//! so every decision the driver makes is proved here.

#![allow(non_snake_case)]

pub mod arena;
pub mod fs;
pub mod laws;
pub mod payload;
pub mod populate;
pub mod text;
pub mod types;
pub mod urls;
