//! A miniature UNIX-style filesystem kept inside a single fixed-size image:
//! a superblock, two bitmap regions, an inode region with direct/indirect
//! block indexing, and a data region, together with a directory service,
//! a path resolver and an open-handle manager.

pub mod data;
pub mod dir;
pub mod grow;
pub mod bitmap;
pub mod image;
pub mod inode;
pub mod path;
pub mod repr;
pub mod rw;
pub mod utils;
pub mod vsfs;
pub mod vsfs_vfs;
pub mod shrink;
