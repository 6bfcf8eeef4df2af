//! A verified storage stack for reading files from an SD card that carries
//! an MBR partition table and a FAT32 filesystem.
//!
//! The stack has three layers: a block-oriented transport abstraction
//! ([`block_accessor::BlockAccessor`], with the SD card protocol logic in
//! [`sd`]), the MBR partition-table decoder in [`mbr`], and the FAT32
//! traversal engine in [`fat32`] (boot-sector parsing, cluster-chain
//! walking, directory and long-filename decoding, path resolution, and file
//! byte-streaming). [`byte_util`] holds the little-endian decoding and
//! cursor primitives that every parser is built on.

pub mod block_accessor;
pub mod byte_util;
pub mod fat32;
pub mod mbr;
pub mod sd;
