//! Decoding of bencode documents into span-annotated value trees, and the
//! torrent-metadata and tracker-response readers built on top of it.

pub mod bencode;
pub mod text;
pub mod framing;
pub mod fields;
pub mod render;
pub mod torrent_file;
pub mod tracker;
