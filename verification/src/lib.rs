//! The status line of a coding session: its two lines of text, and the git
//! metadata behind the branch that it shows.
pub mod adler;
pub mod bits;
pub mod block;
pub mod bytes;
pub mod codes;
pub mod fields;
pub mod hex;
pub mod home;
pub mod huffman;
pub mod index;
pub mod inflate;
pub mod json;
pub mod laws;
pub mod limits;
pub mod object;
pub mod pack;
pub mod packed_refs;
pub mod refs;
pub mod roundtrip;
pub mod scan;
pub mod search;
pub mod status;
pub mod tables;
pub mod tags;
pub mod text;
