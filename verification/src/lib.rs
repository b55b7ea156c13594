//! Writing of git packs, with the rules that keep it within bounds.
//!
//! A pack arrives as a stream of entries. [`index`] turns them into nodes of a delta tree and, once the
//! tree is resolved, into the objects that the index of the pack lists. [`traverse`] decides which bases
//! from outside the pack its deltas need, [`thin`] which of them the pack really lacks. [`complete`]
//! appends these and makes the header and the trailing hash of the pack match. [`bundle`] names the files
//! and decides when they are moved into place. [`searched`], [`completed`] and [`published`] tell what
//! holds of a whole search, a whole completion and a whole publication.
//!
//! [`bounded`], [`commitgraph`], [`limited_file`] and [`mmap`] limit what is read and written. [`temp`]
//! names temporary files, and [`file_time`] holds their time stamps. [`data`] and [`hash`] describe
//! entries and object ids, [`sort`] and [`ref_deltas`] keep records in order.
//!
//! The library does no input or output. What has to be done step by step with files or with an object
//! database is a state machine: its `step` takes in what has happened and says what is to be done next.
pub mod bounded;
pub mod bundle;
pub mod commitgraph;
pub mod complete;
pub mod completed;
pub mod data;
pub mod file_time;
pub mod hash;
pub mod index;
pub mod limited_file;
pub mod mmap;
pub mod published;
pub mod ref_deltas;
pub mod searched;
pub mod sort;
pub mod temp;
pub mod thin;
pub mod traverse;
