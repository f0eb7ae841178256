//! Verified core of a monorepo server for a content-addressed version control
//! protocol: object identifiers and codecs (trees, signatures, commits), the
//! pack codec with its delta scripts, reachability for fetches, subpath
//! reference resolution, and the merge-request decisions taken on a push.

pub mod codec;
pub mod commit;
pub mod delta;
pub mod errors;
pub mod graph;
pub mod hash;
pub mod mr;
pub mod object;
pub mod pack;
pub mod refs;
pub mod signature;
pub mod tree;
mod text;
