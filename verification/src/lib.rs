//! A topic-based publish/subscribe message broker core.
//!
//! Clients speak a length-prefixed binary protocol over a stream transport:
//! they subscribe to byte-string topics, publish notifications tagged with a
//! topic, and the broker fans each notification out to every connection
//! currently interested in that topic.  The broker is sharded across worker
//! event loops; subscription changes are re-broadcast to sibling workers so
//! that any worker can resolve any subscriber.
//!
//! This crate holds the verified core: the wire codec, the framed reader
//! state machine, the slice-keyed hash maps that index subscribers, the
//! subscription state, and the dispatch interpreter.  Socket and channel
//! plumbing lives outside the library.

pub mod bucket;
pub mod concurrent_hash_map;
pub mod frame_reader;
pub mod protocol;
pub mod rpc;
pub mod slice_map;
pub mod subscription;
