//! Parallel keyspace-enumeration engine for cryptanalysis of short
//! ciphertexts: cipher abstraction with an ARX reference cipher,
//! worker-sharded enumeration with exact disjoint coverage, a compiled
//! user predicate evaluated on every key, a coordinator state machine,
//! and a length-framed key-dump format.

pub mod alphabet;
pub mod arx;
pub mod arx_enum;
pub mod bigcount;
pub mod cipher;
pub mod compare;
pub mod coordinator;
pub mod csv;
pub mod expr;
pub mod freq;
pub mod keydump;
pub mod keystream;
pub mod messages;
pub mod partition;
pub mod predicate;
pub mod render;
pub mod smallbuf;
pub mod stackvec;
pub mod threading;
pub mod wire;
pub mod worker;
