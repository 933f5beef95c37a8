//! Lock-free container designs — a pointer-tagging primitive, a hazard-pointer
//! reclamation manager, a hash trie map and a k-relaxed segmented FIFO queue —
//! restated over owned data so that every operation carries a proved contract.
//!
//! The tagging substrate works on machine words whose two low bits are status
//! flags; the containers are modelled with owned nodes in place of shared
//! atomics, so each operation's effect on the abstract contents is stated
//! exactly and checked.

pub mod atomic_markable;
pub mod hash_map;
pub mod hazard;
pub mod laws;
pub mod queue;
pub mod seg_queue;
pub mod stack;
