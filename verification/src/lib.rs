//! An append-only notes log backed by a concurrent Merkle tree.
//!
//! The tree keeps a fixed depth, a root hash, and a bounded change log of
//! the most recent root-path updates. Appends walk the rightmost path; a
//! replace presents a sibling proof that may be stale by up to the change
//! log's capacity and is replayed forward through the logged mutations.
//! A derived authority gates every mutation, and each appended note is
//! published to an event log for off-chain indexing.
mod hash;
mod merkle;
mod tree;
mod notes;
mod laws;
mod record;

pub use hash::keccak_of;
pub use hash::node_hash;
pub use hash::keccak256;
pub use hash::hash_leaf;
pub use hash::hash_nodes;
pub use hash::hash_eq;
pub use merkle::empty_leaf;
pub use merkle::empty_node;
pub use merkle::subtree_root;
pub use merkle::root_of;
pub use merkle::all_empty;
pub use merkle::sibling_pos;
pub use merkle::sibling_node;
pub use merkle::is_sibling_path;
pub use merkle::fold_to;
pub use merkle::crit_level;
pub use merkle::deep;
pub use tree::ChangeLogEntry;
pub use tree::Tree;
pub use tree::TreeError;
pub use notes::NoteAccounts;
pub use notes::NoteLog;
pub use notes::authority_seed;
pub use notes::authority_of;
pub use notes::proof_value_of;
pub use notes::derive_authority;
pub use notes::create_note_tree;
pub use tree::MAX_DEPTH;
pub use tree::MAX_BUFFER_SIZE;
pub use tree::touched_after;
pub use tree::forward_path;
pub use tree::pow2_u64;
pub use laws::written;
pub use laws::appended_model;
pub use laws::lemma_appends_write_in_order;
pub use laws::lemma_written_none;
pub use laws::lemma_written_push;
pub use laws::lemma_root_is_full_merkle_root;
pub use laws::lemma_append_pair_commutes;
pub use record::path_bytes;
pub use record::entry_bytes;
pub use record::entries_bytes;
pub use record::zero_bytes;
pub use record::slot_size;
pub use record::record_size;
pub use record::header_bytes;
pub use record::record_bytes;
pub use record::record_bytes_of;
pub use record::TreeRecord;
pub use record::deserialize;
