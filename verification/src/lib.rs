//! An embedded key-value store that keeps every record in its own file
//! inside a storage directory, together with a codec that packs such a
//! directory into a single archive file and restores it.
//!
//! The store itself works on plain values: [`Storage`] holds the in-memory
//! image of the directory, and every operation that must touch disk hands the
//! caller the exact files to write or delete. A durable index file maps keys
//! to record file names; reopening a directory reconciles that table against
//! the files actually present. The archive layout, the index reconciliation
//! and the store's bookkeeping are specified and verified here; reading and
//! writing the actual files is left to the embedding application.

mod bundle;
mod codec;
mod error;
mod field;
mod fs;
mod index;
mod laws;
mod storage;

pub use crate::bundle::archive_bytes;
pub use crate::bundle::assemble_archive;
pub use crate::bundle::lemma_nonempty_step;
pub use crate::bundle::lemma_payload_bytes_len;
pub use crate::bundle::lemma_payload_len_nonneg;
pub use crate::bundle::lemma_payload_len_prefix;
pub use crate::bundle::lemma_restored_keys;
pub use crate::bundle::nonempty_entries;
pub use crate::bundle::payload_bytes;
pub use crate::bundle::payload_len;
pub use crate::bundle::restored_entries;
pub use crate::bundle::restored_files;
pub use crate::bundle::table_ok;
pub use crate::bundle::trailer_offset_of;
pub use crate::bundle::trailer_slice;
pub use crate::bundle::trailer_table;
pub use crate::bundle::Unpacked;
pub use crate::codec::index_bytes_of;
pub use crate::codec::index_decode_of;
pub use crate::codec::trailer_bytes_of;
pub use crate::codec::trailer_decode_of;
pub use crate::error::E;
pub use crate::field::Field;
pub use crate::field::FieldView;
pub use crate::fs::as_path_buf;
pub use crate::fs::derive_unpack_dir;
pub use crate::fs::join_path;
pub use crate::fs::join_spec;
pub use crate::fs::lemma_stem_len_bounds;
pub use crate::fs::stem_len;
pub use crate::fs::unpack_dir;
pub use crate::index::dir_lookup;
pub use crate::index::dir_lookup_from;
pub use crate::index::index_file_name;
pub use crate::index::reconciled;
pub use crate::index::DirSnapshot;
pub use crate::index::Index;
pub use crate::index::IndexPaths;
pub use crate::laws::distinct_names;
pub use crate::laws::lemma_clear_idempotent;
pub use crate::laws::lemma_empty_store_archive;
pub use crate::laws::lemma_missing_file_tolerated;
pub use crate::laws::lemma_overwrite_preserves_filename;
pub use crate::laws::lemma_pack_unpack_round_trip;
pub use crate::laws::lemma_reopen_round_trip;
pub use crate::laws::lemma_zero_size_omitted;
pub use crate::laws::records_dir;
pub use crate::storage::clear_model;
pub use crate::storage::distinct_keys;
pub use crate::storage::field_of;
pub use crate::storage::has_key;
pub use crate::storage::index_of_key;
pub use crate::storage::index_pairs;
pub use crate::storage::keys_of;
pub use crate::storage::lemma_key_at;
pub use crate::storage::lemma_remove_distinct;
pub use crate::storage::lemma_seq_ext;
pub use crate::storage::lemma_upsert;
pub use crate::storage::record_paths_of;
pub use crate::storage::remove_model;
pub use crate::storage::set_model;
pub use crate::storage::upsert;
pub use crate::storage::ClearAction;
pub use crate::storage::RemoveAction;
pub use crate::storage::SetAction;
pub use crate::storage::Storage;
pub use crate::storage::StorageIter;
pub use crate::storage::StorageIterView;
pub use crate::storage::StoreEntries;
pub use crate::storage::StoreView;
