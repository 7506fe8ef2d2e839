//! The RAD (reduced alignment data) format of single-cell sequencing, and
//! what is built on it: reading and writing headers, tags, chunks and
//! records; a dictionary of barcodes with exact and one-mismatch lookup;
//! and the collation of records by corrected barcode.
//!
//! The library works on bytes in memory. Every function states what it
//! computes as a contract over mathematical models of the data, and is
//! verified against that contract.

pub mod barcode;
pub mod cbchunk;
pub mod cells;
pub mod collate;
pub mod eqlist;
pub mod error;
pub mod header;
pub mod permit;
pub mod primitive;
pub mod raw;
pub mod record;
pub mod shard;
pub mod strand;

pub use barcode::BarcodeLookupMap;
pub use cbchunk::{
    collate_temporary_bucket, dump_chunk, process_corrected_cb_chunk, CorrectedCbChunk,
};
pub use collate::{collate_temporary_bucket_twopass, TempCellInfo};
pub use eqlist::GlobalEqCellList;
pub use error::RadError;
pub use header::{FileTags, RadHeader, TagDesc, TagSection};
pub use permit::{
    permit_list_from_file, permit_list_from_threshold, update_barcode_hist,
    update_barcode_hist_unfiltered,
};
pub use primitive::{
    decode_int_type_tag, encode_type_tag, write_str_bin, ChunkConfig, RadIntId, RadType,
};
pub use record::{Chunk, ReadRecord};
pub use shard::{dump_corrected_cb_chunk_to_temp_file, TempBucket};

use vstd::prelude::*;

verus! {

/// Name of the library, for diagnostic messages.
pub fn lib_name() -> (name: &'static str)
    ensures
        name@ == "libradicl"@,
{
    "libradicl"
}

} // verus!
