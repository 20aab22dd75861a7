//! Keeping only the mapping records that touch a classified read.

use vstd::prelude::*;

use crate::chimera::BadReadMap;
use crate::error::Error;
use crate::filter::filter_mapping_lines;
use crate::text::{split_seq, suffixed_path};
use crate::util::FileType;

verus! {

/// The name of the extracted copy: the suffix goes in before the first
/// dot of the path's file name.
pub fn generate_extracted_name(filename: &str, filterd_suffix: &str) -> (r: String)
    ensures
        r@ == suffixed_path(filename@, filterd_suffix@),
{
    crate::text::insert_suffix_path(filename, filterd_suffix)
}

/// Keeps the PAF records that touch a read of the map.
pub fn extract_paf(reads: &BadReadMap, input: &str) -> (r: Result<String, Error>)
    requires
        reads.wf(),
    ensures
        match r {
            Ok(out) => filter_mapping_lines(
                split_seq(input@, '\n'),
                '\t',
                0,
                5,
                reads.model().dom(),
                true,
            ) == Some(out@),
            Err(e) => filter_mapping_lines(
                split_seq(input@, '\n'),
                '\t',
                0,
                5,
                reads.model().dom(),
                true,
            ) is None && e is ReadingErrorNoFilename,
        },
{
    let keys = reads.key_set();
    crate::filter::filter_records_set(input, '\t', 0, 5, &keys, true, FileType::Paf)
}

/// Keeps the MHAP records that touch a read of the map.
pub fn extract_mhap(reads: &BadReadMap, input: &str) -> (r: Result<String, Error>)
    requires
        reads.wf(),
    ensures
        match r {
            Ok(out) => filter_mapping_lines(
                split_seq(input@, '\n'),
                ' ',
                0,
                1,
                reads.model().dom(),
                true,
            ) == Some(out@),
            Err(e) => filter_mapping_lines(
                split_seq(input@, '\n'),
                ' ',
                0,
                1,
                reads.model().dom(),
                true,
            ) is None && e is ReadingErrorNoFilename,
        },
{
    let keys = reads.key_set();
    crate::filter::filter_records_set(input, ' ', 0, 1, &keys, true, FileType::M4)
}

} // verus!
