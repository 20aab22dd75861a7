//! Mapping and sequence format detection from file names.

use vstd::prelude::*;

use crate::text::{contains_substring, str_contains, str_eq};

verus! {

/// The formats the tool tells apart when dispatching on a file name.
#[derive(Debug, Clone, Copy, PartialEq, Eq, Structural)]
pub enum Format {
    Paf,
    M4,
    Fasta,
    Fastq,
}

/// Format told by a file name: standard input reads as PAF, otherwise the
/// first matching extension decides.
pub open spec fn format_of(s: Seq<char>) -> Option<Format> {
    if s == "-"@ {
        Some(Format::Paf)
    } else if contains_substring(s, ".paf"@) {
        Some(Format::Paf)
    } else if contains_substring(s, ".mhap"@) {
        Some(Format::M4)
    } else if contains_substring(s, ".fasta"@) {
        Some(Format::Fasta)
    } else if contains_substring(s, ".fastq"@) {
        Some(Format::Fastq)
    } else {
        None
    }
}

/// Detects the format of a file from its name.
pub fn get_format(filename: &str) -> (r: Option<Format>)
    ensures
        r == format_of(filename@),
{
    if str_eq(filename, "-") {
        Some(Format::Paf)
    } else if str_contains(filename, ".paf") {
        Some(Format::Paf)
    } else if str_contains(filename, ".mhap") {
        Some(Format::M4)
    } else if str_contains(filename, ".fasta") {
        Some(Format::Fasta)
    } else if str_contains(filename, ".fastq") {
        Some(Format::Fastq)
    } else {
        None
    }
}

/// Detects a mapping format (PAF or MHAP) from a file name.
pub fn get_mapping_format_name(filename: &str) -> (r: Option<Format>)
    ensures
        r == match format_of(filename@) {
            Some(Format::Paf) => Some(Format::Paf),
            Some(Format::M4) => Some(Format::M4),
            _ => None::<Format>,
        },
{
    match get_format(filename) {
        Some(Format::Paf) => Some(Format::Paf),
        Some(Format::M4) => Some(Format::M4),
        _ => None,
    }
}

/// Detects a sequence format (FASTA or FASTQ) from a file name.
pub fn get_sequence_format(filename: &str) -> (r: Option<Format>)
    ensures
        r == match format_of(filename@) {
            Some(Format::Fasta) => Some(Format::Fasta),
            Some(Format::Fastq) => Some(Format::Fastq),
            _ => None::<Format>,
        },
{
    match get_format(filename) {
        Some(Format::Fasta) => Some(Format::Fasta),
        Some(Format::Fastq) => Some(Format::Fastq),
        _ => None,
    }
}

/// A span is inside a read when both of its ends are at most the read
/// length.
pub fn in_read(begin: usize, end: usize, length: usize) -> (r: bool)
    ensures
        r == (begin <= length && end <= length),
{
    begin <= length && end <= length
}

} // verus!
