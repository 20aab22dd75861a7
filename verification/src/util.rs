//! File-type detection from names, and strict decimal parsing.

use vstd::prelude::*;
use vstd::string::StringExecFns;

use crate::error::Error;
use crate::text::{all_digits, contains_substring, digits_value, parse_u64_digits, str_contains};

verus! {

/// The kinds of file this tool reads or writes.
#[derive(Debug, Clone, Copy, PartialEq, Eq, Structural)]
pub enum FileType {
    Fasta,
    Fastq,
    Yacrd,
    Paf,
    M4,
    YacrdOverlap,
}

/// File type told by the extensions occurring in a name, mapping or
/// sequence extensions first, the report and overlap-dump extensions last.
pub open spec fn file_type_of(s: Seq<char>) -> Option<FileType> {
    if contains_substring(s, ".m4"@) || contains_substring(s, ".mhap"@) {
        Some(FileType::M4)
    } else if contains_substring(s, ".paf"@) {
        Some(FileType::Paf)
    } else if contains_substring(s, ".yacrd"@) {
        Some(FileType::Yacrd)
    } else if contains_substring(s, ".fastq"@) || contains_substring(s, ".fq"@) {
        Some(FileType::Fastq)
    } else if contains_substring(s, ".fasta"@) || contains_substring(s, ".fa"@) {
        Some(FileType::Fasta)
    } else if contains_substring(s, ".yovl"@) {
        Some(FileType::YacrdOverlap)
    } else {
        None
    }
}

/// Detects the type of a file from its name.
pub fn get_file_type(filename: &str) -> (r: Option<FileType>)
    ensures
        r == file_type_of(filename@),
{
    if str_contains(filename, ".m4") || str_contains(filename, ".mhap") {
        Some(FileType::M4)
    } else if str_contains(filename, ".paf") {
        Some(FileType::Paf)
    } else if str_contains(filename, ".yacrd") {
        Some(FileType::Yacrd)
    } else if str_contains(filename, ".fastq") || str_contains(filename, ".fq") {
        Some(FileType::Fastq)
    } else if str_contains(filename, ".fasta") || str_contains(filename, ".fa") {
        Some(FileType::Fasta)
    } else if str_contains(filename, ".yovl") {
        Some(FileType::YacrdOverlap)
    } else {
        None
    }
}

/// Reads a `usize` from a decimal string; any other content is an error.
pub fn str2usize(val: &str) -> (r: Result<usize, Error>)
    ensures
        match r {
            Ok(n) => val@.len() > 0 && all_digits(val@) && n == digits_value(val@),
            Err(e) => (val@.len() == 0 || !all_digits(val@) || digits_value(val@)
                > usize::MAX) && e is CantParseNumber,
        },
{
    match parse_u64_digits(val) {
        Some(n) => {
            if n <= usize::MAX as u64 {
                Ok(n as usize)
            } else {
                Err(Error::CantParseNumber { value: String::from_str(val) })
            }
        },
        None => Err(Error::CantParseNumber { value: String::from_str(val) }),
    }
}

/// Reads a `u32` from a decimal string; any other content is an error.
pub fn str2u32(val: &str) -> (r: Result<u32, Error>)
    ensures
        match r {
            Ok(n) => val@.len() > 0 && all_digits(val@) && n == digits_value(val@),
            Err(e) => (val@.len() == 0 || !all_digits(val@) || digits_value(val@)
                > u32::MAX) && e is CantParseNumber,
        },
{
    match parse_u64_digits(val) {
        Some(n) => {
            if n <= u32::MAX as u64 {
                Ok(n as u32)
            } else {
                Err(Error::CantParseNumber { value: String::from_str(val) })
            }
        },
        None => Err(Error::CantParseNumber { value: String::from_str(val) }),
    }
}

/// Reads a `u64` from a decimal string; any other content is an error.
pub fn str2u64(val: &str) -> (r: Result<u64, Error>)
    ensures
        match r {
            Ok(n) => val@.len() > 0 && all_digits(val@) && n == digits_value(val@),
            Err(e) => (val@.len() == 0 || !all_digits(val@) || digits_value(val@)
                > u64::MAX) && e is CantParseNumber,
        },
{
    match parse_u64_digits(val) {
        Some(n) => Ok(n),
        None => Err(Error::CantParseNumber { value: String::from_str(val) }),
    }
}

} // verus!
