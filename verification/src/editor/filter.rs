//! Dropping the mapping records that touch a read whose verdict is not
//! `NotBad`: the complement of the extraction pass.

use vstd::prelude::*;

use crate::editor::extract::{verdict_lines, verdict_records};
use crate::editor::Ratio;
use crate::error::Error;
use crate::stack::BadPart;
use crate::text::split_seq;
use crate::util::FileType;

verus! {

/// Keeps the PAF records whose reads are all `NotBad`.
pub fn paf<B: BadPart>(input: &str, badregions: &mut B, not_covered: Ratio) -> (r: Result<
    String,
    Error,
>)
    requires
        old(badregions).wf(),
        not_covered.wf(),
    ensures
        final(badregions).wf(),
        final(badregions).parts() == old(badregions).parts(),
        final(badregions).order() == old(badregions).order(),
        final(badregions).fallible() == old(badregions).fallible(),
        !old(badregions).fallible() && verdict_lines(
            split_seq(input@, '\n'),
            '\t',
            0,
            5,
            6,
            old(badregions).parts(),
            not_covered,
            false,
        ) is Some ==> r is Ok,
        match r {
            Ok(out) => verdict_lines(
                split_seq(input@, '\n'),
                '\t',
                0,
                5,
                6,
                old(badregions).parts(),
                not_covered,
                false,
            ) == Some(out@),
            Err(e) => (e is ReadingErrorNoFilename ==> verdict_lines(
                split_seq(input@, '\n'),
                '\t',
                0,
                5,
                6,
                old(badregions).parts(),
                not_covered,
                false,
            ) is None) && (e is ReadingErrorNoFilename || e is OnDiskReadDatabase
                || e is OnDiskDeserializeVec || e is NotReachableCode),
        },
{
    verdict_records(input, '\t', 0, 5, 6, badregions, not_covered, false, FileType::Paf)
}

/// Keeps the MHAP records whose reads are all `NotBad`.
pub fn m4<B: BadPart>(input: &str, badregions: &mut B, not_covered: Ratio) -> (r: Result<
    String,
    Error,
>)
    requires
        old(badregions).wf(),
        not_covered.wf(),
    ensures
        final(badregions).wf(),
        final(badregions).parts() == old(badregions).parts(),
        final(badregions).order() == old(badregions).order(),
        final(badregions).fallible() == old(badregions).fallible(),
        !old(badregions).fallible() && verdict_lines(
            split_seq(input@, '\n'),
            ' ',
            0,
            1,
            2,
            old(badregions).parts(),
            not_covered,
            false,
        ) is Some ==> r is Ok,
        match r {
            Ok(out) => verdict_lines(
                split_seq(input@, '\n'),
                ' ',
                0,
                1,
                2,
                old(badregions).parts(),
                not_covered,
                false,
            ) == Some(out@),
            Err(e) => (e is ReadingErrorNoFilename ==> verdict_lines(
                split_seq(input@, '\n'),
                ' ',
                0,
                1,
                2,
                old(badregions).parts(),
                not_covered,
                false,
            ) is None) && (e is ReadingErrorNoFilename || e is OnDiskReadDatabase
                || e is OnDiskDeserializeVec || e is NotReachableCode),
        },
{
    verdict_records(input, ' ', 0, 1, 2, badregions, not_covered, false, FileType::M4)
}

} // verus!
