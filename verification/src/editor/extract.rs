//! Keeping only the mapping records that touch a read whose verdict is
//! not `NotBad`.

use vstd::prelude::*;
use vstd::string::StringExecFns;

use crate::editor::{classify_read, Ratio, ReadType};
use crate::error::Error;
use crate::stack::BadPart;
use crate::text::{split_seq, split_str};
use crate::util::FileType;

verus! {

/// The verdict of one read under a bad-part source: an unknown read has
/// no bad regions and length 0.
pub open spec fn verdict_of(
    parts: Map<Seq<char>, (Seq<(u32, u32)>, usize)>,
    k: Seq<char>,
    ncov: Ratio,
) -> ReadType {
    let entry = if parts.contains_key(k) {
        parts[k]
    } else {
        (Seq::<(u32, u32)>::empty(), 0usize)
    };
    classify_read(entry.0, entry.1 as int, ncov)
}

/// One pass over mapping lines: a line touches a flagged read when
/// either named read's verdict is not `NotBad`; it is kept when that
/// matches `keep_flagged`.  Empty lines are dropped; a line with too few
/// columns spoils the run.
pub open spec fn verdict_lines(
    lines: Seq<Seq<char>>,
    sep: char,
    ka: int,
    kb: int,
    minf: int,
    parts: Map<Seq<char>, (Seq<(u32, u32)>, usize)>,
    ncov: Ratio,
    keep_flagged: bool,
) -> Option<Seq<char>>
    decreases lines.len(),
{
    if lines.len() == 0 {
        Some(Seq::empty())
    } else {
        let l = lines[0];
        if l.len() == 0 {
            verdict_lines(lines.drop_first(), sep, ka, kb, minf, parts, ncov, keep_flagged)
        } else {
            let fs = split_seq(l, sep);
            if fs.len() < minf {
                None
            } else {
                let hit = !(verdict_of(parts, fs[ka], ncov) is NotBad) || !(verdict_of(
                    parts,
                    fs[kb],
                    ncov,
                ) is NotBad);
                let keep = hit == keep_flagged;
                match verdict_lines(
                    lines.drop_first(),
                    sep,
                    ka,
                    kb,
                    minf,
                    parts,
                    ncov,
                    keep_flagged,
                ) {
                    Some(rest) => if keep {
                        Some(l + seq!['\n'] + rest)
                    } else {
                        Some(rest)
                    },
                    None => None,
                }
            }
        }
    }
}

/// Walks the lines of a mapping file, keeping those whose touching of a
/// flagged read matches `keep_flagged`.
pub(crate) fn verdict_records<B: BadPart>(
    input: &str,
    sep: char,
    ka: usize,
    kb: usize,
    minf: usize,
    badregions: &mut B,
    not_covered: Ratio,
    keep_flagged: bool,
    format: FileType,
) -> (r: Result<String, Error>)
    requires
        old(badregions).wf(),
        not_covered.wf(),
        ka < minf,
        kb < minf,
    ensures
        final(badregions).wf(),
        final(badregions).parts() == old(badregions).parts(),
        final(badregions).order() == old(badregions).order(),
        final(badregions).fallible() == old(badregions).fallible(),
        !old(badregions).fallible() && verdict_lines(
            split_seq(input@, '\n'),
            sep,
            ka as int,
            kb as int,
            minf as int,
            old(badregions).parts(),
            not_covered,
            keep_flagged,
        ) is Some ==> r is Ok,
        match r {
            Ok(out) => verdict_lines(
                split_seq(input@, '\n'),
                sep,
                ka as int,
                kb as int,
                minf as int,
                old(badregions).parts(),
                not_covered,
                keep_flagged,
            ) == Some(out@),
            Err(e) => (e is ReadingErrorNoFilename ==> verdict_lines(
                split_seq(input@, '\n'),
                sep,
                ka as int,
                kb as int,
                minf as int,
                old(badregions).parts(),
                not_covered,
                keep_flagged,
            ) is None) && (e is ReadingErrorNoFilename || e is OnDiskReadDatabase
                || e is OnDiskDeserializeVec || e is NotReachableCode),
        },
{
    let lines = split_str(input, '\n');
    let ghost lviews = split_seq(input@, '\n');
    let mut out = String::new();
    let mut i: usize = 0;
    proof {
        assert(lviews.subrange(0, lviews.len() as int) =~= lviews);
    }
    while i < lines.len()
        invariant
            0 <= i <= lines@.len(),
            ka < minf,
            kb < minf,
            not_covered.wf(),
            lviews == lines@.map_values(|t: String| t@),
            lviews == split_seq(input@, '\n'),
            badregions.wf(),
            badregions.parts() == old(badregions).parts(),
            badregions.order() == old(badregions).order(),
            badregions.fallible() == old(badregions).fallible(),
            ({
                let whole = verdict_lines(
                    lviews,
                    sep,
                    ka as int,
                    kb as int,
                    minf as int,
                    old(badregions).parts(),
                    not_covered,
                    keep_flagged,
                );
                let rest = verdict_lines(
                    lviews.subrange(i as int, lviews.len() as int),
                    sep,
                    ka as int,
                    kb as int,
                    minf as int,
                    old(badregions).parts(),
                    not_covered,
                    keep_flagged,
                );
                match rest {
                    Some(t) => whole == Some(out@ + t),
                    None => whole is None,
                }
            }),
        decreases lines@.len() - i,
    {
        let ghost rest = lviews.subrange(i as int, lviews.len() as int);
        proof {
            assert(rest[0] == lviews[i as int]);
            assert(rest.drop_first() =~= lviews.subrange(i + 1, lviews.len() as int));
            assert(lviews[i as int] == lines@[i as int]@);
        }
        let line = &lines[i];
        if line.as_str().unicode_len() == 0 {
            i = i + 1;
            continue;
        }
        let fields = split_str(line.as_str(), sep);
        if fields.len() < minf {
            return Err(Error::ReadingErrorNoFilename { format });
        }
        proof {
            assert(fields@.map_values(|t: String| t@)[ka as int] == fields@[ka as int]@);
            assert(fields@.map_values(|t: String| t@)[kb as int] == fields@[kb as int]@);
        }
        let entry_a = match badregions.get_bad_part(fields[ka].as_str()) {
            Ok(v) => v,
            Err(e) => {
                return Err(e);
            },
        };
        let rtype_a = crate::editor::type_of_read(entry_a.1, &entry_a.0, not_covered);
        let entry_b = match badregions.get_bad_part(fields[kb].as_str()) {
            Ok(v) => v,
            Err(e) => {
                return Err(e);
            },
        };
        let rtype_b = crate::editor::type_of_read(entry_b.1, &entry_b.0, not_covered);
        let hit = !matches!(rtype_a, ReadType::NotBad) || !matches!(rtype_b, ReadType::NotBad);
        if hit == keep_flagged {
            let ghost prev = out@;
            out.append(line.as_str());
            out.append("\n");
            proof {
                reveal_strlit("\n");
                assert("\n"@ =~= seq!['\n']);
                assert(out@ =~= prev + (line@ + seq!['\n']));
                if let Some(t) = verdict_lines(
                    rest.drop_first(),
                    sep,
                    ka as int,
                    kb as int,
                    minf as int,
                    old(badregions).parts(),
                    not_covered,
                    keep_flagged,
                ) {
                    assert((prev + (line@ + seq!['\n'])) + t =~= prev + ((line@ + seq!['\n']) + t));
                    assert((line@ + seq!['\n']) + t =~= line@ + seq!['\n'] + t);
                }
            }
        }
        i = i + 1;
    }
    proof {
        assert(lviews.subrange(lviews.len() as int, lviews.len() as int) =~= Seq::<
            Seq<char>,
        >::empty());
        assert(out@ + Seq::<char>::empty() =~= out@);
    }
    Ok(out)
}

/// Keeps the PAF records that touch a read whose verdict is not `NotBad`.
pub fn paf<B: BadPart>(input: &str, badregions: &mut B, not_covered: Ratio) -> (r: Result<
    String,
    Error,
>)
    requires
        old(badregions).wf(),
        not_covered.wf(),
    ensures
        final(badregions).wf(),
        final(badregions).parts() == old(badregions).parts(),
        final(badregions).order() == old(badregions).order(),
        final(badregions).fallible() == old(badregions).fallible(),
        !old(badregions).fallible() && verdict_lines(
            split_seq(input@, '\n'),
            '\t',
            0,
            5,
            6,
            old(badregions).parts(),
            not_covered,
            true,
        ) is Some ==> r is Ok,
        match r {
            Ok(out) => verdict_lines(
                split_seq(input@, '\n'),
                '\t',
                0,
                5,
                6,
                old(badregions).parts(),
                not_covered,
                true,
            ) == Some(out@),
            Err(e) => (e is ReadingErrorNoFilename ==> verdict_lines(
                split_seq(input@, '\n'),
                '\t',
                0,
                5,
                6,
                old(badregions).parts(),
                not_covered,
                true,
            ) is None) && (e is ReadingErrorNoFilename || e is OnDiskReadDatabase
                || e is OnDiskDeserializeVec || e is NotReachableCode),
        },
{
    verdict_records(input, '\t', 0, 5, 6, badregions, not_covered, true, FileType::Paf)
}

/// Keeps the MHAP records that touch a read whose verdict is not
/// `NotBad`.
pub fn m4<B: BadPart>(input: &str, badregions: &mut B, not_covered: Ratio) -> (r: Result<
    String,
    Error,
>)
    requires
        old(badregions).wf(),
        not_covered.wf(),
    ensures
        final(badregions).wf(),
        final(badregions).parts() == old(badregions).parts(),
        final(badregions).order() == old(badregions).order(),
        final(badregions).fallible() == old(badregions).fallible(),
        !old(badregions).fallible() && verdict_lines(
            split_seq(input@, '\n'),
            ' ',
            0,
            1,
            2,
            old(badregions).parts(),
            not_covered,
            true,
        ) is Some ==> r is Ok,
        match r {
            Ok(out) => verdict_lines(
                split_seq(input@, '\n'),
                ' ',
                0,
                1,
                2,
                old(badregions).parts(),
                not_covered,
                true,
            ) == Some(out@),
            Err(e) => (e is ReadingErrorNoFilename ==> verdict_lines(
                split_seq(input@, '\n'),
                ' ',
                0,
                1,
                2,
                old(badregions).parts(),
                not_covered,
                true,
            ) is None) && (e is ReadingErrorNoFilename || e is OnDiskReadDatabase
                || e is OnDiskDeserializeVec || e is NotReachableCode),
        },
{
    verdict_records(input, ' ', 0, 1, 2, badregions, not_covered, true, FileType::M4)
}

} // verus!
