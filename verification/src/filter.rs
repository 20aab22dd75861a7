//! Dropping the mapping records that touch a set of reads.

use vstd::hash_set::StringHashSet;
use vstd::prelude::*;
use vstd::string::StringExecFns;

use crate::error::Error;
use crate::text::{split_seq, split_str, suffixed_name};
use crate::util::FileType;

verus! {

/// Collects read names into a set.
pub fn name_set(names: Vec<String>) -> (r: StringHashSet)
    ensures
        forall|i: int| 0 <= i < names@.len() ==> r@.contains((#[trigger] names@[i])@),
        forall|k: Seq<char>|
            r@.contains(k) ==> exists|i: int| 0 <= i < names@.len() && names@[i]@ == k,
{
    let mut out = StringHashSet::new();
    let mut i: usize = 0;
    while i < names.len()
        invariant
            0 <= i <= names@.len(),
            forall|k: int| 0 <= k < i ==> out@.contains((#[trigger] names@[k])@),
            forall|k: Seq<char>|
                out@.contains(k) ==> exists|j: int| 0 <= j < i && names@[j]@ == k,
        decreases names@.len() - i,
    {
        out.insert(names[i].clone());
        i = i + 1;
    }
    out
}

/// The name of the filtered copy: the suffix goes in before the first
/// dot.
pub fn generate_filterd_name(filename: String, filterd_suffix: &str) -> (r: String)
    ensures
        r@ == suffixed_name(filename@, filterd_suffix@),
{
    crate::text::insert_suffix(filename.as_str(), filterd_suffix)
}

/// Filtering mapping lines by the reads named in two key columns: a line
/// is kept if and only if touching the key set matches `keep_present`.
/// Empty lines are dropped; a line with fewer than twelve columns spoils
/// the run.
pub open spec fn filter_mapping_lines(
    lines: Seq<Seq<char>>,
    sep: char,
    ka: int,
    kb: int,
    keys: Set<Seq<char>>,
    keep_present: bool,
) -> Option<Seq<char>>
    decreases lines.len(),
{
    if lines.len() == 0 {
        Some(Seq::empty())
    } else {
        let l = lines[0];
        if l.len() == 0 {
            filter_mapping_lines(lines.drop_first(), sep, ka, kb, keys, keep_present)
        } else {
            let fs = split_seq(l, sep);
            if fs.len() < 12 {
                None
            } else {
                let hit = keys.contains(fs[ka]) || keys.contains(fs[kb]);
                match filter_mapping_lines(lines.drop_first(), sep, ka, kb, keys, keep_present) {
                    Some(rest) => if hit == keep_present {
                        Some(l + seq!['\n'] + rest)
                    } else {
                        Some(rest)
                    },
                    None => None,
                }
            }
        }
    }
}

/// Walks the lines of a mapping file, keeping those whose key columns'
/// membership in `reads` matches `keep_present`.
pub(crate) fn filter_records_set(
    input: &str,
    sep: char,
    ka: usize,
    kb: usize,
    reads: &StringHashSet,
    keep_present: bool,
    format: FileType,
) -> (r: Result<String, Error>)
    requires
        ka < 12,
        kb < 12,
    ensures
        match r {
            Ok(out) => filter_mapping_lines(
                split_seq(input@, '\n'),
                sep,
                ka as int,
                kb as int,
                reads@,
                keep_present,
            ) == Some(out@),
            Err(e) => filter_mapping_lines(
                split_seq(input@, '\n'),
                sep,
                ka as int,
                kb as int,
                reads@,
                keep_present,
            ) is None && e is ReadingErrorNoFilename,
        },
{
    let lines = split_str(input, '\n');
    let ghost lviews = split_seq(input@, '\n');
    let mut out = String::new();
    let mut i: usize = 0;
    proof {
        assert(lviews.subrange(0, lviews.len() as int) =~= lviews);
    }
    while i < lines.len()
        invariant
            0 <= i <= lines@.len(),
            ka < 12,
            kb < 12,
            lviews == lines@.map_values(|t: String| t@),
            lviews == split_seq(input@, '\n'),
            ({
                let whole = filter_mapping_lines(
                    lviews,
                    sep,
                    ka as int,
                    kb as int,
                    reads@,
                    keep_present,
                );
                let rest = filter_mapping_lines(
                    lviews.subrange(i as int, lviews.len() as int),
                    sep,
                    ka as int,
                    kb as int,
                    reads@,
                    keep_present,
                );
                match rest {
                    Some(t) => whole == Some(out@ + t),
                    None => whole is None,
                }
            }),
        decreases lines@.len() - i,
    {
        let ghost rest = lviews.subrange(i as int, lviews.len() as int);
        proof {
            assert(rest[0] == lviews[i as int]);
            assert(rest.drop_first() =~= lviews.subrange(i + 1, lviews.len() as int));
            assert(lviews[i as int] == lines@[i as int]@);
        }
        let line = &lines[i];
        if line.as_str().unicode_len() == 0 {
            i = i + 1;
            continue;
        }
        let fields = split_str(line.as_str(), sep);
        if fields.len() < 12 {
            return Err(Error::ReadingErrorNoFilename { format });
        }
        proof {
            assert(fields@.map_values(|t: String| t@)[ka as int] == fields@[ka as int]@);
            assert(fields@.map_values(|t: String| t@)[kb as int] == fields@[kb as int]@);
        }
        let hit = reads.contains(fields[ka].as_str()) || reads.contains(fields[kb].as_str());
        if hit == keep_present {
            let ghost prev = out@;
            out.append(line.as_str());
            out.append("\n");
            proof {
                reveal_strlit("\n");
                assert("\n"@ =~= seq!['\n']);
                assert(out@ =~= prev + (line@ + seq!['\n']));
                if let Some(t) = filter_mapping_lines(
                    rest.drop_first(),
                    sep,
                    ka as int,
                    kb as int,
                    reads@,
                    keep_present,
                ) {
                    assert((prev + (line@ + seq!['\n'])) + t =~= prev + ((line@ + seq!['\n']) + t));
                    assert((line@ + seq!['\n']) + t =~= line@ + seq!['\n'] + t);
                }
            }
        }
        i = i + 1;
    }
    proof {
        assert(lviews.subrange(lviews.len() as int, lviews.len() as int) =~= Seq::<
            Seq<char>,
        >::empty());
        let whole = filter_mapping_lines(
            lviews,
            sep,
            ka as int,
            kb as int,
            reads@,
            keep_present,
        );
        assert(out@ + Seq::<char>::empty() =~= out@);
    }
    Ok(out)
}

/// Keeps the PAF records that touch no read of the set.
pub fn filterd_paf(reads: &StringHashSet, input: &str) -> (r: Result<String, Error>)
    ensures
        match r {
            Ok(out) => filter_mapping_lines(split_seq(input@, '\n'), '\t', 0, 5, reads@, false)
                == Some(out@),
            Err(e) => filter_mapping_lines(split_seq(input@, '\n'), '\t', 0, 5, reads@, false)
                is None && e is ReadingErrorNoFilename,
        },
{
    filter_records_set(input, '\t', 0, 5, reads, false, FileType::Paf)
}

/// Keeps the MHAP records that touch no read of the set.
pub fn filterd_mhap(reads: &StringHashSet, input: &str) -> (r: Result<String, Error>)
    ensures
        match r {
            Ok(out) => filter_mapping_lines(split_seq(input@, '\n'), ' ', 0, 1, reads@, false)
                == Some(out@),
            Err(e) => filter_mapping_lines(split_seq(input@, '\n'), ' ', 0, 1, reads@, false)
                is None && e is ReadingErrorNoFilename,
        },
{
    filter_records_set(input, ' ', 0, 1, reads, false, FileType::M4)
}

} // verus!
