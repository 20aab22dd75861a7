//! Filtering mapping records by verdict flags, and the complement of a
//! read's bad regions.

use vstd::prelude::*;
use vstd::string::StringExecFns;

use crate::chimera::{BadReadMap, BadReadType, Interval, IntervalType};
use crate::error::Error;
use crate::text::{split_seq, split_str};

verus! {

/// A read is kept unless its verdict is among those switched off.
pub open spec fn keep_read_spec(
    label: BadReadType,
    chimeric: bool,
    not_covered: bool,
    not_bad: bool,
) -> bool {
    &&& !(label is Chimeric && chimeric)
    &&& !(label is NotCovered && not_covered)
    &&& !(label is NotBad && not_bad)
}

/// Whether one classified read is kept under the given verdict switches.
pub fn keep_this_read(
    id: &String,
    reads_info: &BadReadMap,
    chimeric: bool,
    not_covered: bool,
    not_bad: bool,
) -> (r: bool)
    requires
        reads_info.model().contains_key(id@),
    ensures
        r == keep_read_spec(reads_info.model()[id@].0, chimeric, not_covered, not_bad),
{
    let entry = match reads_info.get(id.as_str()) {
        Some(v) => v,
        None => {
            proof {
                assert(false);
            }
            return true;
        },
    };
    let label = entry.0;
    if matches!(label, BadReadType::Chimeric) && chimeric {
        return false;
    }
    if matches!(label, BadReadType::NotCovered) && not_covered {
        return false;
    }
    if matches!(label, BadReadType::NotBad) && not_bad {
        return false;
    }
    true
}

/// Filtering PAF lines by verdict switches: a line is kept when both of
/// its reads are kept.  Empty lines are dropped; a line with too few
/// columns, or naming a read without a verdict, spoils the run.
pub open spec fn label_filter_lines(
    lines: Seq<Seq<char>>,
    m: Map<Seq<char>, (BadReadType, u64, Seq<Interval>)>,
    chimeric: bool,
    not_covered: bool,
    not_bad: bool,
) -> Option<Seq<char>>
    decreases lines.len(),
{
    if lines.len() == 0 {
        Some(Seq::empty())
    } else {
        let l = lines[0];
        if l.len() == 0 {
            label_filter_lines(lines.drop_first(), m, chimeric, not_covered, not_bad)
        } else {
            let fs = split_seq(l, '\t');
            if fs.len() < 6 {
                None
            } else if !m.contains_key(fs[0]) || !m.contains_key(fs[5]) {
                None
            } else {
                let keep = keep_read_spec(m[fs[0]].0, chimeric, not_covered, not_bad)
                    && keep_read_spec(m[fs[5]].0, chimeric, not_covered, not_bad);
                match label_filter_lines(lines.drop_first(), m, chimeric, not_covered, not_bad) {
                    Some(rest) => if keep {
                        Some(l + seq!['\n'] + rest)
                    } else {
                        Some(rest)
                    },
                    None => None,
                }
            }
        }
    }
}

/// Keeps the PAF records whose reads' verdicts are all kept under the
/// switches.
pub fn paf(
    input: &str,
    reads_info: &BadReadMap,
    chimeric: bool,
    not_covered: bool,
    not_bad: bool,
) -> (r: Result<String, Error>)
    ensures
        match r {
            Ok(out) => label_filter_lines(
                split_seq(input@, '\n'),
                reads_info.model(),
                chimeric,
                not_covered,
                not_bad,
            ) == Some(out@),
            Err(e) => label_filter_lines(
                split_seq(input@, '\n'),
                reads_info.model(),
                chimeric,
                not_covered,
                not_bad,
            ) is None && (e is ReadingErrorNoFilename || e is NotReachableCode),
        },
{
    let lines = split_str(input, '\n');
    let ghost lviews = split_seq(input@, '\n');
    let mut out = String::new();
    let mut i: usize = 0;
    proof {
        assert(lviews.subrange(0, lviews.len() as int) =~= lviews);
    }
    while i < lines.len()
        invariant
            0 <= i <= lines@.len(),
            lviews == lines@.map_values(|t: String| t@),
            lviews == split_seq(input@, '\n'),
            ({
                let whole = label_filter_lines(
                    lviews,
                    reads_info.model(),
                    chimeric,
                    not_covered,
                    not_bad,
                );
                let rest = label_filter_lines(
                    lviews.subrange(i as int, lviews.len() as int),
                    reads_info.model(),
                    chimeric,
                    not_covered,
                    not_bad,
                );
                match rest {
                    Some(t) => whole == Some(out@ + t),
                    None => whole is None,
                }
            }),
        decreases lines@.len() - i,
    {
        let ghost rest = lviews.subrange(i as int, lviews.len() as int);
        proof {
            assert(rest[0] == lviews[i as int]);
            assert(rest.drop_first() =~= lviews.subrange(i + 1, lviews.len() as int));
            assert(lviews[i as int] == lines@[i as int]@);
        }
        let line = &lines[i];
        if line.as_str().unicode_len() == 0 {
            i = i + 1;
            continue;
        }
        let fields = split_str(line.as_str(), '\t');
        if fields.len() < 6 {
            return Err(Error::ReadingErrorNoFilename { format: crate::util::FileType::Paf });
        }
        proof {
            assert(fields@.map_values(|t: String| t@)[0] == fields@[0]@);
            assert(fields@.map_values(|t: String| t@)[5] == fields@[5]@);
        }
        if !reads_info.contains_key(fields[0].as_str()) || !reads_info.contains_key(
            fields[5].as_str(),
        ) {
            return Err(
                Error::NotReachableCode { name: String::from_str("read without a verdict") },
            );
        }
        let keep_a = keep_this_read(&fields[0], reads_info, chimeric, not_covered, not_bad);
        let keep_b = keep_this_read(&fields[5], reads_info, chimeric, not_covered, not_bad);
        if keep_a && keep_b {
            let ghost prev = out@;
            out.append(line.as_str());
            out.append("\n");
            proof {
                reveal_strlit("\n");
                assert("\n"@ =~= seq!['\n']);
                assert(out@ =~= prev + (line@ + seq!['\n']));
                if let Some(t) = label_filter_lines(
                    rest.drop_first(),
                    reads_info.model(),
                    chimeric,
                    not_covered,
                    not_bad,
                ) {
                    assert((prev + (line@ + seq!['\n'])) + t =~= prev + ((line@ + seq!['\n']) + t));
                    assert((line@ + seq!['\n']) + t =~= line@ + seq!['\n'] + t);
                }
            }
        }
        i = i + 1;
    }
    proof {
        assert(lviews.subrange(lviews.len() as int, lviews.len() as int) =~= Seq::<
            Seq<char>,
        >::empty());
        assert(out@ + Seq::<char>::empty() =~= out@);
    }
    Ok(out)
}

/// The spans between consecutive removed intervals, walking a list padded
/// with an empty span at the origin and one at the read end; empty spans
/// are left out.
pub open spec fn good_acc(pts: Seq<Interval>, i: int) -> Seq<Interval>
    decreases pts.len() - i,
{
    if i < 0 || i + 1 >= pts.len() {
        Seq::empty()
    } else {
        let a = pts[i].end;
        let b = pts[i + 1].begin;
        let here = if a == b {
            Seq::empty()
        } else {
            seq![Interval { begin: a, end: b, int_type: IntervalType::Sure }]
        };
        here + good_acc(pts, i + 1)
    }
}

/// The complement of a read's removed intervals.
pub open spec fn good_pos_spec(rm_int: Seq<Interval>, max: u64) -> Seq<Interval> {
    let pts = seq![Interval { begin: 0, end: 0, int_type: IntervalType::Sure }] + rm_int + seq![
        Interval { begin: max, end: max, int_type: IntervalType::Sure },
    ];
    good_acc(pts, 0)
}

/// The good spans of a read: everything outside its removed intervals.
pub fn get_good_pos(rm_int: &Vec<Interval>, max: u64) -> (r: Vec<Interval>)
    ensures
        r@ == good_pos_spec(rm_int@, max),
{
    let mut pts: Vec<Interval> = Vec::new();
    pts.push(Interval { begin: 0, end: 0, int_type: IntervalType::Sure });
    let mut i: usize = 0;
    while i < rm_int.len()
        invariant
            0 <= i <= rm_int@.len(),
            pts@ == seq![Interval { begin: 0, end: 0, int_type: IntervalType::Sure }]
                + rm_int@.subrange(0, i as int),
        decreases rm_int@.len() - i,
    {
        pts.push(rm_int[i]);
        proof {
            assert(pts@ =~= seq![Interval { begin: 0, end: 0, int_type: IntervalType::Sure }]
                + rm_int@.subrange(0, i + 1));
        }
        i = i + 1;
    }
    pts.push(Interval { begin: max, end: max, int_type: IntervalType::Sure });
    proof {
        assert(rm_int@.subrange(0, rm_int@.len() as int) =~= rm_int@);
        assert(pts@ =~= seq![Interval { begin: 0, end: 0, int_type: IntervalType::Sure }] + rm_int@
            + seq![Interval { begin: max, end: max, int_type: IntervalType::Sure }]);
    }
    let mut out: Vec<Interval> = Vec::new();
    let mut j: usize = 0;
    proof {
        assert(out@ + good_acc(pts@, 0) =~= good_acc(pts@, 0));
    }
    while j + 1 < pts.len()
        invariant
            0 <= j < pts@.len(),
            pts@.len() >= 2,
            good_acc(pts@, 0) == out@ + good_acc(pts@, j as int),
        decreases pts@.len() - j,
    {
        let a = pts[j].end;
        let b = pts[j + 1].begin;
        if a != b {
            let ghost prev = out@;
            out.push(Interval { begin: a, end: b, int_type: IntervalType::Sure });
            proof {
                assert(out@ =~= prev + seq![
                    Interval { begin: a, end: b, int_type: IntervalType::Sure },
                ]);
                assert((prev + seq![Interval { begin: a, end: b, int_type: IntervalType::Sure }])
                    + good_acc(pts@, j + 1) =~= prev + (seq![
                    Interval { begin: a, end: b, int_type: IntervalType::Sure },
                ] + good_acc(pts@, j + 1)));
            }
        } else {
            proof {
                assert(Seq::<Interval>::empty() + good_acc(pts@, j + 1) =~= good_acc(pts@, j + 1));
            }
        }
        j = j + 1;
    }
    proof {
        assert(good_acc(pts@, j as int) =~= Seq::<Interval>::empty());
        assert(out@ + Seq::<Interval>::empty() =~= out@);
    }
    out
}

} // verus!
