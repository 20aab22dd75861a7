//! Classification of one read from its bad regions, and the report line.

use vstd::prelude::*;
use vstd::string::StringExecFns;

use crate::error::Error;
use crate::text::dec_str;
use crate::text::u64_to_string;

pub mod extract;
pub mod filter;
pub mod scrubbing;
pub mod split;

verus! {

/// The verdict on one read.
#[derive(Debug, Clone, Copy, PartialEq, Eq, Structural)]
pub enum ReadType {
    Chimeric,
    NotCovered,
    NotBad,
}

/// The report word of each verdict.
pub open spec fn read_type_str(t: ReadType) -> Seq<char> {
    match t {
        ReadType::Chimeric => "Chimeric"@,
        ReadType::NotCovered => "NotCovered"@,
        ReadType::NotBad => "NotBad"@,
    }
}

impl ReadType {
    /// The word written for this verdict in a report.
    pub fn as_str(&self) -> (r: &'static str)
        ensures
            r@ == read_type_str(*self),
    {
        match self {
            ReadType::Chimeric => "Chimeric",
            ReadType::NotCovered => "NotCovered",
            ReadType::NotBad => "NotBad",
        }
    }
}

/// The not-covered threshold, a fraction in [0, 1] written as a ratio of
/// two integers.
#[derive(Debug, Clone, Copy, PartialEq, Eq, Structural)]
pub struct Ratio {
    pub numer: u64,
    pub denom: u64,
}

impl Ratio {
    /// A fraction needs a positive denominator and sits in [0, 1].
    pub open spec fn wf(self) -> bool {
        1 <= self.denom && self.numer <= self.denom
    }

    /// Builds the fraction `numer / denom`.
    pub fn new(numer: u64, denom: u64) -> (r: Ratio)
        requires
            1 <= denom,
            numer <= denom,
        ensures
            r == (Ratio { numer, denom }),
    {
        Ratio { numer, denom }
    }
}

/// Length of one bad region; a malformed region whose end sits before its
/// begin counts zero.
pub open spec fn gap_length32(g: (u32, u32)) -> int {
    if g.1 >= g.0 {
        g.1 - g.0
    } else {
        0
    }
}

/// Total bad length of a read, saturated at `u64::MAX`.
pub open spec fn total_uncovered32(gs: Seq<(u32, u32)>) -> int
    decreases gs.len(),
{
    if gs.len() == 0 {
        0
    } else {
        let t = total_uncovered32(gs.drop_last()) + gap_length32(gs.last());
        if t > u64::MAX {
            u64::MAX as int
        } else {
            t
        }
    }
}

/// The total bad length exceeds the fraction `r` of the read length.
pub open spec fn exceeds_ratio(bad: int, length: int, r: Ratio) -> bool {
    bad * r.denom > r.numer * length
}

/// Some bad region is strictly internal: it touches neither extremity.
pub open spec fn has_internal_gap(gs: Seq<(u32, u32)>, length: int) -> bool {
    exists|i: int| 0 <= i < gs.len() && (#[trigger] gs[i]).0 != 0 && gs[i].1 != length
}

/// The verdict on a read: `NotCovered` wins over `Chimeric`, which wins
/// over `NotBad`.
pub open spec fn classify_read(gs: Seq<(u32, u32)>, length: int, r: Ratio) -> ReadType {
    if exceeds_ratio(total_uncovered32(gs), length, r) {
        ReadType::NotCovered
    } else if has_internal_gap(gs, length) {
        ReadType::Chimeric
    } else {
        ReadType::NotBad
    }
}

/// Sums the bad-region lengths, saturating at `u64::MAX`.
fn total_bad_length(badregions: &Vec<(u32, u32)>) -> (r: u64)
    ensures
        r == total_uncovered32(badregions@),
{
    let mut sum: u64 = 0;
    let mut i: usize = 0;
    proof {
        assert(badregions@.subrange(0, 0) =~= Seq::<(u32, u32)>::empty());
    }
    while i < badregions.len()
        invariant
            0 <= i <= badregions@.len(),
            sum == total_uncovered32(badregions@.subrange(0, i as int)),
        decreases badregions@.len() - i,
    {
        let g = badregions[i];
        let glen: u64 = if g.1 >= g.0 {
            ((g.1 - g.0) as u64)
        } else {
            0
        };
        if sum > u64::MAX - glen {
            sum = u64::MAX;
        } else {
            sum = sum + glen;
        }
        proof {
            assert(badregions@.subrange(0, i + 1).drop_last() =~= badregions@.subrange(
                0,
                i as int,
            ));
            assert(badregions@.subrange(0, i + 1).last() == badregions@[i as int]);
        }
        i = i + 1;
    }
    proof {
        assert(badregions@.subrange(0, badregions@.len() as int) =~= badregions@);
    }
    sum
}

/// Assigns the verdict of a read with the given length and bad regions,
/// under the not-covered fraction `not_covered`.
pub fn type_of_read(length: usize, badregions: &Vec<(u32, u32)>, not_covered: Ratio) -> (rt:
    ReadType)
    requires
        not_covered.wf(),
    ensures
        rt == classify_read(badregions@, length as int, not_covered),
{
    let bad: u64 = total_bad_length(badregions);
    proof {
        assert((bad as int) * (not_covered.denom as int) < u128::MAX as int) by (nonlinear_arith)
            requires
                0 <= bad <= u64::MAX,
                0 <= not_covered.denom <= u64::MAX,
        ;
        assert((not_covered.numer as int) * (length as int) < u128::MAX as int)
            by (nonlinear_arith)
            requires
                0 <= not_covered.numer <= u64::MAX,
                0 <= length <= u64::MAX,
        ;
    }
    if (bad as u128) * (not_covered.denom as u128) > (not_covered.numer as u128) * (length
        as u128) {
        return ReadType::NotCovered;
    }
    assert(!exceeds_ratio(total_uncovered32(badregions@), length as int, not_covered));
    let mut i: usize = 0;
    while i < badregions.len()
        invariant
            0 <= i <= badregions@.len(),
            not_covered.wf(),
            !exceeds_ratio(total_uncovered32(badregions@), length as int, not_covered),
            forall|k: int|
                0 <= k < i ==> !((#[trigger] badregions@[k]).0 != 0 && badregions@[k].1 != length
                    as int),
        decreases badregions@.len() - i,
    {
        let g = badregions[i];
        if g.0 != 0 && (g.1 as usize) != length {
            assert(has_internal_gap(badregions@, length as int));
            return ReadType::Chimeric;
        }
        i = i + 1;
    }
    assert(!has_internal_gap(badregions@, length as int));
    ReadType::NotBad
}

/// The text of one bad region: its length, begin and end, comma-separated.
pub open spec fn gap_entry32(g: (u32, u32)) -> Seq<char> {
    dec_str(gap_length32(g)) + seq![','] + dec_str(g.0 as int) + seq![','] + dec_str(g.1 as int)
}

/// The text of a bad-region list: entries joined with semicolons, empty
/// for an empty list.
pub open spec fn gap_string32(gs: Seq<(u32, u32)>) -> Seq<char>
    decreases gs.len(),
{
    if gs.len() == 0 {
        Seq::empty()
    } else if gs.len() == 1 {
        gap_entry32(gs[0])
    } else {
        gap_string32(gs.drop_last()) + seq![';'] + gap_entry32(gs.last())
    }
}

/// Writes the bad regions of one read for the report.
pub fn bad_region_format(bads: &Vec<(u32, u32)>) -> (r: String)
    ensures
        r@ == gap_string32(bads@),
{
    let mut out = String::new();
    let mut i: usize = 0;
    proof {
        assert(bads@.subrange(0, 0) =~= Seq::<(u32, u32)>::empty());
    }
    while i < bads.len()
        invariant
            0 <= i <= bads@.len(),
            out@ == gap_string32(bads@.subrange(0, i as int)),
        decreases bads@.len() - i,
    {
        let g = bads[i];
        if i > 0 {
            out.append(";");
            proof {
                reveal_strlit(";");
                assert(";"@ =~= seq![';']);
            }
        }
        let glen: u64 = if g.1 >= g.0 {
            ((g.1 - g.0) as u64)
        } else {
            0
        };
        let entry = u64_to_string(glen);
        out.append(entry.as_str());
        out.append(",");
        let b = u64_to_string(g.0 as u64);
        out.append(b.as_str());
        out.append(",");
        let e = u64_to_string(g.1 as u64);
        out.append(e.as_str());
        proof {
            reveal_strlit(",");
            assert(","@ =~= seq![',']);
            let pre = bads@.subrange(0, i as int);
            let cur = bads@.subrange(0, i + 1);
            assert(cur.drop_last() =~= pre);
            assert(cur.last() == bads@[i as int]);
            if i == 0 {
                assert(out@ =~= gap_entry32(bads@[0]));
            } else {
                assert(out@ =~= gap_string32(pre) + seq![';'] + gap_entry32(bads@[i as int]));
            }
        }
        i = i + 1;
    }
    proof {
        assert(bads@.subrange(0, bads@.len() as int) =~= bads@);
    }
    out
}

/// One line of the plain report: verdict, read name, length and bad
/// regions, tab-separated, newline-terminated.
pub open spec fn report_line(
    read: Seq<char>,
    length: int,
    gs: Seq<(u32, u32)>,
    t: ReadType,
) -> Seq<char> {
    read_type_str(t) + seq!['\t'] + read + seq!['\t'] + dec_str(length) + seq!['\t']
        + gap_string32(gs) + seq!['\n']
}

/// Classifies a read and writes its report line.
pub fn report(read: &str, length: usize, badregions: &Vec<(u32, u32)>, not_covered: Ratio) -> (r:
    String)
    requires
        not_covered.wf(),
    ensures
        r@ == report_line(
            read@,
            length as int,
            badregions@,
            classify_read(badregions@, length as int, not_covered),
        ),
{
    let rt = type_of_read(length, badregions, not_covered);
    let mut out = String::from_str(rt.as_str());
    out.append("\t");
    out.append(read);
    out.append("\t");
    let lenstr = u64_to_string(length as u64);
    out.append(lenstr.as_str());
    out.append("\t");
    let gaps = bad_region_format(badregions);
    out.append(gaps.as_str());
    out.append("\n");
    proof {
        reveal_strlit("\t");
        reveal_strlit("\n");
        assert("\t"@ =~= seq!['\t']);
        assert("\n"@ =~= seq!['\n']);
        assert(out@ =~= report_line(
            read@,
            length as int,
            badregions@,
            classify_read(badregions@, length as int, not_covered),
        ));
    }
    out
}

/// The whole plain report of a bad-part source: one line per read, in
/// order of first sight; an unknown read reads as no regions, length 0.
pub open spec fn report_of(
    parts: Map<Seq<char>, (Seq<(u32, u32)>, usize)>,
    ord: Seq<Seq<char>>,
    ncov: Ratio,
) -> Seq<char>
    decreases ord.len(),
{
    if ord.len() == 0 {
        Seq::empty()
    } else {
        let k = ord[0];
        let entry = if parts.contains_key(k) {
            parts[k]
        } else {
            (Seq::<(u32, u32)>::empty(), 0usize)
        };
        report_line(k, entry.1 as int, entry.0, classify_read(entry.0, entry.1 as int, ncov))
            + report_of(parts, ord.drop_first(), ncov)
    }
}

/// Classifies every read of a bad-part source and writes the plain
/// report.
pub fn report_all<B: crate::stack::BadPart>(badregions: &mut B, not_covered: Ratio) -> (r: Result<
    String,
    Error,
>)
    requires
        old(badregions).wf(),
        not_covered.wf(),
    ensures
        final(badregions).wf(),
        final(badregions).parts() == old(badregions).parts(),
        final(badregions).order() == old(badregions).order(),
        final(badregions).fallible() == old(badregions).fallible(),
        !old(badregions).fallible() ==> r is Ok,
        match r {
            Ok(out) => out@ == report_of(
                old(badregions).parts(),
                old(badregions).order(),
                not_covered,
            ),
            Err(e) => e is OnDiskReadDatabase || e is OnDiskDeserializeVec
                || e is NotReachableCode,
        },
{
    let names = badregions.get_reads();
    let ghost parts = badregions.parts();
    let ghost ord = badregions.order();
    let mut out = String::new();
    let mut i: usize = 0;
    proof {
        assert(out@ + report_of(parts, ord, not_covered) =~= report_of(parts, ord, not_covered));
        assert(ord.subrange(0, ord.len() as int) =~= ord);
    }
    while i < names.len()
        invariant
            0 <= i <= names@.len(),
            not_covered.wf(),
            names@.len() == ord.len(),
            forall|k: int| 0 <= k < names@.len() ==> (#[trigger] names@[k])@ == ord[k],
            badregions.wf(),
            parts == badregions.parts(),
            ord == badregions.order(),
            parts == old(badregions).parts(),
            ord == old(badregions).order(),
            badregions.fallible() == old(badregions).fallible(),
            report_of(parts, ord, not_covered) == out@ + report_of(
                parts,
                ord.subrange(i as int, ord.len() as int),
                not_covered,
            ),
        decreases names@.len() - i,
    {
        let ghost rest = ord.subrange(i as int, ord.len() as int);
        proof {
            assert(rest[0] == ord[i as int]);
            assert(rest.drop_first() =~= ord.subrange(i + 1, ord.len() as int));
        }
        let name = &names[i];
        let entry = match badregions.get_bad_part(name.as_str()) {
            Ok(v) => v,
            Err(e) => {
                return Err(e);
            },
        };
        let length = entry.1;
        let line = report(name.as_str(), length, &entry.0, not_covered);
        let ghost prev = out@;
        out.append(line.as_str());
        proof {
            assert((prev + line@) + report_of(parts, rest.drop_first(), not_covered) =~= prev + (
            line@ + report_of(parts, rest.drop_first(), not_covered)));
        }
        i = i + 1;
    }
    proof {
        assert(ord.subrange(ord.len() as int, ord.len() as int) =~= Seq::<Seq<char>>::empty());
        assert(out@ + Seq::<char>::empty() =~= out@);
    }
    Ok(out)
}

} // verus!
