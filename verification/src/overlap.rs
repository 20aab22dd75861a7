//! Chimera detection straight from a mapping file: the records are read
//! into a per-read interval map, each read is swept, classified, and its
//! verdict recorded.

use vstd::hash_map::StringHashMap;
use vstd::prelude::*;
use vstd::string::StringExecFns;

use crate::chimera::{BadReadMap, BadReadType, Interval, IntervalType};
use crate::editor::{exceeds_ratio, Ratio};
use crate::error::Error;
use crate::sweep::{add_extremities, final_pop, sort_intervals, sweep_intervals};
use crate::text::{all_digits, digits_value, split_seq, split_str};
use crate::util::str2u64;
use crate::utils::Format;

verus! {

/// One decimal field that fits in `u64`.
pub open spec fn valid_u64_digits(s: Seq<char>) -> bool {
    s.len() > 0 && all_digits(s) && digits_value(s) <= u64::MAX
}

/// A sum clipped at `u64::MAX`.
pub open spec fn sat_add(a: int, b: int) -> int {
    if a + b > u64::MAX {
        u64::MAX as int
    } else {
        a + b
    }
}

/// A difference clipped at zero.
pub open spec fn sat_sub(a: int, b: int) -> int {
    if a >= b {
        a - b
    } else {
        0
    }
}

/// One half of a mapping record: read name, declared length, and the
/// overlap's begin and end on that read.
pub struct MappingHalf {
    pub name: String,
    pub len: u64,
    pub begin: u64,
    pub end: u64,
}

/// The columns of one PAF line that matter here: name, length, begin and
/// end of both reads; the line needs its twelve standard columns, with
/// every number read strictly.
pub open spec fn paf_halves(l: Seq<char>) -> Option<
    ((Seq<char>, int, int, int), (Seq<char>, int, int, int)),
> {
    let fs = split_seq(l, '\t');
    if fs.len() < 12 {
        None
    } else if valid_u64_digits(fs[1]) && valid_u64_digits(fs[2]) && valid_u64_digits(fs[3])
        && valid_u64_digits(fs[6]) && valid_u64_digits(fs[7]) && valid_u64_digits(fs[8]) {
        Some(
            (
                (fs[0], digits_value(fs[1]) as int, digits_value(fs[2]) as int, digits_value(
                    fs[3],
                ) as int),
                (fs[5], digits_value(fs[6]) as int, digits_value(fs[7]) as int, digits_value(
                    fs[8],
                ) as int),
            ),
        )
    } else {
        None
    }
}

/// The columns of one MHAP line that matter here, under the same rules.
pub open spec fn mhap_halves(l: Seq<char>) -> Option<
    ((Seq<char>, int, int, int), (Seq<char>, int, int, int)),
> {
    let fs = split_seq(l, ' ');
    if fs.len() < 12 {
        None
    } else if valid_u64_digits(fs[7]) && valid_u64_digits(fs[5]) && valid_u64_digits(fs[6])
        && valid_u64_digits(fs[11]) && valid_u64_digits(fs[9]) && valid_u64_digits(fs[10]) {
        Some(
            (
                (fs[0], digits_value(fs[7]) as int, digits_value(fs[5]) as int, digits_value(
                    fs[6],
                ) as int),
                (fs[1], digits_value(fs[11]) as int, digits_value(fs[9]) as int, digits_value(
                    fs[10],
                ) as int),
            ),
        )
    } else {
        None
    }
}

/// The halves of one line in the given format.
pub open spec fn mapping_halves(l: Seq<char>, format: Format) -> Option<
    ((Seq<char>, int, int, int), (Seq<char>, int, int, int)),
> {
    if format is Paf {
        paf_halves(l)
    } else {
        mhap_halves(l)
    }
}

/// Recording one overlap half: the interval joins the read's list; the
/// first declared length wins.
pub open spec fn mapping_add(
    m: Map<Seq<char>, (int, Seq<Interval>)>,
    name: Seq<char>,
    len: int,
    begin: int,
    end: int,
) -> Map<Seq<char>, (int, Seq<Interval>)> {
    let iv = Interval { begin: begin as u64, end: end as u64, int_type: IntervalType::Sure };
    if m.contains_key(name) {
        m.insert(name, (m[name].0, m[name].1.push(iv)))
    } else {
        m.insert(name, (len, seq![iv]))
    }
}

/// A name joins the order on first sight.
pub open spec fn mapping_order_add(
    ord: Seq<Seq<char>>,
    m: Map<Seq<char>, (int, Seq<Interval>)>,
    name: Seq<char>,
) -> Seq<Seq<char>> {
    if m.contains_key(name) {
        ord
    } else {
        ord.push(name)
    }
}

/// Reading a mapping file, line by line from the top; empty lines are
/// skipped, and any malformed line spoils the run.
pub open spec fn mapping_fold(
    lines: Seq<Seq<char>>,
    format: Format,
    m: Map<Seq<char>, (int, Seq<Interval>)>,
    ord: Seq<Seq<char>>,
) -> Option<(Map<Seq<char>, (int, Seq<Interval>)>, Seq<Seq<char>>)>
    decreases lines.len(),
{
    if lines.len() == 0 {
        Some((m, ord))
    } else {
        let l = lines[0];
        if l.len() == 0 {
            mapping_fold(lines.drop_first(), format, m, ord)
        } else {
            match mapping_halves(l, format) {
                Some(halves) => {
                    let ((na, la, ba, ea), (nb, lb, bb, eb)) = halves;
                    let m1 = mapping_add(m, na, la, ba, ea);
                    let ord1 = mapping_order_add(ord, m, na);
                    let m2 = mapping_add(m1, nb, lb, bb, eb);
                    let ord2 = mapping_order_add(ord1, m1, nb);
                    mapping_fold(lines.drop_first(), format, m2, ord2)
                },
                None => None,
            }
        }
    }
}

/// Every read's declared length and overlap intervals, in arrival order,
/// with the read names in order of first sight.
pub struct Read2Mapping {
    map: StringHashMap<(u64, Vec<Interval>)>,
    ids: Vec<String>,
}

impl Read2Mapping {
    /// The names list the map's keys exactly once each.
    pub closed spec fn wf(&self) -> bool {
        &&& forall|i: int, j: int|
            0 <= i < j < self.ids@.len() ==> self.ids@[i]@ != self.ids@[j]@
        &&& forall|i: int| 0 <= i < self.ids@.len() ==> self.map@.contains_key(#[trigger] self.ids@[i]@)
        &&& forall|k: Seq<char>|
            self.map@.contains_key(k) ==> exists|i: int|
                0 <= i < self.ids@.len() && self.ids@[i]@ == k
    }

    /// What each read maps to.
    pub closed spec fn model(&self) -> Map<Seq<char>, (int, Seq<Interval>)> {
        Map::new(
            |k: Seq<char>| self.map@.contains_key(k),
            |k: Seq<char>| (self.map@[k].0 as int, self.map@[k].1@),
        )
    }

    /// The read names in order of first sight.
    pub closed spec fn order(&self) -> Seq<Seq<char>> {
        self.ids@.map_values(|s: String| s@)
    }

    /// An empty map.
    pub fn new() -> (r: Read2Mapping)
        ensures
            r.wf(),
            r.model() == Map::<Seq<char>, (int, Seq<Interval>)>::empty(),
            r.order() == Seq::<Seq<char>>::empty(),
    {
        let r = Read2Mapping { map: StringHashMap::new(), ids: Vec::new() };
        proof {
            assert(r.model() =~= Map::<Seq<char>, (int, Seq<Interval>)>::empty());
            assert(r.order() =~= Seq::<Seq<char>>::empty());
        }
        r
    }

    /// Records one overlap half.
    pub fn add(&mut self, name: String, len: u64, begin: u64, end: u64)
        requires
            old(self).wf(),
        ensures
            final(self).wf(),
            final(self).model() == mapping_add(
                old(self).model(),
                name@,
                len as int,
                begin as int,
                end as int,
            ),
            final(self).order() == mapping_order_add(
                old(self).order(),
                old(self).model(),
                name@,
            ),
    {
        let ghost ids0 = self.ids@;
        let iv = Interval { begin, end, int_type: IntervalType::Sure };
        match self.map.get(name.as_str()) {
            Some(entry) => {
                let stored_len = entry.0;
                let mut ivs = copy_interval_list(&entry.1);
                ivs.push(iv);
                self.map.insert(name, (stored_len, ivs));
                proof {
                    assert(self.model() =~= mapping_add(
                        old(self).model(),
                        name@,
                        len as int,
                        begin as int,
                        end as int,
                    ));
                    assert(self.order() =~= mapping_order_add(
                        old(self).order(),
                        old(self).model(),
                        name@,
                    ));
                }
            },
            None => {
                let mut ivs: Vec<Interval> = Vec::new();
                ivs.push(iv);
                self.ids.push(name.clone());
                self.map.insert(name, (len, ivs));
                proof {
                    assert(ivs@ =~= seq![iv]);
                    assert(self.model() =~= mapping_add(
                        old(self).model(),
                        name@,
                        len as int,
                        begin as int,
                        end as int,
                    ));
                    assert(self.order() =~= mapping_order_add(
                        old(self).order(),
                        old(self).model(),
                        name@,
                    ));
                    assert forall|k: Seq<char>| self.map@.contains_key(k) implies exists|i: int|
                        0 <= i < self.ids@.len() && self.ids@[i]@ == k by {
                        if k == name@ {
                            assert(self.ids@[self.ids@.len() - 1]@ == k);
                        } else {
                            let i = choose|i: int| 0 <= i < ids0.len() && ids0[i]@ == k;
                            assert(self.ids@[i]@ == k);
                        }
                    }
                }
            },
        }
    }

    /// The declared length and intervals of one read.
    pub fn get(&self, name: &str) -> (r: Option<&(u64, Vec<Interval>)>)
        ensures
            match r {
                Some(v) => self.model().contains_key(name@) && (v.0 as int, v.1@) == self.model()[
                    name@],
                None => !self.model().contains_key(name@),
            },
    {
        self.map.get(name)
    }

    /// The read names, in order of first sight.
    pub fn get_reads(&self) -> (r: Vec<String>)
        requires
            self.wf(),
        ensures
            r@.len() == self.order().len(),
            forall|i: int| 0 <= i < r@.len() ==> (#[trigger] r@[i])@ == self.order()[i],
    {
        crate::reads2ovl::fullmemory::copy_names(&self.ids)
    }
}

/// Copies an interval list.
fn copy_interval_list(v: &Vec<Interval>) -> (r: Vec<Interval>)
    ensures
        r@ == v@,
{
    let mut out: Vec<Interval> = Vec::new();
    let mut i: usize = 0;
    while i < v.len()
        invariant
            0 <= i <= v@.len(),
            out@ == v@.subrange(0, i as int),
        decreases v@.len() - i,
    {
        out.push(v[i]);
        proof {
            assert(out@ =~= v@.subrange(0, i + 1));
        }
        i = i + 1;
    }
    proof {
        assert(v@.subrange(0, v@.len() as int) =~= v@);
    }
    out
}

/// Reads the two halves of one mapping line.
pub(crate) fn parse_line_halves(line: &str, format: Format) -> (r: Option<(MappingHalf, MappingHalf)>)
    ensures
        match r {
            Some(h) => mapping_halves(line@, format) == Some(
                (
                    (h.0.name@, h.0.len as int, h.0.begin as int, h.0.end as int),
                    (h.1.name@, h.1.len as int, h.1.begin as int, h.1.end as int),
                ),
            ),
            None => mapping_halves(line@, format) is None,
        },
{
    let sep: char = if matches!(format, Format::Paf) {
        '\t'
    } else {
        ' '
    };
    let fields = split_str(line, sep);
    proof {
        assert forall|k: int| 0 <= k < fields@.len() implies fields@.map_values(|t: String| t@)[k]
            == (#[trigger] fields@[k])@ by {}
    }
    if fields.len() < 12 {
        return None;
    }
    let (ia, ila, iba, iea, ib, ilb, ibb, ieb): (
        usize,
        usize,
        usize,
        usize,
        usize,
        usize,
        usize,
        usize,
    ) = if matches!(format, Format::Paf) {
        (0, 1, 2, 3, 5, 6, 7, 8)
    } else {
        (0, 7, 5, 6, 1, 11, 9, 10)
    };
    let la = match str2u64(fields[ila].as_str()) {
        Ok(x) => x,
        Err(_) => {
            return None;
        },
    };
    let ba = match str2u64(fields[iba].as_str()) {
        Ok(x) => x,
        Err(_) => {
            return None;
        },
    };
    let ea = match str2u64(fields[iea].as_str()) {
        Ok(x) => x,
        Err(_) => {
            return None;
        },
    };
    let lb = match str2u64(fields[ilb].as_str()) {
        Ok(x) => x,
        Err(_) => {
            return None;
        },
    };
    let bb = match str2u64(fields[ibb].as_str()) {
        Ok(x) => x,
        Err(_) => {
            return None;
        },
    };
    let eb = match str2u64(fields[ieb].as_str()) {
        Ok(x) => x,
        Err(_) => {
            return None;
        },
    };
    let ha = MappingHalf { name: fields[ia].clone(), len: la, begin: ba, end: ea };
    let hb = MappingHalf { name: fields[ib].clone(), len: lb, begin: bb, end: eb };
    Some((ha, hb))
}

/// Streams the records of a PAF file into the per-read map.
pub fn parse_paf(input: &str, read2mapping: &mut Read2Mapping) -> (r: Result<(), Error>)
    requires
        old(read2mapping).wf(),
    ensures
        final(read2mapping).wf(),
        match r {
            Ok(()) => mapping_fold(
                split_seq(input@, '\n'),
                Format::Paf,
                old(read2mapping).model(),
                old(read2mapping).order(),
            ) == Some((final(read2mapping).model(), final(read2mapping).order())),
            Err(e) => mapping_fold(
                split_seq(input@, '\n'),
                Format::Paf,
                old(read2mapping).model(),
                old(read2mapping).order(),
            ) is None && e is ReadingErrorNoFilename,
        },
{
    parse_records(input, Format::Paf, read2mapping)
}

/// Streams the records of an MHAP file into the per-read map.
pub fn parse_mhap(input: &str, read2mapping: &mut Read2Mapping) -> (r: Result<(), Error>)
    requires
        old(read2mapping).wf(),
    ensures
        final(read2mapping).wf(),
        match r {
            Ok(()) => mapping_fold(
                split_seq(input@, '\n'),
                Format::M4,
                old(read2mapping).model(),
                old(read2mapping).order(),
            ) == Some((final(read2mapping).model(), final(read2mapping).order())),
            Err(e) => mapping_fold(
                split_seq(input@, '\n'),
                Format::M4,
                old(read2mapping).model(),
                old(read2mapping).order(),
            ) is None && e is ReadingErrorNoFilename,
        },
{
    parse_records(input, Format::M4, read2mapping)
}

/// Streams the records of a mapping file into the per-read map; sequence
/// formats carry no overlaps.
pub fn parse(input: &str, format: Format, read2mapping: &mut Read2Mapping) -> (r: Result<
    (),
    Error,
>)
    requires
        old(read2mapping).wf(),
    ensures
        final(read2mapping).wf(),
        match r {
            Ok(()) => (format is Paf || format is M4) && mapping_fold(
                split_seq(input@, '\n'),
                format,
                old(read2mapping).model(),
                old(read2mapping).order(),
            ) == Some((final(read2mapping).model(), final(read2mapping).order())),
            Err(e) => if format is Paf || format is M4 {
                mapping_fold(
                    split_seq(input@, '\n'),
                    format,
                    old(read2mapping).model(),
                    old(read2mapping).order(),
                ) is None && e is ReadingErrorNoFilename
            } else {
                e is CantRunOperationOnFile && final(read2mapping).model() == old(
                    read2mapping,
                ).model() && final(read2mapping).order() == old(read2mapping).order()
            },
        },
{
    match format {
        Format::Paf => parse_paf(input, read2mapping),
        Format::M4 => parse_mhap(input, read2mapping),
        _ => Err(
            Error::CantRunOperationOnFile {
                operation: String::from_str("mapping parsing"),
                filetype: crate::util::FileType::Fasta,
                filename: String::new(),
            },
        ),
    }
}

fn parse_records(input: &str, format: Format, read2mapping: &mut Read2Mapping) -> (r: Result<
    (),
    Error,
>)
    requires
        old(read2mapping).wf(),
        format is Paf || format is M4,
    ensures
        final(read2mapping).wf(),
        match r {
            Ok(()) => mapping_fold(
                split_seq(input@, '\n'),
                format,
                old(read2mapping).model(),
                old(read2mapping).order(),
            ) == Some((final(read2mapping).model(), final(read2mapping).order())),
            Err(e) => mapping_fold(
                split_seq(input@, '\n'),
                format,
                old(read2mapping).model(),
                old(read2mapping).order(),
            ) is None && e is ReadingErrorNoFilename,
        },
{
    let lines = split_str(input, '\n');
    let ghost lviews = split_seq(input@, '\n');
    let mut i: usize = 0;
    proof {
        assert(lviews.subrange(0, lviews.len() as int) =~= lviews);
    }
    while i < lines.len()
        invariant
            0 <= i <= lines@.len(),
            format is Paf || format is M4,
            lviews == lines@.map_values(|t: String| t@),
            lviews == split_seq(input@, '\n'),
            read2mapping.wf(),
            mapping_fold(
                lviews,
                format,
                old(read2mapping).model(),
                old(read2mapping).order(),
            ) == mapping_fold(
                lviews.subrange(i as int, lviews.len() as int),
                format,
                read2mapping.model(),
                read2mapping.order(),
            ),
        decreases lines@.len() - i,
    {
        let ghost rest = lviews.subrange(i as int, lviews.len() as int);
        proof {
            assert(rest[0] == lviews[i as int]);
            assert(rest.drop_first() =~= lviews.subrange(i + 1, lviews.len() as int));
            assert(lviews[i as int] == lines@[i as int]@);
        }
        let line = &lines[i];
        if line.as_str().unicode_len() == 0 {
            i = i + 1;
            continue;
        }
        match parse_line_halves(line.as_str(), format) {
            Some((ha, hb)) => {
                read2mapping.add(ha.name, ha.len, ha.begin, ha.end);
                read2mapping.add(hb.name, hb.len, hb.begin, hb.end);
            },
            None => {
                let ft = if matches!(format, Format::Paf) {
                    crate::util::FileType::Paf
                } else {
                    crate::util::FileType::M4
                };
                return Err(Error::ReadingErrorNoFilename { format: ft });
            },
        }
        i = i + 1;
    }
    proof {
        assert(lviews.subrange(lviews.len() as int, lviews.len() as int) =~= Seq::<
            Seq<char>,
        >::empty());
    }
    Ok(())
}

/// The coordinate pairs of a read's intervals.
pub open spec fn interval_pairs(ivs: Seq<Interval>) -> Seq<(u64, u64)> {
    ivs.map_values(|iv: Interval| (iv.begin, iv.end))
}

/// The gap lengths summed onto an accumulator, clipped at `u64::MAX`; a
/// malformed gap counts zero.
pub open spec fn middle_sum(gaps: Seq<(u64, u64)>, acc: int) -> int
    decreases gaps.len(),
{
    if gaps.len() == 0 {
        acc
    } else {
        middle_sum(gaps.drop_first(), sat_add(acc, sat_sub(gaps[0].1 as int, gaps[0].0 as int)))
    }
}

/// One read's verdict and gap list: the sweep runs over the sorted
/// intervals; the uncovered total is the leading extremity, the trailing
/// extremity and the internal gaps together; the not-covered check wins
/// over the chimeric check, which fires on any internal gap; the reported
/// gaps are the internal ones with the extremities added.
pub open spec fn find_read_spec(ivs: Seq<Interval>, len: u64, c: u64, ncov: Ratio) -> (
    BadReadType,
    Seq<Interval>,
) {
    let pairs = sort_intervals(interval_pairs(ivs));
    let st = sweep_intervals(pairs, c);
    let last = final_pop(st.stack, c, len, st.last_covered);
    let u0 = sat_add(st.first_covered as int, sat_sub(len as int, last as int));
    let u = middle_sum(st.gaps, u0);
    let label = if exceeds_ratio(u, len as int, ncov) {
        BadReadType::NotCovered
    } else if st.gaps.len() > 0 {
        BadReadType::Chimeric
    } else {
        BadReadType::NotBad
    };
    let ext = add_extremities(st.first_covered, last, len, st.gaps);
    (
        label,
        ext.map_values(
            |p: (u64, u64)| Interval { begin: p.0, end: p.1, int_type: IntervalType::Sure },
        ),
    )
}

/// Sweeps and classifies one read.
pub fn find_read(intervals: &Vec<Interval>, len: u64, c: u64, ncov: Ratio) -> (r: (
    BadReadType,
    Vec<Interval>,
))
    requires
        ncov.wf(),
    ensures
        (r.0, r.1@) == find_read_spec(intervals@, len, c, ncov),
{
    let mut pairs: Vec<(u64, u64)> = Vec::new();
    let mut i: usize = 0;
    proof {
        assert(pairs@ =~= interval_pairs(intervals@.subrange(0, 0)));
    }
    while i < intervals.len()
        invariant
            0 <= i <= intervals@.len(),
            pairs@ == interval_pairs(intervals@.subrange(0, i as int)),
        decreases intervals@.len() - i,
    {
        let iv = intervals[i];
        pairs.push((iv.begin, iv.end));
        proof {
            assert(pairs@ =~= interval_pairs(intervals@.subrange(0, i + 1)));
        }
        i = i + 1;
    }
    proof {
        assert(intervals@.subrange(0, intervals@.len() as int) =~= intervals@);
    }
    let sorted = crate::sweep::sort_intervals_exec(&pairs);
    let (middle, first_covered, last_covered) = crate::sweep::sweep_core(&sorted, c, len);
    let d: u64 = if len >= last_covered {
        len - last_covered
    } else {
        0
    };
    let u0: u64 = if first_covered > u64::MAX - d {
        u64::MAX
    } else {
        first_covered + d
    };
    let mut acc: u64 = u0;
    let mut j: usize = 0;
    proof {
        assert(middle@.subrange(0, middle@.len() as int) =~= middle@);
    }
    while j < middle.len()
        invariant
            0 <= j <= middle@.len(),
            middle_sum(middle@, u0 as int) == middle_sum(
                middle@.subrange(j as int, middle@.len() as int),
                acc as int,
            ),
        decreases middle@.len() - j,
    {
        let ghost rest = middle@.subrange(j as int, middle@.len() as int);
        proof {
            assert(rest[0] == middle@[j as int]);
            assert(rest.drop_first() =~= middle@.subrange(j + 1, middle@.len() as int));
        }
        let g = middle[j];
        let glen: u64 = if g.1 >= g.0 {
            g.1 - g.0
        } else {
            0
        };
        if acc > u64::MAX - glen {
            acc = u64::MAX;
        } else {
            acc = acc + glen;
        }
        j = j + 1;
    }
    proof {
        assert(middle@.subrange(middle@.len() as int, middle@.len() as int) =~= Seq::<
            (u64, u64),
        >::empty());
        assert((acc as int) * (ncov.denom as int) < u128::MAX as int) by (nonlinear_arith)
            requires
                0 <= acc <= u64::MAX,
                0 <= ncov.denom <= u64::MAX,
        ;
        assert((ncov.numer as int) * (len as int) < u128::MAX as int) by (nonlinear_arith)
            requires
                0 <= ncov.numer <= u64::MAX,
                0 <= len <= u64::MAX,
        ;
    }
    let label = if (acc as u128) * (ncov.denom as u128) > (ncov.numer as u128) * (len as u128) {
        BadReadType::NotCovered
    } else if middle.len() > 0 {
        BadReadType::Chimeric
    } else {
        BadReadType::NotBad
    };
    let mut gaps = middle;
    let ghost middle_view = gaps@;
    if first_covered != 0 {
        gaps.insert(0, (0u64, first_covered));
        proof {
            assert(gaps@ =~= seq![(0u64, first_covered)] + middle_view);
        }
    }
    if last_covered != len {
        gaps.push((last_covered, len));
    }
    let mut out: Vec<Interval> = Vec::new();
    let mut k: usize = 0;
    proof {
        let st = sweep_intervals(sort_intervals(interval_pairs(intervals@)), c);
        assert(gaps@ == add_extremities(
            st.first_covered,
            final_pop(st.stack, c, len, st.last_covered),
            len,
            st.gaps,
        ));
        assert(out@ =~= gaps@.subrange(0, 0).map_values(
            |p: (u64, u64)| Interval { begin: p.0, end: p.1, int_type: IntervalType::Sure },
        ));
    }
    while k < gaps.len()
        invariant
            0 <= k <= gaps@.len(),
            out@ == gaps@.subrange(0, k as int).map_values(
                |p: (u64, u64)| Interval { begin: p.0, end: p.1, int_type: IntervalType::Sure },
            ),
        decreases gaps@.len() - k,
    {
        let p = gaps[k];
        out.push(Interval { begin: p.0, end: p.1, int_type: IntervalType::Sure });
        proof {
            assert(out@ =~= gaps@.subrange(0, k + 1).map_values(
                |q: (u64, u64)| Interval { begin: q.0, end: q.1, int_type: IntervalType::Sure },
            ));
        }
        k = k + 1;
    }
    proof {
        assert(gaps@.subrange(0, gaps@.len() as int) =~= gaps@);
    }
    (label, out)
}

/// Classifying every read of the map, in order of first sight; the last
/// verdict of a name wins where names repeat.
pub open spec fn find_fold(
    ks: Seq<Seq<char>>,
    m: Map<Seq<char>, (int, Seq<Interval>)>,
    c: u64,
    ncov: Ratio,
    rm: Map<Seq<char>, (BadReadType, u64, Seq<Interval>)>,
    rord: Seq<Seq<char>>,
) -> (Map<Seq<char>, (BadReadType, u64, Seq<Interval>)>, Seq<Seq<char>>)
    decreases ks.len(),
{
    if ks.len() == 0 {
        (rm, rord)
    } else {
        let k = ks[0];
        if m.contains_key(k) {
            let entry = m[k];
            let res = find_read_spec(entry.1, entry.0 as u64, c, ncov);
            find_fold(
                ks.drop_first(),
                m,
                c,
                ncov,
                rm.insert(k, (res.0, entry.0 as u64, res.1)),
                if rm.contains_key(k) {
                    rord
                } else {
                    rord.push(k)
                },
            )
        } else {
            find_fold(ks.drop_first(), m, c, ncov, rm, rord)
        }
    }
}

/// Reads a mapping file and records the verdict of every read in it.
pub fn find(
    input: &str,
    format: Format,
    chim_thres: u64,
    ncov_thres: Ratio,
    remove_reads: &mut BadReadMap,
) -> (r: Result<(), Error>)
    requires
        old(remove_reads).wf(),
        ncov_thres.wf(),
    ensures
        final(remove_reads).wf(),
        ({
            let folded = mapping_fold(
                split_seq(input@, '\n'),
                format,
                Map::empty(),
                Seq::empty(),
            );
            match r {
                Ok(()) => (format is Paf || format is M4) && (folded matches Some((m, ord)) && (
                final(remove_reads).model(), final(remove_reads).order()) == find_fold(
                    ord,
                    m,
                    chim_thres,
                    ncov_thres,
                    old(remove_reads).model(),
                    old(remove_reads).order(),
                )),
                Err(e) => if format is Paf || format is M4 {
                    folded is None && e is ReadingErrorNoFilename && final(remove_reads).model()
                        == old(remove_reads).model() && final(remove_reads).order() == old(
                        remove_reads,
                    ).order()
                } else {
                    e is CantRunOperationOnFile && final(remove_reads).model() == old(
                        remove_reads,
                    ).model() && final(remove_reads).order() == old(remove_reads).order()
                },
            }
        }),
{
    let mut read2mapping = Read2Mapping::new();
    match parse(input, format, &mut read2mapping) {
        Ok(()) => (),
        Err(e) => {
            return Err(e);
        },
    }
    let names = read2mapping.get_reads();
    let ghost m = read2mapping.model();
    let ghost ord = read2mapping.order();
    let mut i: usize = 0;
    proof {
        assert(ord.subrange(0, ord.len() as int) =~= ord);
    }
    while i < names.len()
        invariant
            0 <= i <= names@.len(),
            ncov_thres.wf(),
            names@.len() == ord.len(),
            forall|k: int| 0 <= k < names@.len() ==> (#[trigger] names@[k])@ == ord[k],
            read2mapping.wf(),
            m == read2mapping.model(),
            ord == read2mapping.order(),
            remove_reads.wf(),
            find_fold(
                ord,
                m,
                chim_thres,
                ncov_thres,
                old(remove_reads).model(),
                old(remove_reads).order(),
            ) == find_fold(
                ord.subrange(i as int, ord.len() as int),
                m,
                chim_thres,
                ncov_thres,
                remove_reads.model(),
                remove_reads.order(),
            ),
        decreases names@.len() - i,
    {
        let ghost rest = ord.subrange(i as int, ord.len() as int);
        proof {
            assert(rest[0] == ord[i as int]);
            assert(rest.drop_first() =~= ord.subrange(i + 1, ord.len() as int));
            assert(read2mapping.map@.contains_key(read2mapping.ids@[i as int]@));
        }
        let name = &names[i];
        match read2mapping.get(name.as_str()) {
            Some(entry) => {
                let (label, gaps) = find_read(&entry.1, entry.0, chim_thres, ncov_thres);
                remove_reads.insert(name.clone(), (label, entry.0, gaps));
            },
            None => {
                proof {
                    assert(false);
                }
            },
        }
        i = i + 1;
    }
    proof {
        assert(ord.subrange(ord.len() as int, ord.len() as int) =~= Seq::<Seq<char>>::empty());
    }
    Ok(())
}

} // verus!
