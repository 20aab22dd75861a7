//! The per-read classification source: bad regions computed from an
//! overlap store, or read back from an earlier report.  Results are
//! memoized, so each read is computed at most once per run.

use vstd::hash_map::StringHashMap;
use vstd::prelude::*;
use vstd::string::StringExecFns;

use crate::error::Error;
use crate::reads2ovl::Reads2Ovl;
use crate::sweep::{
    bad_parts, bad_parts_spec, lemma_bad_parts_bounded, pairs_bounded, sort_intervals,
};
use crate::text::{all_digits, digits_value, split_seq, split_str};
use crate::util::{str2u32, str2usize};

verus! {

/// Interval coordinates taken up to 64 bits.
pub open spec fn widen_pairs(s: Seq<(u32, u32)>) -> Seq<(u64, u64)> {
    s.map_values(|p: (u32, u32)| (p.0 as u64, p.1 as u64))
}

/// Interval coordinates taken back to 32 bits; meaningful only when every
/// coordinate fits.
pub open spec fn narrow_pairs(s: Seq<(u64, u64)>) -> Seq<(u32, u32)> {
    s.map_values(|p: (u64, u64)| (p.0 as u32, p.1 as u32))
}

fn widen_intervals(v: &Vec<(u32, u32)>) -> (r: Vec<(u64, u64)>)
    ensures
        r@ == widen_pairs(v@),
{
    let mut out: Vec<(u64, u64)> = Vec::new();
    let mut i: usize = 0;
    proof {
        assert(out@ =~= widen_pairs(v@.subrange(0, 0)));
    }
    while i < v.len()
        invariant
            0 <= i <= v@.len(),
            out@ == widen_pairs(v@.subrange(0, i as int)),
        decreases v@.len() - i,
    {
        let p = v[i];
        out.push((p.0 as u64, p.1 as u64));
        proof {
            assert(out@ =~= widen_pairs(v@.subrange(0, i + 1)));
        }
        i = i + 1;
    }
    proof {
        assert(v@.subrange(0, v@.len() as int) =~= v@);
    }
    out
}

fn narrow_intervals(v: &Vec<(u64, u64)>) -> (r: Vec<(u32, u32)>)
    requires
        pairs_bounded(v@, u32::MAX as u64),
    ensures
        r@ == narrow_pairs(v@),
{
    let mut out: Vec<(u32, u32)> = Vec::new();
    let mut i: usize = 0;
    proof {
        assert(out@ =~= narrow_pairs(v@.subrange(0, 0)));
    }
    while i < v.len()
        invariant
            0 <= i <= v@.len(),
            pairs_bounded(v@, u32::MAX as u64),
            out@ == narrow_pairs(v@.subrange(0, i as int)),
        decreases v@.len() - i,
    {
        let p = v[i];
        assert(p.0 <= u32::MAX && p.1 <= u32::MAX);
        out.push((p.0 as u32, p.1 as u32));
        proof {
            assert(out@ =~= narrow_pairs(v@.subrange(0, i + 1)));
        }
        i = i + 1;
    }
    proof {
        assert(v@.subrange(0, v@.len() as int) =~= v@);
    }
    out
}

/// The bad regions computed for one read from its intervals, coverage
/// threshold and length.
pub open spec fn computed_regions(ivs: Seq<(u32, u32)>, c: u64, length: usize) -> Seq<(u32, u32)> {
    narrow_pairs(bad_parts_spec(sort_intervals(widen_pairs(ivs)), c, length as u64))
}

/// A source of per-read bad regions: each read id maps to its bad-region
/// list and its length; an unknown id reads as no regions and length 0.
pub trait BadPart: Sized {
    /// Bad regions and length of every known read.
    spec fn parts(&self) -> Map<Seq<char>, (Seq<(u32, u32)>, usize)>;

    /// Every known read id, in order of first sight.
    spec fn order(&self) -> Seq<Seq<char>>;

    /// Internal invariant.
    spec fn wf(&self) -> bool;

    /// Whether a lookup can fail: on an infallible source every lookup
    /// succeeds.
    spec fn fallible(&self) -> bool;

    /// The ids whose answer is already memoized: looking one of them up
    /// again cannot fail and recomputes nothing.
    spec fn cached(&self) -> Set<Seq<char>>;

    /// Bad regions and length of one read; lookups never change what any
    /// read maps to.
    fn get_bad_part(&mut self, id: &str) -> (r: Result<&(Vec<(u32, u32)>, usize), Error>)
        requires
            old(self).wf(),
        ensures
            final(self).wf(),
            final(self).parts() == old(self).parts(),
            final(self).order() == old(self).order(),
            final(self).fallible() == old(self).fallible(),
            !old(self).fallible() ==> r is Ok,
            old(self).cached().contains(id@) ==> r is Ok,
            r is Ok ==> final(self).cached() == old(self).cached().insert(id@),
            r is Err ==> final(self).cached() == old(self).cached(),
            match r {
                Ok(v) => (v.0@, v.1 as usize) == if old(self).parts().contains_key(id@) {
                    old(self).parts()[id@]
                } else {
                    (Seq::<(u32, u32)>::empty(), 0usize)
                },
                Err(e) => {
                    &&& (e is OnDiskReadDatabase || e is OnDiskDeserializeVec
                        || e is NotReachableCode)
                    &&& (e is NotReachableCode ==> old(self).parts().contains_key(id@) && old(
                        self,
                    ).parts()[id@].1 > u32::MAX)
                },
            },
    ;

    /// Every known read id, in order of first sight.
    fn get_reads(&self) -> (r: Vec<String>)
        requires
            self.wf(),
        ensures
            r@.len() == self.order().len(),
            forall|i: int| 0 <= i < r@.len() ==> (#[trigger] r@[i])@ == self.order()[i],
    ;
}

/// Bad regions computed on demand from an overlap store.
pub struct FromOverlap<O: Reads2Ovl> {
    ovl: O,
    coverage: u64,
    buffer: StringHashMap<(Vec<(u32, u32)>, usize)>,
}

impl<O: Reads2Ovl> FromOverlap<O> {
    /// Wraps a filled overlap store under a coverage-depth threshold.
    pub fn new(ovl: O, coverage: u64) -> (r: FromOverlap<O>)
        requires
            ovl.wf(),
        ensures
            r.wf(),
            r.parts() == from_overlap_parts(ovl, coverage),
            r.order() == ovl.order(),
            r.cached() == Set::<Seq<char>>::empty(),
            r.fallible() == (ovl.fallible() || exists|k: Seq<char>|
                ovl.model().contains_key(k) && (#[trigger] ovl.model()[k]).1 > u32::MAX),
    {
        let r = FromOverlap { ovl, coverage, buffer: StringHashMap::new() };
        proof {
            assert(r.cached() =~= Set::<Seq<char>>::empty());
        }
        r
    }

    /// Runs the sweep for one read out of the store.
    fn compute_bad_part(&self, id: &str) -> (r: Result<(Vec<(u32, u32)>, usize), Error>)
        requires
            self.wf(),
        ensures
            !self.fallible() ==> r is Ok,
            match r {
                Ok(v) => (v.0@, v.1) == if self.parts().contains_key(id@) {
                    self.parts()[id@]
                } else {
                    (Seq::<(u32, u32)>::empty(), 0usize)
                },
                Err(e) => {
                    &&& (e is OnDiskReadDatabase || e is OnDiskDeserializeVec
                        || e is NotReachableCode)
                    &&& (e is NotReachableCode ==> self.parts().contains_key(id@)
                        && self.parts()[id@].1 > u32::MAX)
                },
            },
    {
        let ovl_list = match self.ovl.overlap(id) {
            Ok(v) => v,
            Err(e) => {
                return Err(e);
            },
        };
        let length = self.ovl.length(id);
        if length > (u32::MAX as usize) {
            proof {
                assert(self.ovl.model().contains_key(id@));
                assert(self.fallible());
            }
            return Err(
                Error::NotReachableCode { name: String::from_str("read length beyond u32") },
            );
        }
        let ivs64 = widen_intervals(&ovl_list);
        proof {
            assert(pairs_bounded(ivs64@, u32::MAX as u64));
        }
        let regions64 = bad_parts(&ivs64, self.coverage, length as u64);
        proof {
            lemma_bad_parts_bounded(ivs64@, self.coverage, length as u64, u32::MAX as u64);
        }
        let regions = narrow_intervals(&regions64);
        proof {
            if !self.ovl.model().contains_key(id@) {
                assert(ovl_list@ =~= Seq::<(u32, u32)>::empty());
                lemma_computed_regions_absent(self.coverage);
            }
        }
        Ok((regions, length))
    }
}

/// What a `FromOverlap` source over the given store answers for each read.
pub open spec fn from_overlap_parts<O: Reads2Ovl>(ovl: O, coverage: u64) -> Map<
    Seq<char>,
    (Seq<(u32, u32)>, usize),
> {
    Map::new(
        |k: Seq<char>| ovl.model().contains_key(k),
        |k: Seq<char>|
            (
                computed_regions(ovl.model()[k].0, coverage, ovl.model()[k].1),
                ovl.model()[k].1,
            ),
    )
}

/// A read with no intervals and length 0 has no bad regions.
proof fn lemma_computed_regions_absent(c: u64)
    ensures
        computed_regions(Seq::empty(), c, 0) =~= Seq::<(u32, u32)>::empty(),
{
    crate::sweep::lemma_sort_intervals_ensures(widen_pairs(Seq::empty()));
    assert(widen_pairs(Seq::<(u32, u32)>::empty()) =~= Seq::<(u64, u64)>::empty());
    assert(sort_intervals(Seq::<(u64, u64)>::empty()) =~= Seq::<(u64, u64)>::empty());
    let st = crate::sweep::sweep_intervals(Seq::<(u64, u64)>::empty(), c);
    assert(st.stack.len() == 0);
    assert(crate::sweep::final_pop(st.stack, c, 0, st.last_covered) == 0);
    assert(crate::sweep::add_extremities(0, 0, 0, st.gaps) =~= Seq::<(u64, u64)>::empty());
    assert(bad_parts_spec(sort_intervals(Seq::<(u64, u64)>::empty()), c, 0) =~= Seq::<
        (u64, u64),
    >::empty());
}

impl<O: Reads2Ovl> BadPart for FromOverlap<O> {
    closed spec fn parts(&self) -> Map<Seq<char>, (Seq<(u32, u32)>, usize)> {
        from_overlap_parts(self.ovl, self.coverage)
    }

    /// The source can fail where its store can, or where a recorded length
    /// does not fit the interval coordinate space.
    closed spec fn fallible(&self) -> bool {
        self.ovl.fallible() || exists|k: Seq<char>|
            self.ovl.model().contains_key(k) && (#[trigger] self.ovl.model()[k]).1 > u32::MAX
    }

    /// The memo buffer's keys.
    closed spec fn cached(&self) -> Set<Seq<char>> {
        self.buffer@.dom()
    }

    closed spec fn order(&self) -> Seq<Seq<char>> {
        self.ovl.order()
    }

    closed spec fn wf(&self) -> bool {
        &&& self.ovl.wf()
        &&& forall|k: Seq<char>|
            self.buffer@.contains_key(k) ==> (
                (#[trigger] self.buffer@[k]).0@,
                self.buffer@[k].1,
            ) == if self.parts().contains_key(k) {
                self.parts()[k]
            } else {
                (Seq::<(u32, u32)>::empty(), 0usize)
            }
    }

    fn get_bad_part(&mut self, id: &str) -> (r: Result<&(Vec<(u32, u32)>, usize), Error>) {
        if !self.buffer.contains_key(id) {
            let computed = match self.compute_bad_part(id) {
                Ok(c) => c,
                Err(e) => {
                    return Err(e);
                },
            };
            self.buffer.insert(String::from_str(id), computed);
        }
        proof {
            assert(self.cached() =~= old(self).cached().insert(id@));
        }
        let entry = self.buffer.get(id);
        Ok(entry.unwrap())
    }

    fn get_reads(&self) -> (r: Vec<String>) {
        self.ovl.get_reads()
    }
}

/// One decimal field that fits in `u32`.
pub open spec fn valid_u32_digits(s: Seq<char>) -> bool {
    s.len() > 0 && all_digits(s) && digits_value(s) <= u32::MAX
}

/// One decimal field that fits in `usize`.
pub open spec fn valid_usize_digits(s: Seq<char>) -> bool {
    s.len() > 0 && all_digits(s) && digits_value(s) <= usize::MAX
}

/// One gap entry `length,begin,end` of a report: the recomputable length
/// field is skipped, begin and end are read.
pub open spec fn parse_gap_entry(seg: Seq<char>) -> Option<(u32, u32)> {
    let ps = split_seq(seg, ',');
    if ps.len() < 3 {
        None
    } else if valid_u32_digits(ps[1]) && valid_u32_digits(ps[2]) {
        Some(((digits_value(ps[1]) as u32), (digits_value(ps[2]) as u32)))
    } else {
        None
    }
}

/// All gap entries of a report line, in order; any malformed entry spoils
/// the list.
pub open spec fn parse_gap_list(segs: Seq<Seq<char>>) -> Option<Seq<(u32, u32)>>
    decreases segs.len(),
{
    if segs.len() == 0 {
        Some(Seq::empty())
    } else {
        match parse_gap_list(segs.drop_last()) {
            Some(v) => match parse_gap_entry(segs.last()) {
                Some(g) => Some(v.push(g)),
                None => None,
            },
            None => None,
        }
    }
}

/// The bad regions written in a report's gap string.
pub open spec fn parse_gaps(s: Seq<char>) -> Option<Seq<(u32, u32)>> {
    parse_gap_list(split_seq(s, ';'))
}

/// A malformed prefix spoils the whole list.
proof fn lemma_parse_gap_list_prefix_none(segs: Seq<Seq<char>>, j: int)
    requires
        0 <= j <= segs.len(),
        parse_gap_list(segs.subrange(0, j)) is None,
    ensures
        parse_gap_list(segs) is None,
    decreases segs.len() - j,
{
    if j == segs.len() {
        assert(segs.subrange(0, j) =~= segs);
    } else {
        assert(segs.subrange(0, j + 1).drop_last() =~= segs.subrange(0, j));
        lemma_parse_gap_list_prefix_none(segs, j + 1);
    }
}

/// Reads the gap string of one report line back into bad regions.
pub fn parse_bad_string(bad_string: &str) -> (r: Result<Vec<(u32, u32)>, Error>)
    ensures
        match r {
            Ok(v) => parse_gaps(bad_string@) == Some(v@),
            Err(e) => parse_gaps(bad_string@) is None && (e is CorruptYacrdReportInPosition
                || e is CantParseNumber),
        },
{
    let segs = split_str(bad_string, ';');
    let ghost views = split_seq(bad_string@, ';');
    let mut ret: Vec<(u32, u32)> = Vec::new();
    let mut i: usize = 0;
    proof {
        assert(views.subrange(0, 0) =~= Seq::<Seq<char>>::empty());
    }
    while i < segs.len()
        invariant
            0 <= i <= segs@.len(),
            views == segs@.map_values(|t: String| t@),
            views == split_seq(bad_string@, ';'),
            parse_gap_list(views.subrange(0, i as int)) == Some(ret@),
        decreases segs@.len() - i,
    {
        let seg = &segs[i];
        let parts = split_str(seg.as_str(), ',');
        let ghost pviews = split_seq(seg@, ',');
        proof {
            assert(views[i as int] == seg@);
        }
        if parts.len() < 3 {
            proof {
                assert(parse_gap_entry(views[i as int]) is None);
                assert(views.subrange(0, i + 1).drop_last() =~= views.subrange(0, i as int));
                assert(views.subrange(0, i + 1).last() == views[i as int]);
                lemma_parse_gap_list_prefix_none(views, i + 1);
            }
            return Err(Error::CorruptYacrdReportInPosition);
        }
        proof {
            assert(parts@.map_values(|t: String| t@)[1] == parts@[1]@);
            assert(parts@.map_values(|t: String| t@)[2] == parts@[2]@);
        }
        let b = match str2u32(parts[1].as_str()) {
            Ok(x) => x,
            Err(e) => {
                proof {
                    assert(parse_gap_entry(views[i as int]) is None);
                    assert(views.subrange(0, i + 1).drop_last() =~= views.subrange(0, i as int));
                    assert(views.subrange(0, i + 1).last() == views[i as int]);
                    lemma_parse_gap_list_prefix_none(views, i + 1);
                }
                return Err(e);
            },
        };
        let e = match str2u32(parts[2].as_str()) {
            Ok(x) => x,
            Err(er) => {
                proof {
                    assert(parse_gap_entry(views[i as int]) is None);
                    assert(views.subrange(0, i + 1).drop_last() =~= views.subrange(0, i as int));
                    assert(views.subrange(0, i + 1).last() == views[i as int]);
                    lemma_parse_gap_list_prefix_none(views, i + 1);
                }
                return Err(er);
            },
        };
        ret.push((b, e));
        proof {
            assert(parse_gap_entry(views[i as int]) == Some((b, e)));
            assert(views.subrange(0, i + 1).drop_last() =~= views.subrange(0, i as int));
            assert(views.subrange(0, i + 1).last() == views[i as int]);
        }
        i = i + 1;
    }
    proof {
        assert(views.subrange(0, views.len() as int) =~= views);
    }
    Ok(ret)
}

/// Reading a report, line by line from the top: an empty line is skipped;
/// any other line needs at least the four tab-separated fields verdict,
/// read id, length and gap string, and fills one read's entry, the last
/// line of an id winning.
pub open spec fn report_fold(
    lines: Seq<Seq<char>>,
    m: Map<Seq<char>, (Seq<(u32, u32)>, usize)>,
    ord: Seq<Seq<char>>,
) -> Option<(Map<Seq<char>, (Seq<(u32, u32)>, usize)>, Seq<Seq<char>>)>
    decreases lines.len(),
{
    if lines.len() == 0 {
        Some((m, ord))
    } else {
        let l = lines[0];
        if l.len() == 0 {
            report_fold(lines.drop_first(), m, ord)
        } else {
            let fs = split_seq(l, '\t');
            if fs.len() < 4 {
                None
            } else if !valid_usize_digits(fs[2]) {
                None
            } else {
                match parse_gaps(fs[3]) {
                    Some(gaps) => report_fold(
                        lines.drop_first(),
                        m.insert(fs[1], (gaps, digits_value(fs[2]) as usize)),
                        if m.contains_key(fs[1]) {
                            ord
                        } else {
                            ord.push(fs[1])
                        },
                    ),
                    None => None,
                }
            }
        }
    }
}

/// Bad regions and lengths read back from an earlier report.
pub struct FromReport {
    buffer: StringHashMap<(Vec<(u32, u32)>, usize)>,
    ids: Vec<String>,
    empty: (Vec<(u32, u32)>, usize),
}

impl FromReport {
    /// Parses the text of a report.  Each line holds a verdict, a read
    /// id, a length and a gap string, tab-separated; empty lines are
    /// skipped.  Any malformed line fails the whole read-back.
    pub fn from_content(content: &str) -> (r: Result<FromReport, Error>)
        ensures
            match r {
                Ok(fr) => fr.wf() && report_fold(
                    split_seq(content@, '\n'),
                    Map::empty(),
                    Seq::empty(),
                ) == Some((fr.parts(), fr.order())),
                Err(e) => report_fold(split_seq(content@, '\n'), Map::empty(), Seq::empty())
                    is None && (e is CorruptYacrdReport || e is CantParseNumber
                    || e is CorruptYacrdReportInPosition),
            },
    {
        let lines = split_str(content, '\n');
        let ghost lviews = split_seq(content@, '\n');
        let mut fr = FromReport {
            buffer: StringHashMap::new(),
            ids: Vec::new(),
            empty: (Vec::new(), 0),
        };
        let mut i: usize = 0;
        proof {
            assert(lviews.subrange(0, lviews.len() as int) =~= lviews);
            assert(fr.parts() =~= Map::<Seq<char>, (Seq<(u32, u32)>, usize)>::empty());
            assert(fr.order() =~= Seq::<Seq<char>>::empty());
            assert(lviews.subrange(0, lviews.len() as int).subrange(i as int, lviews.len() as int)
                =~= lviews);
        }
        while i < lines.len()
            invariant
                0 <= i <= lines@.len(),
                lviews == lines@.map_values(|t: String| t@),
                lviews == split_seq(content@, '\n'),
                fr.wf(),
                fr.empty.0@ =~= Seq::<(u32, u32)>::empty(),
                fr.empty.1 == 0,
                report_fold(lviews, Map::empty(), Seq::empty()) == report_fold(
                    lviews.subrange(i as int, lviews.len() as int),
                    fr.parts(),
                    fr.order(),
                ),
            decreases lines@.len() - i,
        {
            let ghost rest = lviews.subrange(i as int, lviews.len() as int);
            proof {
                assert(rest[0] == lviews[i as int]);
                assert(rest.drop_first() =~= lviews.subrange(i + 1, lviews.len() as int));
                assert(lviews[i as int] == lines@[i as int]@);
            }
            let line = &lines[i];
            if line.as_str().unicode_len() == 0 {
                i = i + 1;
                continue;
            }
            let fields = split_str(line.as_str(), '\t');
            let ghost fviews = split_seq(line@, '\t');
            if fields.len() < 4 {
                return Err(
                    Error::CorruptYacrdReport { name: String::from_str(line.as_str()), line: i },
                );
            }
            proof {
                assert(fields@.map_values(|t: String| t@)[1] == fields@[1]@);
                assert(fields@.map_values(|t: String| t@)[2] == fields@[2]@);
                assert(fields@.map_values(|t: String| t@)[3] == fields@[3]@);
            }
            let len = match str2usize(fields[2].as_str()) {
                Ok(x) => x,
                Err(e) => {
                    return Err(e);
                },
            };
            let gaps = match parse_bad_string(fields[3].as_str()) {
                Ok(g) => g,
                Err(_) => {
                    return Err(
                        Error::CorruptYacrdReport {
                            name: String::from_str(line.as_str()),
                            line: i,
                        },
                    );
                },
            };
            let ghost m0 = fr.parts();
            let ghost ord0 = fr.order();
            let ghost ids0 = fr.ids@;
            let ghost gview = gaps@;
            let id = fields[1].clone();
            if !fr.buffer.contains_key(id.as_str()) {
                fr.ids.push(id.clone());
            }
            fr.buffer.insert(id, (gaps, len));
            proof {
                assert(fr.parts() =~= m0.insert(fviews[1], (gview, len)));
                if m0.contains_key(fviews[1]) {
                    assert(fr.order() =~= ord0);
                } else {
                    assert(fr.order() =~= ord0.push(fviews[1]));
                }
                assert forall|k: Seq<char>| fr.buffer@.contains_key(k) implies exists|j: int|
                    0 <= j < fr.ids@.len() && fr.ids@[j]@ == k by {
                    if k != fviews[1] {
                        let j = choose|j: int| 0 <= j < ids0.len() && ids0[j]@ == k;
                        assert(fr.ids@[j]@ == k);
                    } else {
                        if !m0.contains_key(fviews[1]) {
                            assert(fr.ids@[fr.ids@.len() - 1]@ == k);
                        } else {
                            let j = choose|j: int| 0 <= j < ids0.len() && ids0[j]@ == k;
                            assert(fr.ids@[j]@ == k);
                        }
                    }
                }
            }
            i = i + 1;
        }
        proof {
            assert(lviews.subrange(lviews.len() as int, lviews.len() as int) =~= Seq::<
                Seq<char>,
            >::empty());
        }
        Ok(fr)
    }
}

impl BadPart for FromReport {
    closed spec fn parts(&self) -> Map<Seq<char>, (Seq<(u32, u32)>, usize)> {
        Map::new(
            |k: Seq<char>| self.buffer@.contains_key(k),
            |k: Seq<char>| (self.buffer@[k].0@, self.buffer@[k].1),
        )
    }

    /// A report already read back never fails a lookup.
    open spec fn fallible(&self) -> bool {
        false
    }

    /// Everything a report holds is already in memory.
    open spec fn cached(&self) -> Set<Seq<char>> {
        Set::full()
    }

    closed spec fn order(&self) -> Seq<Seq<char>> {
        self.ids@.map_values(|s: String| s@)
    }

    closed spec fn wf(&self) -> bool {
        &&& self.empty.0@ == Seq::<(u32, u32)>::empty()
        &&& self.empty.1 == 0
        &&& forall|i: int, j: int|
            0 <= i < j < self.ids@.len() ==> self.ids@[i]@ != self.ids@[j]@
        &&& forall|i: int|
            0 <= i < self.ids@.len() ==> self.buffer@.contains_key(#[trigger] self.ids@[i]@)
        &&& forall|k: Seq<char>|
            self.buffer@.contains_key(k) ==> exists|i: int|
                0 <= i < self.ids@.len() && self.ids@[i]@ == k
    }

    fn get_bad_part(&mut self, id: &str) -> (r: Result<&(Vec<(u32, u32)>, usize), Error>)
        ensures
            r is Ok,
    {
        proof {
            assert(self.cached() =~= self.cached().insert(id@));
        }
        match self.buffer.get(id) {
            Some(v) => Ok(v),
            None => Ok(&self.empty),
        }
    }

    fn get_reads(&self) -> (r: Vec<String>) {
        crate::reads2ovl::fullmemory::copy_names(&self.ids)
    }
}

} // verus!
