//! Per-read verdicts over whole-coordinate intervals, and the writing of
//! report lines from them.

use vstd::hash_map::StringHashMap;
use vstd::prelude::*;
use vstd::string::StringExecFns;

use crate::editor::{classify_read, Ratio, ReadType};
use crate::error::Error;
use crate::stack::BadPart;
use crate::text::{dec_str, u64_to_string};

verus! {

/// The verdict on one read, as written in a report.
#[derive(Debug, Clone, Copy, PartialEq, Eq, Structural)]
pub enum BadReadType {
    Chimeric,
    NotCovered,
    NotBad,
}

/// The report word of each verdict.
pub open spec fn bad_read_type_str(t: BadReadType) -> Seq<char> {
    match t {
        BadReadType::Chimeric => "Chimeric"@,
        BadReadType::NotCovered => "Not_covered"@,
        BadReadType::NotBad => "NotBad"@,
    }
}

impl BadReadType {
    /// The word written for this verdict.
    pub fn as_str(&self) -> (r: &'static str)
        ensures
            r@ == bad_read_type_str(*self),
    {
        match self {
            BadReadType::Chimeric => "Chimeric",
            BadReadType::NotCovered => "Not_covered",
            BadReadType::NotBad => "NotBad",
        }
    }
}

/// A read's name together with its declared length.
#[derive(Debug, Clone)]
pub struct NameLen {
    pub name: String,
    pub len: u64,
}

/// Whether a span is certainly bad or merely to be checked.
#[derive(Debug, Clone, Copy, PartialEq, Eq, Structural)]
pub enum IntervalType {
    Sure,
    Check,
}

/// A half-open span of one read's coordinate space.
#[derive(Debug, Clone, Copy, PartialEq, Eq, Structural)]
pub struct Interval {
    pub begin: u64,
    pub end: u64,
    pub int_type: IntervalType,
}

/// Length of a span; a malformed span whose end sits before its begin
/// counts zero.
pub open spec fn interval_length(g: Interval) -> int {
    if g.end >= g.begin {
        g.end - g.begin
    } else {
        0
    }
}

/// The text of one gap: its length, begin and end, comma-separated, and a
/// semicolon when more gaps follow.
pub open spec fn gap_entry64(g: Interval, remaining: int) -> Seq<char> {
    let entry = dec_str(interval_length(g)) + seq![','] + dec_str(g.begin as int) + seq![',']
        + dec_str(g.end as int);
    if remaining > 1 {
        entry + seq![';']
    } else {
        entry
    }
}

/// Writes one gap of a report line; `remaining` counts this gap and those
/// after it, so that a semicolon separates it from a following one.
pub fn write_gap(gap: &Interval, remaining: usize) -> (r: String)
    ensures
        r@ == gap_entry64(*gap, remaining as int),
{
    let glen: u64 = if gap.end >= gap.begin {
        gap.end - gap.begin
    } else {
        0
    };
    let mut out = u64_to_string(glen);
    out.append(",");
    let b = u64_to_string(gap.begin);
    out.append(b.as_str());
    out.append(",");
    let e = u64_to_string(gap.end);
    out.append(e.as_str());
    if remaining > 1 {
        out.append(";");
    }
    proof {
        reveal_strlit(",");
        reveal_strlit(";");
        assert(","@ =~= seq![',']);
        assert(";"@ =~= seq![';']);
        assert(out@ =~= gap_entry64(*gap, remaining as int));
    }
    out
}

/// The text of a whole gap list.
pub open spec fn gap_list_str(gs: Seq<Interval>) -> Seq<char>
    decreases gs.len(),
{
    if gs.len() == 0 {
        Seq::empty()
    } else {
        gap_entry64(gs[0], gs.len() as int) + gap_list_str(gs.drop_first())
    }
}

/// One line of the plain report: verdict, read name, length and gaps,
/// tab-separated, newline-terminated.
pub open spec fn result_line(
    label: BadReadType,
    name: Seq<char>,
    len: u64,
    gaps: Seq<Interval>,
) -> Seq<char> {
    bad_read_type_str(label) + seq!['\t'] + name + seq!['\t'] + dec_str(len as int) + seq!['\t']
        + gap_list_str(gaps) + seq!['\n']
}

/// Writes the full report line of one read.
pub fn write_result(label: &BadReadType, name: &str, len: u64, gaps: &Vec<Interval>) -> (r: String)
    ensures
        r@ == result_line(*label, name@, len, gaps@),
{
    let mut out = String::from_str(label.as_str());
    out.append("\t");
    out.append(name);
    out.append("\t");
    let lenstr = u64_to_string(len);
    out.append(lenstr.as_str());
    out.append("\t");
    let mut i: usize = 0;
    proof {
        reveal_strlit("\t");
        assert("\t"@ =~= seq!['\t']);
        assert(out@ =~= bad_read_type_str(*label) + seq!['\t'] + name@ + seq!['\t'] + dec_str(
            len as int,
        ) + seq!['\t']);
    }
    let ghost head = out@;
    proof {
        assert(head + gap_prefix_str(gaps@, 0) =~= head);
    }
    while i < gaps.len()
        invariant
            0 <= i <= gaps@.len(),
            out@ == head + gap_prefix_str(gaps@, i as int),
        decreases gaps@.len() - i,
    {
        let piece = write_gap(&gaps[i], gaps.len() - i);
        out.append(piece.as_str());
        proof {
            lemma_gap_prefix_step(gaps@, i as int);
            assert((head + gap_prefix_str(gaps@, i as int)) + gap_entry64(
                gaps@[i as int],
                gaps@.len() - i,
            ) =~= head + (gap_prefix_str(gaps@, i as int) + gap_entry64(
                gaps@[i as int],
                gaps@.len() - i,
            )));
        }
        i = i + 1;
    }
    proof {
        lemma_gap_prefix_all(gaps@);
    }
    out.append("\n");
    proof {
        reveal_strlit("\n");
        assert("\n"@ =~= seq!['\n']);
        assert(out@ =~= result_line(*label, name@, len, gaps@));
    }
    out
}

/// The text of the first `i` gaps of a list.
pub open spec fn gap_prefix_str(gs: Seq<Interval>, i: int) -> Seq<char>
    decreases i,
{
    if i <= 0 {
        Seq::empty()
    } else {
        gap_prefix_str(gs, i - 1) + gap_entry64(gs[i - 1], gs.len() - (i - 1))
    }
}

proof fn lemma_gap_prefix_step(gs: Seq<Interval>, i: int)
    requires
        0 <= i < gs.len(),
    ensures
        gap_prefix_str(gs, i + 1) == gap_prefix_str(gs, i) + gap_entry64(gs[i], gs.len() - i),
{
}

/// All gaps written one after the other, in either reading.
proof fn lemma_gap_prefix_all(gs: Seq<Interval>)
    ensures
        gap_prefix_str(gs, gs.len() as int) == gap_list_str(gs),
    decreases gs.len(),
{
    if gs.len() == 0 {
    } else {
        lemma_gap_prefix_all(gs.drop_first());
        lemma_gap_prefix_shift(gs, gs.len() as int);
        assert(gap_list_str(gs) == gap_entry64(gs[0], gs.len() as int) + gap_list_str(
            gs.drop_first(),
        ));
    }
}

proof fn lemma_gap_prefix_shift(gs: Seq<Interval>, i: int)
    requires
        1 <= i <= gs.len(),
    ensures
        gap_prefix_str(gs, i) == gap_entry64(gs[0], gs.len() as int) + gap_prefix_str(
            gs.drop_first(),
            i - 1,
        ),
    decreases i,
{
    if i == 1 {
        assert(gap_prefix_str(gs, 1) == gap_prefix_str(gs, 0) + gap_entry64(gs[0], gs.len() as int));
        assert(Seq::<char>::empty() + gap_entry64(gs[0], gs.len() as int) =~= gap_entry64(
            gs[0],
            gs.len() as int,
        ));
        assert(gap_prefix_str(gs.drop_first(), 0) == Seq::<char>::empty());
        assert(gap_entry64(gs[0], gs.len() as int) + Seq::<char>::empty() =~= gap_entry64(
            gs[0],
            gs.len() as int,
        ));
    } else {
        lemma_gap_prefix_shift(gs, i - 1);
        assert(gs.drop_first()[i - 2] == gs[i - 1]);
        assert(gs.drop_first().len() - (i - 2) == gs.len() - (i - 1));
        assert((gap_entry64(gs[0], gs.len() as int) + gap_prefix_str(gs.drop_first(), i - 2))
            + gap_entry64(gs[i - 1], gs.len() - (i - 1)) =~= gap_entry64(gs[0], gs.len() as int) + (
        gap_prefix_str(gs.drop_first(), i - 2) + gap_entry64(gs[i - 1], gs.len() - (i - 1))));
    }
}

/// The verdict, length and gaps of every classified read, keyed by name,
/// with the names in order of first sight.
pub struct BadReadMap {
    map: StringHashMap<(BadReadType, u64, Vec<Interval>)>,
    ids: Vec<String>,
}

impl BadReadMap {
    /// The names list the map's keys exactly once each.
    pub closed spec fn wf(&self) -> bool {
        &&& forall|i: int, j: int|
            0 <= i < j < self.ids@.len() ==> self.ids@[i]@ != self.ids@[j]@
        &&& forall|i: int| 0 <= i < self.ids@.len() ==> self.map@.contains_key(#[trigger] self.ids@[i]@)
        &&& forall|k: Seq<char>|
            self.map@.contains_key(k) ==> exists|i: int|
                0 <= i < self.ids@.len() && self.ids@[i]@ == k
    }

    /// What each read maps to.
    pub closed spec fn model(&self) -> Map<Seq<char>, (BadReadType, u64, Seq<Interval>)> {
        Map::new(
            |k: Seq<char>| self.map@.contains_key(k),
            |k: Seq<char>| (self.map@[k].0, self.map@[k].1, self.map@[k].2@),
        )
    }

    /// The read names in order of first sight.
    pub closed spec fn order(&self) -> Seq<Seq<char>> {
        self.ids@.map_values(|s: String| s@)
    }

    /// An empty map.
    pub fn new() -> (r: BadReadMap)
        ensures
            r.wf(),
            r.model() == Map::<Seq<char>, (BadReadType, u64, Seq<Interval>)>::empty(),
            r.order() == Seq::<Seq<char>>::empty(),
    {
        let r = BadReadMap { map: StringHashMap::new(), ids: Vec::new() };
        proof {
            assert(r.model() =~= Map::<Seq<char>, (BadReadType, u64, Seq<Interval>)>::empty());
            assert(r.order() =~= Seq::<Seq<char>>::empty());
        }
        r
    }

    /// Records one read's verdict, replacing an earlier one.
    pub fn insert(&mut self, name: String, value: (BadReadType, u64, Vec<Interval>))
        requires
            old(self).wf(),
        ensures
            final(self).wf(),
            final(self).model() == old(self).model().insert(
                name@,
                (value.0, value.1, value.2@),
            ),
            final(self).order() == if old(self).model().contains_key(name@) {
                old(self).order()
            } else {
                old(self).order().push(name@)
            },
    {
        let ghost ids0 = self.ids@;
        if !self.map.contains_key(name.as_str()) {
            self.ids.push(name.clone());
        }
        let ghost v2 = value.2@;
        self.map.insert(name, value);
        proof {
            assert(self.model() =~= old(self).model().insert(name@, (value.0, value.1, v2)));
            if old(self).model().contains_key(name@) {
                assert(self.order() =~= old(self).order());
            } else {
                assert(self.order() =~= old(self).order().push(name@));
            }
            assert forall|k: Seq<char>| self.map@.contains_key(k) implies exists|i: int|
                0 <= i < self.ids@.len() && self.ids@[i]@ == k by {
                if k == name@ && !old(self).model().contains_key(name@) {
                    assert(self.ids@[self.ids@.len() - 1]@ == k);
                } else {
                    let i = choose|i: int| 0 <= i < ids0.len() && ids0[i]@ == k;
                    assert(self.ids@[i]@ == k);
                }
            }
        }
    }

    /// The recorded verdict of one read.
    pub fn get(&self, name: &str) -> (r: Option<&(BadReadType, u64, Vec<Interval>)>)
        ensures
            match r {
                Some(v) => self.model().contains_key(name@) && (v.0, v.1, v.2@) == self.model()[
                    name@],
                None => !self.model().contains_key(name@),
            },
    {
        self.map.get(name)
    }

    /// Whether a read has a recorded verdict.
    pub fn contains_key(&self, name: &str) -> (r: bool)
        ensures
            r == self.model().contains_key(name@),
    {
        self.map.contains_key(name)
    }

    /// How many reads have a verdict.
    pub fn len(&self) -> (r: usize)
        requires
            self.wf(),
        ensures
            r == self.order().len(),
    {
        self.ids.len()
    }

    /// The set of read names with a verdict.
    pub fn key_set(&self) -> (r: vstd::hash_set::StringHashSet)
        requires
            self.wf(),
        ensures
            r@ == self.model().dom(),
    {
        let mut out = vstd::hash_set::StringHashSet::new();
        let mut i: usize = 0;
        while i < self.ids.len()
            invariant
                0 <= i <= self.ids@.len(),
                self.wf(),
                forall|k: int| 0 <= k < i ==> out@.contains(#[trigger] self.ids@[k]@),
                forall|k: Seq<char>|
                    out@.contains(k) ==> exists|j: int| 0 <= j < i && self.ids@[j]@ == k,
            decreases self.ids@.len() - i,
        {
            out.insert(self.ids[i].clone());
            i = i + 1;
        }
        proof {
            assert forall|k: Seq<char>| out@.contains(k) implies self.model().dom().contains(
                k,
            ) by {
                let j = choose|j: int| 0 <= j < self.ids@.len() && self.ids@[j]@ == k;
                assert(self.map@.contains_key(self.ids@[j]@));
            }
            assert forall|k: Seq<char>| self.model().dom().contains(k) implies out@.contains(
                k,
            ) by {
                let j = choose|j: int| 0 <= j < self.ids@.len() && self.ids@[j]@ == k;
            }
            assert(out@ =~= self.model().dom());
        }
        out
    }

    /// The read names, in order of first sight.
    pub fn get_reads(&self) -> (r: Vec<String>)
        requires
            self.wf(),
        ensures
            r@.len() == self.order().len(),
            forall|i: int| 0 <= i < r@.len() ==> (#[trigger] r@[i])@ == self.order()[i],
    {
        crate::reads2ovl::fullmemory::copy_names(&self.ids)
    }
}

/// One gap as a JSON object holding its begin and its end.
pub open spec fn json_gap(g: Interval) -> Seq<char> {
    "{\"begin\":"@ + dec_str(g.begin as int) + ",\"end\":"@ + dec_str(g.end as int) + "}"@
}

/// A gap list as the comma-separated members of a JSON array.
pub open spec fn json_gap_list(gs: Seq<Interval>) -> Seq<char>
    decreases gs.len(),
{
    if gs.len() == 0 {
        Seq::empty()
    } else if gs.len() == 1 {
        json_gap(gs[0])
    } else {
        json_gap_list(gs.drop_last()) + ","@ + json_gap(gs.last())
    }
}

/// One read's JSON entry: its name keys an object holding the gaps, the
/// length and the verdict.
pub open spec fn json_entry(
    name: Seq<char>,
    label: BadReadType,
    len: u64,
    gaps: Seq<Interval>,
) -> Seq<char> {
    "\""@ + name + "\":{\"gaps\":["@ + json_gap_list(gaps) + "],\"length\":"@ + dec_str(len as int)
        + ",\"type\":\""@ + bad_read_type_str(label) + "\"}"@
}

/// The comma-separated entries of every read of the map, in the given
/// order; a name outside the map contributes nothing.
pub open spec fn json_entries(
    m: Map<Seq<char>, (BadReadType, u64, Seq<Interval>)>,
    ord: Seq<Seq<char>>,
) -> Seq<char>
    decreases ord.len(),
{
    if ord.len() == 0 {
        Seq::empty()
    } else {
        let e = if m.contains_key(ord.last()) {
            json_entry(ord.last(), m[ord.last()].0, m[ord.last()].1, m[ord.last()].2)
        } else {
            Seq::empty()
        };
        if ord.len() == 1 {
            e
        } else {
            json_entries(m, ord.drop_last()) + ","@ + e
        }
    }
}

/// The whole report as one JSON object, keyed by read name.
pub open spec fn json_report(
    m: Map<Seq<char>, (BadReadType, u64, Seq<Interval>)>,
    ord: Seq<Seq<char>>,
) -> Seq<char> {
    "{"@ + json_entries(m, ord) + "}"@
}

/// Writes one gap as JSON.
fn json_gap_str(g: &Interval) -> (r: String)
    ensures
        r@ == json_gap(*g),
{
    let mut out = String::from_str("{\"begin\":");
    let b = u64_to_string(g.begin);
    out.append(b.as_str());
    out.append(",\"end\":");
    let e = u64_to_string(g.end);
    out.append(e.as_str());
    out.append("}");
    out
}

/// Writes the JSON report of every read of the map, entries in order of
/// first sight.  Read names are written as they stand: the result is
/// well-formed JSON for names free of quotes, backslashes and control
/// characters, which read names are.
#[verifier::rlimit(100)]
pub fn write_json(remove_reads: &BadReadMap) -> (r: String)
    requires
        remove_reads.wf(),
    ensures
        r@ == json_report(remove_reads.model(), remove_reads.order()),
{
    let names = remove_reads.get_reads();
    let mut out = String::from_str("{");
    let ghost m = remove_reads.model();
    let ghost ord = remove_reads.order();
    let mut i: usize = 0;
    proof {
        assert(json_entries(m, ord.subrange(0, 0)) =~= Seq::<char>::empty());
        assert(out@ =~= "{"@ + json_entries(m, ord.subrange(0, 0)));
    }
    while i < names.len()
        invariant
            0 <= i <= names@.len(),
            names@.len() == ord.len(),
            forall|k: int| 0 <= k < names@.len() ==> (#[trigger] names@[k])@ == ord[k],
            remove_reads.wf(),
            m == remove_reads.model(),
            ord == remove_reads.order(),
            out@ == "{"@ + json_entries(m, ord.subrange(0, i as int)),
        decreases names@.len() - i,
    {
        let name = &names[i];
        if i > 0 {
            out.append(",");
        }
        match remove_reads.get(name.as_str()) {
            Some(entry) => {
                out.append("\"");
                out.append(name.as_str());
                out.append("\":{\"gaps\":[");
                let mut j: usize = 0;
                let ghost gaps = m[ord[i as int]].2;
                let ghost head = out@;
                proof {
                    assert(entry.2@ == gaps);
                    assert(json_gap_list(gaps.subrange(0, 0)) =~= Seq::<char>::empty());
                    assert(out@ =~= head + json_gap_list(gaps.subrange(0, 0)));
                }
                while j < entry.2.len()
                    invariant
                        0 <= j <= entry.2@.len(),
                        entry.2@ == gaps,
                        out@ == head + json_gap_list(gaps.subrange(0, j as int)),
                    decreases entry.2@.len() - j,
                {
                    if j > 0 {
                        out.append(",");
                    }
                    let piece = json_gap_str(&entry.2[j]);
                    out.append(piece.as_str());
                    proof {
                        let pre = gaps.subrange(0, j as int);
                        let cur = gaps.subrange(0, j + 1);
                        assert(cur.drop_last() =~= pre);
                        assert(cur.last() == gaps[j as int]);
                        if j == 0 {
                            assert(out@ =~= head + json_gap(gaps[0]));
                        } else {
                            assert(out@ =~= head + (json_gap_list(pre) + ","@ + json_gap(
                                gaps[j as int],
                            )));
                        }
                    }
                    j = j + 1;
                }
                out.append("],\"length\":");
                let lenstr = u64_to_string(entry.1);
                out.append(lenstr.as_str());
                out.append(",\"type\":\"");
                out.append(entry.0.as_str());
                out.append("\"}");
                proof {
                    assert(gaps.subrange(0, gaps.len() as int) =~= gaps);
                    let pre = ord.subrange(0, i as int);
                    let cur = ord.subrange(0, i + 1);
                    assert(cur.drop_last() =~= pre);
                    assert(cur.last() == ord[i as int]);
                    if i == 0 {
                        assert(out@ =~= "{"@ + json_entry(
                            ord[0],
                            m[ord[0]].0,
                            m[ord[0]].1,
                            m[ord[0]].2,
                        ));
                    } else {
                        assert(out@ =~= "{"@ + (json_entries(m, pre) + ","@ + json_entry(
                            ord[i as int],
                            m[ord[i as int]].0,
                            m[ord[i as int]].1,
                            m[ord[i as int]].2,
                        )));
                    }
                }
            },
            None => {
                proof {
                    assert(remove_reads.map@.contains_key(remove_reads.ids@[i as int]@));
                    assert(remove_reads.model().contains_key(name@));
                    assert(false);
                }
            },
        }
        i = i + 1;
    }
    proof {
        assert(ord.subrange(0, ord.len() as int) =~= ord);
    }
    out.append("}");
    out
}

/// The verdict word family used in reports, from the classifier's.
pub open spec fn bad_label_of(t: ReadType) -> BadReadType {
    match t {
        ReadType::Chimeric => BadReadType::Chimeric,
        ReadType::NotCovered => BadReadType::NotCovered,
        ReadType::NotBad => BadReadType::NotBad,
    }
}

/// Converts the classifier's verdict to the report's.
pub fn to_bad_label(t: ReadType) -> (r: BadReadType)
    ensures
        r == bad_label_of(t),
{
    match t {
        ReadType::Chimeric => BadReadType::Chimeric,
        ReadType::NotCovered => BadReadType::NotCovered,
        ReadType::NotBad => BadReadType::NotBad,
    }
}

/// One read's report entry under a bad-part source: its verdict, length
/// and gaps; an unknown read reads as no gaps and length 0.
pub open spec fn verdict_entry(
    parts: Map<Seq<char>, (Seq<(u32, u32)>, usize)>,
    k: Seq<char>,
    ncov: Ratio,
) -> (BadReadType, u64, Seq<Interval>) {
    let entry = if parts.contains_key(k) {
        parts[k]
    } else {
        (Seq::<(u32, u32)>::empty(), 0usize)
    };
    (
        bad_label_of(classify_read(entry.0, entry.1 as int, ncov)),
        entry.1 as u64,
        entry.0.map_values(
            |p: (u32, u32)| Interval { begin: p.0 as u64, end: p.1 as u64, int_type: IntervalType::Sure },
        ),
    )
}

/// Classifying every listed read into a verdict map, the last entry of a
/// repeated name winning.
pub open spec fn verdict_fold(
    ks: Seq<Seq<char>>,
    parts: Map<Seq<char>, (Seq<(u32, u32)>, usize)>,
    ncov: Ratio,
    m: Map<Seq<char>, (BadReadType, u64, Seq<Interval>)>,
    ord: Seq<Seq<char>>,
) -> (Map<Seq<char>, (BadReadType, u64, Seq<Interval>)>, Seq<Seq<char>>)
    decreases ks.len(),
{
    if ks.len() == 0 {
        (m, ord)
    } else {
        verdict_fold(
            ks.drop_first(),
            parts,
            ncov,
            m.insert(ks[0], verdict_entry(parts, ks[0], ncov)),
            if m.contains_key(ks[0]) {
                ord
            } else {
                ord.push(ks[0])
            },
        )
    }
}

/// Classifies every read of a bad-part source and writes the JSON report.
pub fn json_report_all<B: BadPart>(badregions: &mut B, not_covered: Ratio) -> (r: Result<
    String,
    Error,
>)
    requires
        old(badregions).wf(),
        not_covered.wf(),
    ensures
        final(badregions).wf(),
        final(badregions).parts() == old(badregions).parts(),
        final(badregions).order() == old(badregions).order(),
        final(badregions).fallible() == old(badregions).fallible(),
        !old(badregions).fallible() ==> r is Ok,
        match r {
            Ok(out) => ({
                let folded = verdict_fold(
                    old(badregions).order(),
                    old(badregions).parts(),
                    not_covered,
                    Map::empty(),
                    Seq::empty(),
                );
                out@ == json_report(folded.0, folded.1)
            }),
            Err(e) => e is OnDiskReadDatabase || e is OnDiskDeserializeVec
                || e is NotReachableCode,
        },
{
    let names = badregions.get_reads();
    let ghost parts = badregions.parts();
    let ghost ord = badregions.order();
    let mut brm = BadReadMap::new();
    let mut i: usize = 0;
    proof {
        assert(ord.subrange(0, ord.len() as int) =~= ord);
    }
    while i < names.len()
        invariant
            0 <= i <= names@.len(),
            not_covered.wf(),
            names@.len() == ord.len(),
            forall|k: int| 0 <= k < names@.len() ==> (#[trigger] names@[k])@ == ord[k],
            badregions.wf(),
            parts == badregions.parts(),
            ord == badregions.order(),
            parts == old(badregions).parts(),
            ord == old(badregions).order(),
            badregions.fallible() == old(badregions).fallible(),
            brm.wf(),
            verdict_fold(ord, parts, not_covered, Map::empty(), Seq::empty()) == verdict_fold(
                ord.subrange(i as int, ord.len() as int),
                parts,
                not_covered,
                brm.model(),
                brm.order(),
            ),
        decreases names@.len() - i,
    {
        let ghost rest = ord.subrange(i as int, ord.len() as int);
        proof {
            assert(rest[0] == ord[i as int]);
            assert(rest.drop_first() =~= ord.subrange(i + 1, ord.len() as int));
        }
        let name = &names[i];
        let entry = match badregions.get_bad_part(name.as_str()) {
            Ok(v) => v,
            Err(e) => {
                return Err(e);
            },
        };
        let label = to_bad_label(crate::editor::type_of_read(entry.1, &entry.0, not_covered));
        let length: u64 = entry.1 as u64;
        let mut gaps: Vec<Interval> = Vec::new();
        let mut j: usize = 0;
        let ghost regions = entry.0@;
        proof {
            assert(gaps@ =~= regions.subrange(0, 0).map_values(
                |p: (u32, u32)| Interval { begin: p.0 as u64, end: p.1 as u64, int_type: IntervalType::Sure },
            ));
        }
        while j < entry.0.len()
            invariant
                0 <= j <= entry.0@.len(),
                entry.0@ == regions,
                gaps@ == regions.subrange(0, j as int).map_values(
                    |p: (u32, u32)| Interval { begin: p.0 as u64, end: p.1 as u64, int_type: IntervalType::Sure },
                ),
            decreases entry.0@.len() - j,
        {
            let p = entry.0[j];
            gaps.push(Interval { begin: p.0 as u64, end: p.1 as u64, int_type: IntervalType::Sure });
            proof {
                assert(gaps@ =~= regions.subrange(0, j + 1).map_values(
                    |q: (u32, u32)| Interval { begin: q.0 as u64, end: q.1 as u64, int_type: IntervalType::Sure },
                ));
            }
            j = j + 1;
        }
        proof {
            assert(regions.subrange(0, regions.len() as int) =~= regions);
            assert((label, length, gaps@) == verdict_entry(parts, ord[i as int], not_covered));
        }
        brm.insert(name.clone(), (label, length, gaps));
        i = i + 1;
    }
    proof {
        assert(ord.subrange(ord.len() as int, ord.len() as int) =~= Seq::<Seq<char>>::empty());
    }
    Ok(write_json(&brm))
}

/// The plain report of every read of the map, one line each, in order of
/// first sight.
pub open spec fn plain_report(
    m: Map<Seq<char>, (BadReadType, u64, Seq<Interval>)>,
    ord: Seq<Seq<char>>,
) -> Seq<char>
    decreases ord.len(),
{
    if ord.len() == 0 {
        Seq::empty()
    } else {
        let k = ord[0];
        let line = if m.contains_key(k) {
            result_line(m[k].0, k, m[k].1, m[k].2)
        } else {
            Seq::empty()
        };
        line + plain_report(m, ord.drop_first())
    }
}

/// Writes the plain report of every read of the map.
pub fn write(remove_reads: &BadReadMap) -> (r: String)
    requires
        remove_reads.wf(),
    ensures
        r@ == plain_report(remove_reads.model(), remove_reads.order()),
{
    let names = remove_reads.get_reads();
    let mut out = String::new();
    let mut i: usize = 0;
    proof {
        assert(out@ + plain_report(remove_reads.model(), remove_reads.order()) =~= plain_report(
            remove_reads.model(),
            remove_reads.order(),
        ));
        assert(remove_reads.order().subrange(0, remove_reads.order().len() as int) =~= remove_reads
            .order());
    }
    while i < names.len()
        invariant
            0 <= i <= names@.len(),
            names@.len() == remove_reads.order().len(),
            forall|k: int|
                0 <= k < names@.len() ==> (#[trigger] names@[k])@ == remove_reads.order()[k],
            remove_reads.wf(),
            plain_report(remove_reads.model(), remove_reads.order()) == out@ + plain_report(
                remove_reads.model(),
                remove_reads.order().subrange(i as int, remove_reads.order().len() as int),
            ),
        decreases names@.len() - i,
    {
        let ghost ord = remove_reads.order();
        let ghost rest = ord.subrange(i as int, ord.len() as int);
        proof {
            assert(rest[0] == ord[i as int]);
            assert(rest.drop_first() =~= ord.subrange(i + 1, ord.len() as int));
        }
        let name = &names[i];
        let ghost prev = out@;
        match remove_reads.get(name.as_str()) {
            Some(entry) => {
                let line = write_result(&entry.0, name.as_str(), entry.1, &entry.2);
                out.append(line.as_str());
                proof {
                    assert((prev + line@) + plain_report(
                        remove_reads.model(),
                        rest.drop_first(),
                    ) =~= prev + (line@ + plain_report(remove_reads.model(), rest.drop_first())));
                }
            },
            None => {
                proof {
                    assert(remove_reads.map@.contains_key(remove_reads.ids@[i as int]@));
                    assert(remove_reads.model().contains_key(name@));
                    assert(false);
                }
            },
        }
        i = i + 1;
    }
    proof {
        assert(remove_reads.order().subrange(
            remove_reads.order().len() as int,
            remove_reads.order().len() as int,
        ) =~= Seq::<Seq<char>>::empty());
    }
    out
}

} // verus!
