//! The overlap store: per read id, its declared length and every overlap
//! interval observed for it.
//!
//! Two interchangeable implementations share one contract: `FullMemory`
//! keeps everything resident; `OnDisk` pages interval lists out to an
//! embedded key-value store under a bounded write buffer.

use vstd::hash_map::StringHashMap;
use vstd::prelude::*;
use vstd::string::StringExecFns;

use crate::error::Error;

pub mod fullmemory;
pub mod ondisk;

verus! {

/// Adding one interval: appended to the read's list; a read seen for the
/// first time starts with length 0.
pub open spec fn model_add_overlap(
    m: Map<Seq<char>, (Seq<(u32, u32)>, usize)>,
    id: Seq<char>,
    ovl: (u32, u32),
) -> Map<Seq<char>, (Seq<(u32, u32)>, usize)> {
    if m.contains_key(id) {
        m.insert(id, (m[id].0.push(ovl), m[id].1))
    } else {
        m.insert(id, (seq![ovl], 0))
    }
}

/// Recording a length: the first one recorded wins; a length already set
/// is kept.
pub open spec fn model_add_length(
    m: Map<Seq<char>, (Seq<(u32, u32)>, usize)>,
    id: Seq<char>,
    length: usize,
) -> Map<Seq<char>, (Seq<(u32, u32)>, usize)> {
    if m.contains_key(id) {
        if m[id].1 == 0 {
            m.insert(id, (m[id].0, length))
        } else {
            m
        }
    } else {
        m.insert(id, (Seq::empty(), length))
    }
}

/// Recording both at once behaves as recording the length, then the
/// interval.
pub open spec fn model_add_both(
    m: Map<Seq<char>, (Seq<(u32, u32)>, usize)>,
    id: Seq<char>,
    ovl: (u32, u32),
    length: usize,
) -> Map<Seq<char>, (Seq<(u32, u32)>, usize)> {
    model_add_overlap(model_add_length(m, id, length), id, ovl)
}

/// A read id joins the known-read order on first sight.
pub open spec fn order_add(
    ord: Seq<Seq<char>>,
    m: Map<Seq<char>, (Seq<(u32, u32)>, usize)>,
    id: Seq<char>,
) -> Seq<Seq<char>> {
    if m.contains_key(id) {
        ord
    } else {
        ord.push(id)
    }
}

/// A page of the logical store, drained out for memory-bounded iteration.
pub struct OvlPage {
    /// The page's read ids, in the order they joined the store.
    pub ids: Vec<String>,
    /// Their interval lists and lengths.
    pub map: StringHashMap<(Vec<(u32, u32)>, usize)>,
}

impl OvlPage {
    /// The ids list the map's keys exactly once each.
    pub open spec fn wf(&self) -> bool {
        &&& forall|i: int, j: int|
            0 <= i < j < self.ids@.len() ==> self.ids@[i]@ != self.ids@[j]@
        &&& forall|i: int| 0 <= i < self.ids@.len() ==> self.map@.contains_key(#[trigger] self.ids@[i]@)
        &&& forall|k: Seq<char>|
            self.map@.contains_key(k) ==> exists|i: int|
                0 <= i < self.ids@.len() && self.ids@[i]@ == k
    }

    /// The page as a logical store fragment.
    pub open spec fn model(&self) -> Map<Seq<char>, (Seq<(u32, u32)>, usize)> {
        Map::new(
            |k: Seq<char>| self.map@.contains_key(k),
            |k: Seq<char>| (self.map@[k].0@, self.map@[k].1),
        )
    }

    /// An empty page.
    pub fn new() -> (r: OvlPage)
        ensures
            r.wf(),
            r.model() == Map::<Seq<char>, (Seq<(u32, u32)>, usize)>::empty(),
            r.ids@.len() == 0,
    {
        let r = OvlPage { ids: Vec::new(), map: StringHashMap::new() };
        proof {
            assert(r.model() =~= Map::<Seq<char>, (Seq<(u32, u32)>, usize)>::empty());
        }
        r
    }
}

/// The store abstraction: ingest overlaps and lengths, look them up by
/// read id, and drain the whole logical map in bounded pages.
pub trait Reads2Ovl: Sized {
    /// The logical store: read id to interval list and length.
    spec fn model(&self) -> Map<Seq<char>, (Seq<(u32, u32)>, usize)>;

    /// Every id ever added, in order of first sight.
    spec fn order(&self) -> Seq<Seq<char>>;

    /// Internal invariant.
    spec fn wf(&self) -> bool;

    /// Whether the backing medium can fail: every lookup and addition on
    /// an infallible store succeeds.
    spec fn fallible(&self) -> bool;

    /// How many reads one page of `get_overlaps` may carry.
    spec fn page_limit(&self) -> int;

    /// The order lists exactly the ids of the model, once each.
    proof fn order_model(&self)
        requires
            self.wf(),
        ensures
            self.model().dom().finite(),
            self.order().len() == self.model().dom().len(),
            forall|i: int|
                0 <= i < self.order().len() ==> self.model().contains_key(
                    #[trigger] self.order()[i],
                ),
            forall|i: int, j: int|
                0 <= i < j < self.order().len() ==> self.order()[i] != self.order()[j],
    ;

    /// Interval list of a read; empty for an id never seen.
    fn overlap(&self, id: &str) -> (r: Result<Vec<(u32, u32)>, Error>)
        requires
            self.wf(),
        ensures
            !self.fallible() ==> r is Ok,
            match r {
                Ok(v) => v@ == if self.model().contains_key(id@) {
                    self.model()[id@].0
                } else {
                    Seq::<(u32, u32)>::empty()
                },
                Err(e) => e is OnDiskReadDatabase || e is OnDiskDeserializeVec,
            },
    ;

    /// Recorded length of a read; zero for an id without one.
    fn length(&self, id: &str) -> (r: usize)
        requires
            self.wf(),
        ensures
            r == if self.model().contains_key(id@) {
                self.model()[id@].1
            } else {
                0
            },
    ;

    /// Appends one interval to a read's list.
    fn add_overlap(&mut self, id: String, ovl: (u32, u32)) -> (r: Result<(), Error>)
        requires
            old(self).wf(),
        ensures
            final(self).wf(),
            final(self).fallible() == old(self).fallible(),
            !old(self).fallible() ==> r is Ok,
            match r {
                Ok(()) => final(self).model() == model_add_overlap(old(self).model(), id@, ovl)
                    && final(self).order() == order_add(old(self).order(), old(self).model(), id@),
                Err(e) => e is OnDiskReadDatabase || e is OnDiskDeserializeVec || e
                    is OnDiskBatchApplication,
            },
    ;

    /// Records a read's length; the first recorded length wins.
    fn add_length(&mut self, id: String, length: usize)
        requires
            old(self).wf(),
        ensures
            final(self).wf(),
            final(self).fallible() == old(self).fallible(),
            final(self).model() == model_add_length(old(self).model(), id@, length),
            final(self).order() == order_add(old(self).order(), old(self).model(), id@),
    ;

    /// Records an overlap and the read's length in one step, equivalent to
    /// `add_length` followed by `add_overlap`.
    fn add_overlap_and_length(&mut self, id: String, ovl: (u32, u32), length: usize) -> (r: Result<
        (),
        Error,
    >)
        requires
            old(self).wf(),
        ensures
            final(self).wf(),
            final(self).fallible() == old(self).fallible(),
            !old(self).fallible() ==> r is Ok,
            match r {
                Ok(()) => final(self).model() == model_add_both(
                    old(self).model(),
                    id@,
                    ovl,
                    length,
                ) && final(self).order() == order_add(old(self).order(), old(self).model(), id@),
                Err(e) => e is OnDiskReadDatabase || e is OnDiskDeserializeVec || e
                    is OnDiskBatchApplication,
            },
    ;

    /// Every id ever added, in order of first sight.
    fn get_reads(&self) -> (r: Vec<String>)
        requires
            self.wf(),
        ensures
            r@.len() == self.order().len(),
            forall|i: int| 0 <= i < r@.len() ==> (#[trigger] r@[i])@ == self.order()[i],
    ;

    /// Moves the next page of the logical map into `new`, dropping what
    /// `new` held; returns true once the store is drained: the call that
    /// takes the last page answers true itself, no extra empty call is
    /// needed.  A page keeps each read's data intact, carries at most
    /// `page_limit` reads, and the store shrinks by exactly the page.
    fn get_overlaps(&mut self, new: &mut OvlPage) -> (r: Result<bool, Error>)
        requires
            old(self).wf(),
            old(new).wf(),
        ensures
            final(self).wf(),
            final(new).wf(),
            final(self).fallible() == old(self).fallible(),
            !old(self).fallible() ==> r is Ok,
            match r {
                Ok(done) => {
                    &&& final(new).model().dom().len() as int == (
                    if old(self).page_limit() <= old(self).model().dom().len() as int {
                        old(self).page_limit()
                    } else {
                        old(self).model().dom().len() as int
                    })
                    &&& final(new).model().dom().subset_of(old(self).model().dom())
                    &&& forall|k: Seq<char>|
                        final(new).model().contains_key(k) ==> final(new).model()[k] == old(
                            self,
                        ).model()[k]
                    &&& final(self).model() == old(self).model().remove_keys(
                        final(new).model().dom(),
                    )
                    &&& (done <==> final(self).model().dom() == Set::<Seq<char>>::empty())
                    &&& (!done ==> final(self).model().dom().len() < old(
                        self,
                    ).model().dom().len())
                },
                Err(e) => e is OnDiskReadDatabase || e is OnDiskDeserializeVec
                    || e is OnDiskBatchApplication,
            },
    ;

    /// Size of the read buffer handed to the input layer.
    fn read_buffer_size(&self) -> usize;
}

/// A parsed record half fits the store when its interval coordinates fit
/// in 32 bits and its length in a machine word.
pub open spec fn half_fits(h: (Seq<char>, int, int, int)) -> bool {
    h.1 <= usize::MAX && h.2 <= u32::MAX && h.3 <= u32::MAX
}

/// Ingesting a mapping file, line by line from the top: each record adds
/// one interval and the declared length to both of its reads.  Empty
/// lines are skipped; a malformed or out-of-range line spoils the run.
pub open spec fn ingest_fold(
    lines: Seq<Seq<char>>,
    format: crate::utils::Format,
    m: Map<Seq<char>, (Seq<(u32, u32)>, usize)>,
    ord: Seq<Seq<char>>,
) -> Option<(Map<Seq<char>, (Seq<(u32, u32)>, usize)>, Seq<Seq<char>>)>
    decreases lines.len(),
{
    if lines.len() == 0 {
        Some((m, ord))
    } else {
        let l = lines[0];
        if l.len() == 0 {
            ingest_fold(lines.drop_first(), format, m, ord)
        } else {
            match crate::overlap::mapping_halves(l, format) {
                Some(halves) => {
                    let (ha, hb) = halves;
                    if half_fits(ha) && half_fits(hb) {
                        let m1 = model_add_both(
                            m,
                            ha.0,
                            ((ha.2 as u32), (ha.3 as u32)),
                            ha.1 as usize,
                        );
                        let ord1 = order_add(ord, m, ha.0);
                        let m2 = model_add_both(
                            m1,
                            hb.0,
                            ((hb.2 as u32), (hb.3 as u32)),
                            hb.1 as usize,
                        );
                        let ord2 = order_add(ord1, m1, hb.0);
                        ingest_fold(lines.drop_first(), format, m2, ord2)
                    } else {
                        None
                    }
                },
                None => None,
            }
        }
    }
}

/// Streams the records of a mapping file's text into the store.
pub fn init_records<S: Reads2Ovl>(
    store: &mut S,
    input: &str,
    format: crate::utils::Format,
) -> (r: Result<(), Error>)
    requires
        old(store).wf(),
        format is Paf || format is M4,
    ensures
        final(store).wf(),
        final(store).fallible() == old(store).fallible(),
        !old(store).fallible() && ingest_fold(
            crate::text::split_seq(input@, '\n'),
            format,
            old(store).model(),
            old(store).order(),
        ) is Some ==> r is Ok,
        match r {
            Ok(()) => ingest_fold(
                crate::text::split_seq(input@, '\n'),
                format,
                old(store).model(),
                old(store).order(),
            ) == Some((final(store).model(), final(store).order())),
            Err(e) => (e is ReadingErrorNoFilename ==> ingest_fold(
                crate::text::split_seq(input@, '\n'),
                format,
                old(store).model(),
                old(store).order(),
            ) is None) && (e is ReadingErrorNoFilename || e is OnDiskReadDatabase
                || e is OnDiskDeserializeVec || e is OnDiskBatchApplication),
        },
{
    let lines = crate::text::split_str(input, '\n');
    let ghost lviews = crate::text::split_seq(input@, '\n');
    let mut i: usize = 0;
    proof {
        assert(lviews.subrange(0, lviews.len() as int) =~= lviews);
    }
    while i < lines.len()
        invariant
            0 <= i <= lines@.len(),
            format is Paf || format is M4,
            lviews == lines@.map_values(|t: String| t@),
            lviews == crate::text::split_seq(input@, '\n'),
            store.wf(),
            store.fallible() == old(store).fallible(),
            ingest_fold(lviews, format, old(store).model(), old(store).order()) == ingest_fold(
                lviews.subrange(i as int, lviews.len() as int),
                format,
                store.model(),
                store.order(),
            ),
        decreases lines@.len() - i,
    {
        let ghost rest = lviews.subrange(i as int, lviews.len() as int);
        proof {
            assert(rest[0] == lviews[i as int]);
            assert(rest.drop_first() =~= lviews.subrange(i + 1, lviews.len() as int));
            assert(lviews[i as int] == lines@[i as int]@);
        }
        let line = &lines[i];
        if line.as_str().unicode_len() == 0 {
            i = i + 1;
            continue;
        }
        match crate::overlap::parse_line_halves(line.as_str(), format) {
            Some((ha, hb)) => {
                if ha.len > (usize::MAX as u64) || ha.begin > (u32::MAX as u64) || ha.end > (
                u32::MAX as u64) || hb.len > (usize::MAX as u64) || hb.begin > (u32::MAX as u64)
                    || hb.end > (u32::MAX as u64) {
                    let ft = if matches!(format, crate::utils::Format::Paf) {
                        crate::util::FileType::Paf
                    } else {
                        crate::util::FileType::M4
                    };
                    return Err(Error::ReadingErrorNoFilename { format: ft });
                }
                match store.add_overlap_and_length(
                    ha.name,
                    ((ha.begin as u32), (ha.end as u32)),
                    ha.len as usize,
                ) {
                    Ok(()) => (),
                    Err(e) => {
                        return Err(e);
                    },
                }
                match store.add_overlap_and_length(
                    hb.name,
                    ((hb.begin as u32), (hb.end as u32)),
                    hb.len as usize,
                ) {
                    Ok(()) => (),
                    Err(e) => {
                        return Err(e);
                    },
                }
            },
            None => {
                let ft = if matches!(format, crate::utils::Format::Paf) {
                    crate::util::FileType::Paf
                } else {
                    crate::util::FileType::M4
                };
                return Err(Error::ReadingErrorNoFilename { format: ft });
            },
        }
        i = i + 1;
    }
    proof {
        assert(lviews.subrange(lviews.len() as int, lviews.len() as int) =~= Seq::<
            Seq<char>,
        >::empty());
    }
    Ok(())
}

/// Dispatches a file's text to the right ingestion by its name; sequence
/// files, reports and unknown names carry no overlaps.
pub fn init_content<S: Reads2Ovl>(store: &mut S, filename: &str, input: &str) -> (r: Result<
    (),
    Error,
>)
    requires
        old(store).wf(),
    ensures
        final(store).wf(),
        final(store).fallible() == old(store).fallible(),
        ({
            let ft = crate::util::file_type_of(filename@);
            !old(store).fallible() && ((ft == Some(crate::util::FileType::Paf) && ingest_fold(
                crate::text::split_seq(input@, '\n'),
                crate::utils::Format::Paf,
                old(store).model(),
                old(store).order(),
            ) is Some) || (ft == Some(crate::util::FileType::M4) && ingest_fold(
                crate::text::split_seq(input@, '\n'),
                crate::utils::Format::M4,
                old(store).model(),
                old(store).order(),
            ) is Some)) ==> r is Ok
        }),
        ({
            let ft = crate::util::file_type_of(filename@);
            match r {
                Ok(()) => (ft == Some(crate::util::FileType::Paf) && ingest_fold(
                    crate::text::split_seq(input@, '\n'),
                    crate::utils::Format::Paf,
                    old(store).model(),
                    old(store).order(),
                ) == Some((final(store).model(), final(store).order()))) || (ft == Some(
                    crate::util::FileType::M4,
                ) && ingest_fold(
                    crate::text::split_seq(input@, '\n'),
                    crate::utils::Format::M4,
                    old(store).model(),
                    old(store).order(),
                ) == Some((final(store).model(), final(store).order()))),
                Err(e) => (ft == Some(crate::util::FileType::Fasta) || ft == Some(
                    crate::util::FileType::Fastq,
                ) || ft == Some(crate::util::FileType::Yacrd) ==> e is CantRunOperationOnFile) && (
                ft == None::<crate::util::FileType> || ft == Some(
                    crate::util::FileType::YacrdOverlap,
                ) ==> e is UnableToDetectFileFormat),
            }
        }),
{
    match crate::util::get_file_type(filename) {
        Some(crate::util::FileType::Paf) => init_records(store, input, crate::utils::Format::Paf),
        Some(crate::util::FileType::M4) => init_records(store, input, crate::utils::Format::M4),
        Some(crate::util::FileType::Fasta) => Err(
            Error::CantRunOperationOnFile {
                operation: String::from_str("overlap parsing"),
                filetype: crate::util::FileType::Fasta,
                filename: String::from_str(filename),
            },
        ),
        Some(crate::util::FileType::Fastq) => Err(
            Error::CantRunOperationOnFile {
                operation: String::from_str("overlap parsing"),
                filetype: crate::util::FileType::Fastq,
                filename: String::from_str(filename),
            },
        ),
        Some(crate::util::FileType::Yacrd) => Err(
            Error::CantRunOperationOnFile {
                operation: String::from_str("overlap parsing"),
                filetype: crate::util::FileType::Yacrd,
                filename: String::from_str(filename),
            },
        ),
        _ => Err(Error::UnableToDetectFileFormat { filename: String::from_str(filename) }),
    }
}

} // verus!
