//! The fully resident overlap store.

use vstd::hash_map::StringHashMap;
use vstd::prelude::*;

use crate::error::Error;
use crate::reads2ovl::{
    model_add_both, model_add_length, model_add_overlap, order_add, OvlPage, Reads2Ovl,
};

verus! {

/// Copies an interval list.
pub fn copy_intervals(v: &Vec<(u32, u32)>) -> (r: Vec<(u32, u32)>)
    ensures
        r@ == v@,
{
    let mut out: Vec<(u32, u32)> = Vec::new();
    let mut i: usize = 0;
    while i < v.len()
        invariant
            0 <= i <= v@.len(),
            out@ == v@.subrange(0, i as int),
        decreases v@.len() - i,
    {
        out.push(v[i]);
        proof {
            assert(out@ =~= v@.subrange(0, i + 1));
        }
        i = i + 1;
    }
    proof {
        assert(v@.subrange(0, v@.len() as int) =~= v@);
    }
    out
}

/// Copies a list of read names.
pub fn copy_names(v: &Vec<String>) -> (r: Vec<String>)
    ensures
        r@.len() == v@.len(),
        forall|i: int| 0 <= i < v@.len() ==> (#[trigger] r@[i])@ == v@[i]@,
{
    let mut out: Vec<String> = Vec::new();
    let mut i: usize = 0;
    while i < v.len()
        invariant
            0 <= i <= v@.len(),
            out@.len() == i,
            forall|k: int| 0 <= k < i ==> (#[trigger] out@[k])@ == v@[k]@,
        decreases v@.len() - i,
    {
        out.push(v[i].clone());
        i = i + 1;
    }
    out
}

/// Everything resident: one hash map from read id to its interval list
/// and length, and the ids in order of first sight.
pub struct FullMemory {
    reads2ovl: StringHashMap<(Vec<(u32, u32)>, usize)>,
    ids: Vec<String>,
    read_buffer_size: usize,
}

impl FullMemory {
    /// An empty store; `read_buffer_size` is handed through to the input
    /// layer.
    pub fn new(read_buffer_size: usize) -> (r: FullMemory)
        ensures
            r.wf(),
            r.model() == Map::<Seq<char>, (Seq<(u32, u32)>, usize)>::empty(),
            r.order() == Seq::<Seq<char>>::empty(),
    {
        let r = FullMemory {
            reads2ovl: StringHashMap::new(),
            ids: Vec::new(),
            read_buffer_size,
        };
        proof {
            assert(r.model() =~= Map::<Seq<char>, (Seq<(u32, u32)>, usize)>::empty());
            assert(r.order() =~= Seq::<Seq<char>>::empty());
        }
        r
    }
}

impl Reads2Ovl for FullMemory {
    closed spec fn model(&self) -> Map<Seq<char>, (Seq<(u32, u32)>, usize)> {
        Map::new(
            |k: Seq<char>| self.reads2ovl@.contains_key(k),
            |k: Seq<char>| (self.reads2ovl@[k].0@, self.reads2ovl@[k].1),
        )
    }

    closed spec fn order(&self) -> Seq<Seq<char>> {
        self.ids@.map_values(|s: String| s@)
    }

    /// The resident store never fails.
    open spec fn fallible(&self) -> bool {
        false
    }

    /// The resident store's one page is the whole store.
    open spec fn page_limit(&self) -> int {
        self.model().dom().len() as int
    }

    closed spec fn wf(&self) -> bool {
        &&& forall|i: int, j: int|
            0 <= i < j < self.ids@.len() ==> self.ids@[i]@ != self.ids@[j]@
        &&& forall|i: int|
            0 <= i < self.ids@.len() ==> self.reads2ovl@.contains_key(#[trigger] self.ids@[i]@)
        &&& forall|k: Seq<char>|
            self.reads2ovl@.contains_key(k) ==> exists|i: int|
                0 <= i < self.ids@.len() && self.ids@[i]@ == k
    }

    proof fn order_model(&self) {
        let ord = self.order();
        let dom = self.model().dom();
        assert(dom =~= self.ids@.map_values(|s: String| s@).to_set()) by {
            assert forall|k: Seq<char>| dom.contains(k) implies ord.to_set().contains(k) by {
                let i = choose|i: int| 0 <= i < self.ids@.len() && self.ids@[i]@ == k;
                assert(ord[i] == k);
            }
            assert forall|k: Seq<char>| ord.to_set().contains(k) implies dom.contains(k) by {
                let i = choose|i: int| 0 <= i < ord.len() && ord[i] == k;
                assert(self.reads2ovl@.contains_key(self.ids@[i]@));
            }
        }
        assert(forall|i: int, j: int| 0 <= i < j < ord.len() ==> ord[i] != ord[j]);
        ord.unique_seq_to_set();
    }

    fn overlap(&self, id: &str) -> (r: Result<Vec<(u32, u32)>, Error>)
        ensures
            r is Ok,
    {
        match self.reads2ovl.get(id) {
            Some(entry) => Ok(copy_intervals(&entry.0)),
            None => Ok(Vec::new()),
        }
    }

    fn length(&self, id: &str) -> (r: usize) {
        match self.reads2ovl.get(id) {
            Some(entry) => entry.1,
            None => 0,
        }
    }

    fn add_overlap(&mut self, id: String, ovl: (u32, u32)) -> (r: Result<(), Error>)
        ensures
            r is Ok,
    {
        let ghost m0 = self.model();
        let ghost ord0 = self.order();
        match self.reads2ovl.get(id.as_str()) {
            Some(entry) => {
                let mut v = copy_intervals(&entry.0);
                let len = entry.1;
                v.push(ovl);
                self.reads2ovl.insert(id, (v, len));
                proof {
                    assert(self.model() =~= model_add_overlap(m0, id@, ovl));
                    assert(self.order() =~= order_add(ord0, m0, id@));
                }
            },
            None => {
                let mut v: Vec<(u32, u32)> = Vec::new();
                v.push(ovl);
                self.ids.push(id.clone());
                self.reads2ovl.insert(id, (v, 0));
                proof {
                    assert(v@ =~= seq![ovl]);
                    assert(self.model() =~= model_add_overlap(m0, id@, ovl));
                    assert(self.order() =~= order_add(ord0, m0, id@));
                    assert forall|k: Seq<char>| self.reads2ovl@.contains_key(k) implies exists|i: int|
                        0 <= i < self.ids@.len() && self.ids@[i]@ == k by {
                        if k == id@ {
                            assert(self.ids@[self.ids@.len() - 1]@ == k);
                        } else {
                            let i = choose|i: int|
                                0 <= i < old(self).ids@.len() && old(self).ids@[i]@ == k;
                            assert(self.ids@[i]@ == k);
                        }
                    }
                }
            },
        }
        Ok(())
    }

    fn add_length(&mut self, id: String, length: usize) {
        let ghost m0 = self.model();
        let ghost ord0 = self.order();
        match self.reads2ovl.get(id.as_str()) {
            Some(entry) => {
                if entry.1 == 0 {
                    let v = copy_intervals(&entry.0);
                    self.reads2ovl.insert(id, (v, length));
                    proof {
                        assert(self.model() =~= model_add_length(m0, id@, length));
                        assert(self.order() =~= order_add(ord0, m0, id@));
                    }
                } else {
                    proof {
                        assert(self.model() =~= model_add_length(m0, id@, length));
                        assert(self.order() =~= order_add(ord0, m0, id@));
                    }
                }
            },
            None => {
                self.ids.push(id.clone());
                self.reads2ovl.insert(id, (Vec::new(), length));
                proof {
                    assert(self.model() =~= model_add_length(m0, id@, length));
                    assert(self.order() =~= order_add(ord0, m0, id@));
                    assert forall|k: Seq<char>| self.reads2ovl@.contains_key(k) implies exists|i: int|
                        0 <= i < self.ids@.len() && self.ids@[i]@ == k by {
                        if k == id@ {
                            assert(self.ids@[self.ids@.len() - 1]@ == k);
                        } else {
                            let i = choose|i: int|
                                0 <= i < old(self).ids@.len() && old(self).ids@[i]@ == k;
                            assert(self.ids@[i]@ == k);
                        }
                    }
                }
            },
        }
    }

    fn add_overlap_and_length(&mut self, id: String, ovl: (u32, u32), length: usize) -> (r: Result<
        (),
        Error,
    >)
        ensures
            r is Ok,
    {
        let ghost m0 = self.model();
        let ghost ord0 = self.order();
        self.add_length(id.clone(), length);
        let r = self.add_overlap(id, ovl);
        proof {
            if r is Ok {
                assert(self.model() =~= model_add_both(m0, id@, ovl, length));
            }
        }
        r
    }

    fn get_reads(&self) -> (r: Vec<String>) {
        copy_names(&self.ids)
    }

    /// The whole store moves into `new` as one page; what `new` held is
    /// dropped, where the original swapped it back into the store.
    fn get_overlaps(&mut self, new: &mut OvlPage) -> (r: Result<bool, Error>)
        ensures
            r == Result::<bool, Error>::Ok(true),
    {
        let mut page = OvlPage { ids: Vec::new(), map: StringHashMap::new() };
        core::mem::swap(&mut page.ids, &mut self.ids);
        core::mem::swap(&mut page.map, &mut self.reads2ovl);
        core::mem::swap(new, &mut page);
        proof {
            assert(new.ids@ == old(self).ids@);
            assert(new.map@ == old(self).reads2ovl@);
            assert(new.wf());
            assert(new.model() =~= old(self).model());
            assert(self.model() =~= old(self).model().remove_keys(new.model().dom()));
            assert(self.model().dom() =~= Set::<Seq<char>>::empty());
            assert(new.model().dom().len() == old(self).page_limit());
        }
        Ok(true)
    }

    fn read_buffer_size(&self) -> usize {
        self.read_buffer_size
    }
}

} // verus!
